//! The headers that a reader of tar archives reaches, one after another, and the place where it
//! could no longer count where the next one stands.

use vstd::prelude::*;
use vstd::slice::slice_subrange;

use crate::bencode::{digits_value, is_digit};

verus! {

/// How many bytes a block of a tar archive has.
pub const BLOCK: usize = 512;

/// The checksum that a header states, as `tar::Header::cksum` reads it.
pub uninterp spec fn header_checksum(block: Seq<u8>) -> Option<u32>;

/// Calls `tar::Header::cksum`. The outcome depends on the block alone; how numbers are written
/// in it is not written out.
#[verifier::external_body]
pub(crate) fn read_checksum(block: &[u8]) -> (checksum: Option<u32>)
    requires
        block@.len() == BLOCK,
    ensures
        checksum == header_checksum(block@),
{
    tar::Header::from_byte_slice(block).cksum().ok()
}

/// The size that a header states, as `tar::Header::entry_size` reads it.
pub uninterp spec fn header_size(block: Seq<u8>) -> Option<u64>;

/// Calls `tar::Header::entry_size`. The outcome depends on the block alone; how numbers are
/// written in it is not written out.
#[verifier::external_body]
pub(crate) fn read_size(block: &[u8]) -> (size: Option<u64>)
    requires
        block@.len() == BLOCK,
    ensures
        size == header_size(block@),
{
    tar::Header::from_byte_slice(block).entry_size().ok()
}

/// A record of an extended header: its key and its value, or none where it cannot be read.
pub type PaxRecord = Option<(Vec<u8>, Vec<u8>)>;

/// What some records of an extended header say.
pub open spec fn record_models(records: Seq<PaxRecord>) -> Seq<Option<(Seq<u8>, Seq<u8>)>> {
    records.map_values(
        |r: PaxRecord|
            match r {
                Some((key, value)) => Some((key@, value@)),
                None => None,
            },
    )
}

/// The records that `tar::PaxExtensions` finds in an extended header.
pub uninterp spec fn pax_records(bytes: Seq<u8>) -> Seq<Option<(Seq<u8>, Seq<u8>)>>;

/// Calls `tar::PaxExtensions::new`, and reads of each record `key_bytes` and `value_bytes`. The
/// outcome depends on the bytes alone; the format itself is not written out.
#[verifier::external_body]
pub(crate) fn read_pax_records(bytes: &[u8]) -> (records: Vec<PaxRecord>)
    ensures
        record_models(records@) == pax_records(bytes@),
{
    tar::PaxExtensions::new(bytes).map(|record| match record {
        Ok(r) => Some((r.key_bytes().to_vec(), r.value_bytes().to_vec())),
        Err(_) => None,
    }).collect()
}

/// The digits of a number: a plus sign in front of them does not count.
pub open spec fn digits_of(value: Seq<u8>) -> Seq<u8> {
    if value.len() > 0 && value[0] == 0x2b {
        value.drop_first()
    } else {
        value
    }
}

/// Whether a value is a number that fits.
pub open spec fn is_number(value: Seq<u8>) -> bool {
    let digits = digits_of(value);
    &&& digits.len() > 0
    &&& forall|i: int| 0 <= i < digits.len() ==> is_digit(#[trigger] digits[i])
    &&& digits_value(digits) <= u64::MAX
}

/// The key of the record that states a size.
pub const SIZE_KEY: [u8; 4] = [0x73, 0x69, 0x7a, 0x65];

/// The size that the records of an extended header state: that of the first record with the key,
/// unless an unreadable one stands before it.
pub open spec fn stated_size(records: Seq<Option<(Seq<u8>, Seq<u8>)>>) -> Option<u64>
    decreases records.len(),
{
    if records.len() == 0 {
        None
    } else {
        match records[0] {
            None => None,
            Some((key, value)) => if key == SIZE_KEY@ {
                if is_number(value) {
                    Some(digits_value(digits_of(value)) as u64)
                } else {
                    None
                }
            } else {
                stated_size(records.drop_first())
            },
        }
    }
}

/// What the headers in front of a member have said of it: whether its name or the target of its
/// link were given, and between which places its extended header stands.
#[derive(Clone, Copy, Debug, PartialEq, Eq)]
pub struct Pending {
    pub long_name: bool,
    pub long_link: bool,
    pub pax: Option<(usize, usize)>,
}

impl Pending {
    /// Nothing has been said.
    pub open spec fn nothing() -> Pending {
        Pending { long_name: false, long_link: false, pax: None }
    }
}

/// The block at a place.
pub open spec fn block_at(data: Seq<u8>, pos: int) -> Seq<u8> {
    data.subrange(pos, pos + BLOCK)
}

/// The sum of some bytes.
pub open spec fn byte_sum(bytes: Seq<u8>) -> nat
    decreases bytes.len(),
{
    if bytes.len() == 0 {
        0
    } else {
        byte_sum(bytes.drop_last()) + bytes.last() as nat
    }
}

/// The checksum of a header: the sum of its bytes, with blanks for the checksum itself.
pub open spec fn checksum_of(block: Seq<u8>) -> nat {
    byte_sum(block.take(148)) + byte_sum(block.skip(156)) + 8 * 32
}

/// Whether a block holds nothing.
pub open spec fn is_blank(block: Seq<u8>) -> bool {
    forall|i: int| 0 <= i < block.len() ==> (#[trigger] block[i]) == 0
}

/// The mark of a header by the GNU rules.
pub const GNU_MARK: [u8; 8] = [0x75, 0x73, 0x74, 0x61, 0x72, 0x20, 0x20, 0];

/// The mark of a header by the POSIX rules.
pub const USTAR_MARK: [u8; 8] = [0x75, 0x73, 0x74, 0x61, 0x72, 0, 0x30, 0x30];

/// Whether a header bears a mark.
pub open spec fn has_mark(block: Seq<u8>, mark: Seq<u8>) -> bool {
    block.subrange(257, 265) == mark
}

/// Whether a header bears one of the two marks.
pub open spec fn is_marked(block: Seq<u8>) -> bool {
    has_mark(block, GNU_MARK@) || has_mark(block, USTAR_MARK@)
}

/// Whether a header only says something of the member behind it.
pub open spec fn is_about_another(kind: u8) -> bool {
    kind == 0x4c || kind == 0x4b || kind == 0x78 || kind == 0x67
}

/// The size of what stands behind a header: what its extended header states, or it itself.
pub open spec fn size_at(data: Seq<u8>, pos: int, pending: Pending) -> Option<u64> {
    match header_size(block_at(data, pos)) {
        None => None,
        Some(size) => match pending.pax {
            Some((start, end)) if !is_about_another(block_at(data, pos)[156]) => match stated_size(
                pax_records(data.subrange(start as int, end as int)),
            ) {
                Some(stated) => Some(stated),
                None => Some(size),
            },
            _ => Some(size),
        },
    }
}

/// Where the header behind a content of that size stands.
pub open spec fn behind(pos: int, size: u64) -> int {
    pos + BLOCK + (size + (BLOCK - 1)) / (BLOCK as int) * BLOCK
}

/// What comes of the blocks that a sparse file goes on in.
pub enum Extension {
    /// The place of the next header cannot be counted once the block at that place is read.
    Overflow(int),
    /// The archive ends before they do.
    CutOff,
    /// The next header stands there.
    Next(int),
}

/// What comes of the blocks that a sparse file goes on in, where the next one stands at `at` and
/// the next header would stand at `next`.
pub open spec fn extended(data: Seq<u8>, at: int, next: int) -> Extension
    decreases data.len() - at,
{
    if at < 0 || at + BLOCK > data.len() {
        Extension::CutOff
    } else if next + BLOCK > u64::MAX {
        Extension::Overflow(at)
    } else if data[at + 504] == 1 {
        extended(data, at + BLOCK, next + BLOCK)
    } else {
        Extension::Next(next + BLOCK)
    }
}

/// The place of the block which a reader that stands at a header, with this said of the member to
/// come, cannot read without losing count, if it comes to such a block. It goes from header to
/// header, up to the end of the archive or the first header that it refuses.
pub open spec fn overflow_from(data: Seq<u8>, pos: int, pending: Pending) -> Option<int>
    decreases data.len() - pos,
{
    let block = block_at(data, pos);
    if pos < 0 || pos + BLOCK > data.len() || is_blank(block) {
        None
    } else if header_checksum(block) is None || header_checksum(block)->Some_0 != checksum_of(
        block,
    ) {
        None
    } else {
        match size_at(data, pos, pending) {
            None => None,
            Some(size) => {
                let next = behind(pos, size);
                let kind = block[156];
                if size + (BLOCK - 1) > u64::MAX || next > u64::MAX {
                    None
                } else if kind == 0x4c && is_marked(block) {
                    if pending.long_name || next > data.len() {
                        None
                    } else {
                        overflow_from(data, next, Pending { long_name: true, ..pending })
                    }
                } else if kind == 0x4b && is_marked(block) {
                    if pending.long_link || next > data.len() {
                        None
                    } else {
                        overflow_from(data, next, Pending { long_link: true, ..pending })
                    }
                } else if kind == 0x78 && is_marked(block) {
                    if pending.pax is Some || next > data.len() {
                        None
                    } else {
                        let content = ((pos + BLOCK) as usize, (pos + BLOCK + size) as usize);
                        overflow_from(data, next, Pending { pax: Some(content), ..pending })
                    }
                } else if kind == 0x53 && !has_mark(block, GNU_MARK@) {
                    None
                } else if kind == 0x53 && block[482] == 1 {
                    match extended(data, pos + BLOCK, next) {
                        Extension::Overflow(at) => Some(at),
                        Extension::CutOff => None,
                        Extension::Next(further) => if further > data.len() || further <= pos {
                            None
                        } else {
                            overflow_from(data, further, Pending::nothing())
                        },
                    }
                } else if next > data.len() {
                    None
                } else {
                    overflow_from(data, next, Pending::nothing())
                }
            },
        }
    }
}

/// Whether a reader loses count in an archive.
pub open spec fn loses_count(data: Seq<u8>) -> bool {
    overflow_from(data, 0, Pending::nothing()) is Some
}

/// The part of an archive in which a reader does not lose count.
pub open spec fn countable(data: Seq<u8>) -> Seq<u8>
    decreases data.len(),
{
    match overflow_from(data, 0, Pending::nothing()) {
        None => data,
        Some(at) => if 0 <= at < data.len() {
            countable(data.take(at))
        } else {
            data
        },
    }
}

proof fn lemma_extended(data: Seq<u8>, at: int, next: int)
    requires
        0 <= at,
    ensures
        match extended(data, at, next) {
            Extension::Overflow(stop) => at <= stop && stop + BLOCK <= data.len(),
            Extension::CutOff => true,
            Extension::Next(further) => next < further <= u64::MAX,
        },
    decreases data.len() - at,
{
    if at + BLOCK <= data.len() && next + BLOCK <= u64::MAX && data[at + 504] == 1 {
        lemma_extended(data, at + BLOCK, next + BLOCK);
    }
}

/// Whether a block holds nothing.
fn is_blank_block(block: &[u8]) -> (blank: bool)
    ensures
        blank == is_blank(block@),
{
    let mut i: usize = 0;
    while i < block.len()
        invariant
            i <= block@.len(),
            forall|k: int| 0 <= k < i ==> (#[trigger] block@[k]) == 0,
        decreases block@.len() - i,
    {
        if block[i] != 0 {
            return false;
        }
        i += 1;
    }
    true
}

/// The sum of the bytes between two places.
fn sum_between(block: &[u8], start: usize, end: usize) -> (sum: u32)
    requires
        start <= end <= block@.len() == BLOCK,
    ensures
        sum == byte_sum(block@.subrange(start as int, end as int)),
        sum <= (end - start) * 255,
{
    let mut sum: u32 = 0;
    let mut i: usize = start;
    assert(block@.subrange(start as int, start as int) =~= Seq::<u8>::empty());
    while i < end
        invariant
            start <= i <= end <= block@.len() == BLOCK,
            sum == byte_sum(block@.subrange(start as int, i as int)),
            sum <= (i - start) * 255,
        decreases end - i,
    {
        proof {
            let longer = block@.subrange(start as int, i + 1);
            assert(longer.drop_last() =~= block@.subrange(start as int, i as int));
            assert(longer.last() == block@[i as int]);
        }
        sum += block[i] as u32;
        i += 1;
    }
    sum
}

/// Whether a header states its own checksum.
fn is_checked(block: &[u8]) -> (checked: bool)
    requires
        block@.len() == BLOCK,
    ensures
        checked == (header_checksum(block@) is Some && header_checksum(block@)->Some_0
            == checksum_of(block@)),
{
    let sum: u32 = sum_between(block, 0, 148) + sum_between(block, 156, BLOCK) + 8 * 32;
    assert(block@.subrange(0, 148) =~= block@.take(148));
    assert(block@.subrange(156, BLOCK as int) =~= block@.skip(156));
    match read_checksum(block) {
        Some(stated) => stated == sum,
        None => false,
    }
}

/// Whether a header bears a mark.
fn bears(block: &[u8], mark: &[u8; 8]) -> (found: bool)
    requires
        block@.len() == BLOCK,
    ensures
        found == has_mark(block@, mark@),
{
    let mut i: usize = 0;
    while i < 8
        invariant
            i <= 8,
            block@.len() == BLOCK,
            forall|k: int| 0 <= k < i ==> block@[257 + k] == #[trigger] mark@[k],
        decreases 8 - i,
    {
        if block[257 + i] != mark[i] {
            assert(block@.subrange(257, 265)[i as int] != mark@[i as int]);
            return false;
        }
        i += 1;
    }
    assert(block@.subrange(257, 265) =~= mark@);
    true
}

/// The number that a value is, if it is one that fits.
fn number_in(value: &[u8]) -> (number: Option<u64>)
    ensures
        number == (if is_number(value@) {
            Some(digits_value(digits_of(value@)) as u64)
        } else {
            None
        }),
{
    let start: usize = if value.len() > 0 && value[0] == 0x2b {
        1
    } else {
        0
    };
    let ghost digits = digits_of(value@);
    assert(digits =~= value@.skip(start as int));
    if start == value.len() {
        return None;
    }
    let limit: u128 = u64::MAX as u128;
    let mut number: u128 = 0;
    let mut i: usize = start;
    assert(digits.take(0) =~= Seq::<u8>::empty());
    while i < value.len()
        invariant
            start <= i <= value@.len(),
            limit == u64::MAX,
            digits == value@.skip(start as int),
            digits == digits_of(value@),
            forall|k: int| 0 <= k < i - start ==> is_digit(#[trigger] digits[k]),
            number <= limit ==> number == digits_value(digits.take(i - start)),
            number > limit ==> digits_value(digits.take(i - start)) > limit,
        decreases value@.len() - i,
    {
        let byte: u8 = value[i];
        assert(byte == digits[i - start]);
        if byte < 0x30 || byte > 0x39 {
            assert(!is_digit(digits[i - start]));
            return None;
        }
        assert(digits.take(i + 1 - start).drop_last() =~= digits.take(i - start));
        if number <= limit {
            number = number * 10 + (byte - 0x30) as u128;
        }
        i += 1;
    }
    assert(digits.take(i - start) =~= digits);
    if number <= limit {
        Some(number as u64)
    } else {
        None
    }
}

/// Whether some bytes are the key of the record that states a size.
fn is_size_key(key: &[u8]) -> (is: bool)
    ensures
        is == (key@ == SIZE_KEY@),
{
    let is = key.len() == 4 && key[0] == 0x73 && key[1] == 0x69 && key[2] == 0x7a && key[3] == 0x65;
    proof {
        if is {
            assert(key@ =~= SIZE_KEY@);
        }
    }
    is
}

/// The size that the records of an extended header state.
pub fn size_in(records: &Vec<PaxRecord>) -> (size: Option<u64>)
    ensures
        size == stated_size(record_models(records@)),
{
    let ghost models = record_models(records@);
    let mut i: usize = 0;
    assert(models.skip(0) =~= models);
    while i < records.len()
        invariant
            i <= records@.len(),
            models == record_models(records@),
            stated_size(models) == stated_size(models.skip(i as int)),
        decreases records@.len() - i,
    {
        assert(models.skip(i as int)[0] == models[i as int]);
        assert(models.skip(i as int).drop_first() =~= models.skip(i + 1));
        match &records[i] {
            Some((key, value)) => {
                if is_size_key(key.as_slice()) {
                    return number_in(value.as_slice());
                }
            },
            None => {
                return None;
            },
        }
        i += 1;
    }
    None
}

/// The size of what stands behind a header.
fn find_size(data: &[u8], pos: usize, pending: Pending) -> (size: Option<u64>)
    requires
        pos + BLOCK <= data@.len(),
        pending.pax matches Some((start, end)) ==> start <= end <= data@.len(),
    ensures
        size == size_at(data@, pos as int, pending),
{
    let end: usize = data.len();
    assert(pos + BLOCK <= end);
    let block = slice_subrange(data, pos, pos + BLOCK);
    match read_size(block) {
        Some(size) => {
            let kind: u8 = block[156];
            if kind == 0x4c || kind == 0x4b || kind == 0x78 || kind == 0x67 {
                return Some(size);
            }
            match pending.pax {
                Some((start, end)) => match size_in(
                    &read_pax_records(slice_subrange(data, start, end)),
                ) {
                    Some(stated) => Some(stated),
                    None => Some(size),
                },
                None => Some(size),
            }
        },
        None => None,
    }
}

/// Where the blocks that a sparse file goes on in lead to.
pub enum Further {
    Overflow(usize),
    CutOff,
    Next(u64),
}

/// Where the blocks that a sparse file goes on in lead to.
fn find_further(data: &[u8], start: usize, first: u64) -> (further: Further)
    requires
        start <= data@.len(),
    ensures
        match (further, extended(data@, start as int, first as int)) {
            (Further::Overflow(a), Extension::Overflow(b)) => a == b,
            (Further::CutOff, Extension::CutOff) => true,
            (Further::Next(a), Extension::Next(b)) => a == b,
            _ => false,
        },
{
    let end: usize = data.len();
    let mut at: usize = start;
    let mut next: u64 = first;
    while end - at >= BLOCK
        invariant
            at <= end == data@.len(),
            extended(data@, start as int, first as int) == extended(data@, at as int, next as int),
        decreases end - at,
    {
        if next > u64::MAX - BLOCK as u64 {
            return Further::Overflow(at);
        }
        next += BLOCK as u64;
        if data[at + 504] != 1 {
            return Further::Next(next);
        }
        at += BLOCK;
    }
    Further::CutOff
}

/// The place of the block which a reader cannot read without losing count, if it comes to one.
pub fn find_overflow(data: &[u8]) -> (overflow: Option<usize>)
    ensures
        match overflow {
            Some(at) => overflow_from(data@, 0, Pending::nothing()) == Some(at as int) && at
                < data@.len(),
            None => overflow_from(data@, 0, Pending::nothing()) is None,
        },
{
    let end: usize = data.len();
    let mut pos: usize = 0;
    let mut pending = Pending { long_name: false, long_link: false, pax: None };
    while end - pos >= BLOCK
        invariant
            pos <= end == data@.len(),
            pending.pax matches Some((start, stop)) ==> start <= stop <= data@.len(),
            overflow_from(data@, 0, Pending::nothing()) == overflow_from(
                data@,
                pos as int,
                pending,
            ),
        decreases end - pos,
    {
        let block = slice_subrange(data, pos, pos + BLOCK);
        assert(block@ == block_at(data@, pos as int));
        if is_blank_block(block) || !is_checked(block) {
            return None;
        }
        let size: u64 = match find_size(data, pos, pending) {
            Some(size) => size,
            None => {
                return None;
            },
        };
        let limit: u128 = u64::MAX as u128;
        let wide: u128 = size as u128;
        let next: u128 = pos as u128 + BLOCK as u128 + (wide + 511) / 512 * 512;
        assert(next == behind(pos as int, size));
        if wide + 511 > limit || next > limit {
            return None;
        }
        let kind: u8 = block[156];
        let gnu = bears(block, &GNU_MARK);
        let marked = gnu || bears(block, &USTAR_MARK);
        let inside = next <= end as u128;
        if kind == 0x4c && marked {
            if pending.long_name || !inside {
                return None;
            }
            pending = Pending { long_name: true, ..pending };
            pos = next as usize;
        } else if kind == 0x4b && marked {
            if pending.long_link || !inside {
                return None;
            }
            pending = Pending { long_link: true, ..pending };
            pos = next as usize;
        } else if kind == 0x78 && marked {
            if pending.pax.is_some() || !inside {
                return None;
            }
            let content = (pos + BLOCK, pos + BLOCK + size as usize);
            pending = Pending { pax: Some(content), ..pending };
            pos = next as usize;
        } else if kind == 0x53 && !gnu {
            return None;
        } else if kind == 0x53 && block[482] == 1 {
            proof {
                lemma_extended(data@, pos + BLOCK, next as int);
            }
            match find_further(data, pos + BLOCK, next as u64) {
                Further::Overflow(at) => {
                    return Some(at);
                },
                Further::CutOff => {
                    return None;
                },
                Further::Next(further) => {
                    if further as u128 > end as u128 {
                        return None;
                    }
                    pending = Pending { long_name: false, long_link: false, pax: None };
                    pos = further as usize;
                },
            }
        } else {
            if !inside {
                return None;
            }
            pending = Pending { long_name: false, long_link: false, pax: None };
            pos = next as usize;
        }
    }
    None
}

/// How much of an archive a reader can count in.
pub fn countable_length(data: &[u8]) -> (length: usize)
    ensures
        length <= data@.len(),
        data@.take(length as int) == countable(data@),
        !loses_count(countable(data@)),
        length < data@.len() <==> loses_count(data@),
{
    let mut length: usize = data.len();
    assert(data@.take(length as int) =~= data@);
    loop
        invariant
            length <= data@.len(),
            countable(data@) == countable(data@.take(length as int)),
            length == data@.len() || (loses_count(data@) && length < data@.len()),
        ensures
            length <= data@.len(),
            data@.take(length as int) == countable(data@),
            !loses_count(countable(data@)),
            length < data@.len() <==> loses_count(data@),
        decreases length,
    {
        let ghost whole = data@.take(length as int);
        assert(length == data@.len() ==> whole =~= data@);
        let part = slice_subrange(data, 0, length);
        assert(part@ =~= whole);
        match find_overflow(part) {
            Some(at) => {
                assert(whole.take(at as int) =~= data@.take(at as int));
                length = at;
            },
            None => {
                break;
            },
        }
    }
    length
}

} // verus!
