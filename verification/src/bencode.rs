//! The pieces that a reader of bencoded bytes meets, one after another, and the place where one
//! that goes down into every list and dictionary would have to stop.

use vstd::prelude::*;
use vstd::slice::slice_subrange;

verus! {

/// How many lists and dictionaries a reader can be inside of at once.
pub const MAX_DEPTH: usize = 128;

/// Whether a byte is a decimal digit.
pub open spec fn is_digit(byte: u8) -> bool {
    0x30 <= byte <= 0x39
}

/// Where a run of digits ends.
pub open spec fn digits_end(data: Seq<u8>, pos: int) -> int
    decreases data.len() - pos,
{
    if 0 <= pos < data.len() && is_digit(data[pos]) {
        digits_end(data, pos + 1)
    } else {
        pos
    }
}

/// The number that some digits write.
pub open spec fn digits_value(digits: Seq<u8>) -> nat
    decreases digits.len(),
{
    if digits.len() == 0 {
        0
    } else {
        digits_value(digits.drop_last()) * 10 + (digits.last() - 0x30) as nat
    }
}

/// Where the next `e` stands, or the end of the bytes.
pub open spec fn next_end(data: Seq<u8>, pos: int) -> int
    decreases data.len() - pos,
{
    if 0 <= pos < data.len() && data[pos] != 0x65 {
        next_end(data, pos + 1)
    } else {
        pos
    }
}

/// What begins at a place.
#[derive(Clone, Copy, Debug, PartialEq, Eq, Structural)]
pub enum Piece {
    /// A dictionary.
    Dict,
    /// A list.
    List,
    /// The end of one of them.
    Close,
    /// A number; what follows it stands at that place.
    Number(usize),
    /// A text, between the first place and the second, where what follows it stands.
    Text(usize, usize),
    /// A text whose end has no place at all.
    Uncountable,
    /// Nothing that can be read.
    Unknown,
}

/// What begins at a place: `d` and `l` open a dictionary and a list, `e` closes one, a number
/// stands between `i` and `e`, and a text behind its length and a colon.
pub open spec fn piece_at(data: Seq<u8>, pos: int) -> Piece {
    let byte = data[pos];
    let end = digits_end(data, pos);
    if byte == 0x64 {
        Piece::Dict
    } else if byte == 0x6c {
        Piece::List
    } else if byte == 0x65 {
        Piece::Close
    } else if byte == 0x69 {
        if next_end(data, pos) < data.len() {
            Piece::Number((next_end(data, pos) + 1) as usize)
        } else {
            Piece::Unknown
        }
    } else if is_digit(byte) && end < data.len() && data[end] == 0x3a {
        let length = digits_value(data.subrange(pos, end));
        if length > usize::MAX {
            Piece::Unknown
        } else if end - pos + 1 + length > usize::MAX {
            Piece::Uncountable
        } else if end + 1 + length <= data.len() {
            Piece::Text((end + 1) as usize, (end + 1 + length) as usize)
        } else {
            Piece::Unknown
        }
    } else {
        Piece::Unknown
    }
}

/// A list or a dictionary that a reader is inside of: in a dictionary, whether a key has been
/// read whose value is still to come, and where the last key that is a text stands.
#[derive(Clone, Copy, Debug, PartialEq, Eq, Structural)]
pub struct Level {
    pub is_dict: bool,
    pub has_key: bool,
    pub key_start: usize,
    pub key_end: usize,
}

impl Level {
    /// A list or a dictionary of which nothing has been read.
    pub open spec fn new(is_dict: bool) -> Level {
        Level { is_dict, has_key: false, key_start: 0, key_end: 0 }
    }

    /// The list or dictionary with one more value read; a text stands between these places.
    pub open spec fn with(self, start: usize, end: usize) -> Level {
        if !self.is_dict {
            self
        } else if self.has_key {
            Level { has_key: false, ..self }
        } else {
            Level { has_key: true, key_start: start, key_end: end, ..self }
        }
    }

    /// Whether the value of a key is to come or being read.
    pub open spec fn is_at(self, data: Seq<u8>, key: Seq<u8>) -> bool {
        &&& self.is_dict
        &&& self.has_key
        &&& self.key_start <= self.key_end <= data.len()
        &&& data.subrange(self.key_start as int, self.key_end as int) == key
    }
}

/// The key under which the lists of trackers stand.
pub const ANNOUNCE_LIST: [u8; 13] = [
    0x61, 0x6e, 0x6e, 0x6f, 0x75, 0x6e, 0x63, 0x65, 0x2d, 0x6c, 0x69, 0x73, 0x74,
];

/// The key under which the description of the files stands.
pub const INFO: [u8; 4] = [0x69, 0x6e, 0x66, 0x6f];

/// The key under which the list of files stands.
pub const FILES: [u8; 5] = [0x66, 0x69, 0x6c, 0x65, 0x73];

/// The key under which the parts of a path stand.
pub const PATH: [u8; 4] = [0x70, 0x61, 0x74, 0x68];

/// The key under which the parts of the target of a link stand.
pub const SYMLINK_PATH: [u8; 12] = [
    0x73, 0x79, 0x6d, 0x6c, 0x69, 0x6e, 0x6b, 0x20, 0x70, 0x61, 0x74, 0x68,
];

/// Whether a reader of torrent files that is inside of these lists and dictionaries expects a
/// list next: under the keys of the trackers, the files and the parts of a path, and for each
/// of the trackers.
pub open spec fn expects_list(data: Seq<u8>, levels: Seq<Level>) -> bool {
    ||| levels.len() == 1 && levels[0].is_at(data, ANNOUNCE_LIST@)
    ||| levels.len() == 2 && levels[0].is_at(data, ANNOUNCE_LIST@) && !levels[1].is_dict
    ||| levels.len() == 2 && levels[0].is_at(data, INFO@) && (levels[1].is_at(data, FILES@)
        || levels[1].is_at(data, SYMLINK_PATH@))
    ||| levels.len() == 4 && levels[0].is_at(data, INFO@) && levels[1].is_at(data, FILES@)
        && !levels[2].is_dict && (levels[3].is_at(data, PATH@) || levels[3].is_at(
        data,
        SYMLINK_PATH@,
    ))
}

/// The lists and dictionaries that a reader is inside of, with one more value read in the
/// innermost.
pub open spec fn after_value(levels: Seq<Level>, start: usize, end: usize) -> Seq<Level> {
    levels.drop_last().push(levels.last().with(start, end))
}

/// Where a reader of torrent files that stands at a place inside of these lists and
/// dictionaries would have to stop, if it ever has to: at the end of the bytes where it expects
/// a list, at a text whose end has no place, and at a list or dictionary that is too deep
/// inside. It goes from piece to piece, and no further than the end of the first value or
/// something that cannot be read.
pub open spec fn stop_from(data: Seq<u8>, pos: int, levels: Seq<Level>) -> Option<int>
    decreases data.len() - pos,
{
    if pos < 0 || pos >= data.len() {
        if expects_list(data, levels) {
            Some(pos)
        } else {
            None
        }
    } else {
        match piece_at(data, pos) {
            Piece::Dict | Piece::List => if levels.len() >= MAX_DEPTH {
                Some(pos)
            } else {
                stop_from(data, pos + 1, levels.push(Level::new(piece_at(data, pos) is Dict)))
            },
            Piece::Close => if levels.len() <= 1 {
                None
            } else {
                stop_from(data, pos + 1, after_value(levels.drop_last(), 0, 0))
            },
            Piece::Number(next) => if levels.len() == 0 || !(pos < next <= data.len()) {
                None
            } else {
                stop_from(data, next as int, after_value(levels, 0, 0))
            },
            Piece::Text(start, next) => if levels.len() == 0 || !(pos < next <= data.len()) {
                None
            } else {
                stop_from(data, next as int, after_value(levels, start, next))
            },
            Piece::Uncountable => Some(pos),
            Piece::Unknown => None,
        }
    }
}

/// Whether a reader of torrent files never has to stop.
pub open spec fn can_be_read(data: Seq<u8>) -> bool {
    stop_from(data, 0, Seq::empty()) is None
}

/// Bytes that can be read: the bytes themselves, or what stands before the place where a reader
/// would have to stop, with a byte behind it that begins nothing.
pub open spec fn readable_bytes(data: Seq<u8>) -> Seq<u8> {
    match stop_from(data, 0, Seq::empty()) {
        None => data,
        Some(pos) => data.take(pos).push(0),
    }
}

proof fn lemma_digits_end(data: Seq<u8>, pos: int)
    requires
        0 <= pos <= data.len(),
    ensures
        pos <= digits_end(data, pos) <= data.len(),
    decreases data.len() - pos,
{
    if pos < data.len() && is_digit(data[pos]) {
        lemma_digits_end(data, pos + 1);
    }
}

proof fn lemma_next_end(data: Seq<u8>, pos: int)
    requires
        0 <= pos <= data.len(),
    ensures
        pos <= next_end(data, pos) <= data.len(),
    decreases data.len() - pos,
{
    if pos < data.len() && data[pos] != 0x65 {
        lemma_next_end(data, pos + 1);
    }
}

/// What begins at the place of a digit.
fn text_piece(data: &[u8], pos: usize) -> (piece: Piece)
    requires
        pos < data@.len(),
        is_digit(data@[pos as int]),
    ensures
        piece == piece_at(data@, pos as int),
{
    let limit: u128 = usize::MAX as u128;
    let mut length: u128 = 0;
    let mut at: usize = pos;
    assert(data@.subrange(pos as int, pos as int) =~= Seq::<u8>::empty());
    while at < data.len() && data[at] >= 0x30 && data[at] <= 0x39
        invariant
            pos <= at <= data@.len(),
            limit == usize::MAX,
            digits_end(data@, pos as int) == digits_end(data@, at as int),
            length <= limit ==> length == digits_value(data@.subrange(pos as int, at as int)),
            length > limit ==> digits_value(data@.subrange(pos as int, at as int)) > limit,
        decreases data@.len() - at,
    {
        proof {
            let longer = data@.subrange(pos as int, at + 1);
            assert(longer.drop_last() =~= data@.subrange(pos as int, at as int));
            assert(longer.last() == data@[at as int]);
        }
        if length <= limit {
            length = length * 10 + (data[at] - 0x30) as u128;
        }
        at += 1;
    }
    if at == data.len() || data[at] != 0x3a {
        return Piece::Unknown;
    }
    if length > limit {
        Piece::Unknown
    } else if (at - pos) as u128 + 1 + length > limit {
        Piece::Uncountable
    } else if length <= (data.len() - at - 1) as u128 {
        Piece::Text(at + 1, at + 1 + length as usize)
    } else {
        Piece::Unknown
    }
}

/// What begins at the place of an `i`.
fn number_piece(data: &[u8], pos: usize) -> (piece: Piece)
    requires
        pos < data@.len(),
        data@[pos as int] == 0x69,
    ensures
        piece == piece_at(data@, pos as int),
{
    let mut at: usize = pos;
    while at < data.len() && data[at] != 0x65
        invariant
            pos <= at <= data@.len(),
            next_end(data@, pos as int) == next_end(data@, at as int),
        decreases data@.len() - at,
    {
        at += 1;
    }
    if at < data.len() {
        Piece::Number(at + 1)
    } else {
        Piece::Unknown
    }
}

/// What begins at a place.
pub fn find_piece(data: &[u8], pos: usize) -> (piece: Piece)
    requires
        pos < data@.len(),
    ensures
        piece == piece_at(data@, pos as int),
{
    let byte: u8 = data[pos];
    if byte == 0x64 {
        Piece::Dict
    } else if byte == 0x6c {
        Piece::List
    } else if byte == 0x65 {
        Piece::Close
    } else if byte == 0x69 {
        number_piece(data, pos)
    } else if byte >= 0x30 && byte <= 0x39 {
        text_piece(data, pos)
    } else {
        Piece::Unknown
    }
}

/// What follows a number or a text stands behind it, inside the bytes or at their end.
proof fn lemma_next_piece(data: Seq<u8>, pos: int)
    requires
        0 <= pos < data.len() <= usize::MAX,
    ensures
        piece_at(data, pos) matches Piece::Number(next) ==> pos < next <= data.len(),
        piece_at(data, pos) matches Piece::Text(start, next) ==> pos < start <= next <= data.len(),
{
    lemma_next_end(data, pos);
    lemma_digits_end(data, pos);
}

/// Whether the value of a key is to come or being read.
fn is_level_at(level: &Level, data: &[u8], key: &[u8]) -> (at: bool)
    ensures
        at == level.is_at(data@, key@),
{
    let (start, end) = (level.key_start, level.key_end);
    if !level.is_dict || !level.has_key || start > end || end > data.len() || end - start
        != key.len() {
        return false;
    }
    let mut i: usize = 0;
    while i < key.len()
        invariant
            i <= key@.len(),
            start == level.key_start,
            end == level.key_end,
            end - start == key@.len(),
            start <= end <= data@.len(),
            forall|k: int| 0 <= k < i ==> data@[start + k] == #[trigger] key@[k],
        decreases key@.len() - i,
    {
        if data[start + i] != key[i] {
            assert(data@.subrange(start as int, end as int)[i as int] != key@[i as int]);
            return false;
        }
        i += 1;
    }
    assert(data@.subrange(start as int, end as int) =~= key@);
    true
}

/// Whether a reader of torrent files that is inside of these lists and dictionaries expects a
/// list next.
fn is_list_expected(data: &[u8], levels: &Vec<Level>) -> (expected: bool)
    ensures
        expected == expects_list(data@, levels@),
{
    if levels.len() == 1 {
        is_level_at(&levels[0], data, &ANNOUNCE_LIST)
    } else if levels.len() == 2 {
        (is_level_at(&levels[0], data, &ANNOUNCE_LIST) && !levels[1].is_dict) || (is_level_at(
            &levels[0],
            data,
            &INFO,
        ) && (is_level_at(&levels[1], data, &FILES) || is_level_at(&levels[1], data, &SYMLINK_PATH)))
    } else if levels.len() == 4 {
        is_level_at(&levels[0], data, &INFO) && is_level_at(&levels[1], data, &FILES)
            && !levels[2].is_dict && (is_level_at(&levels[3], data, &PATH) || is_level_at(
            &levels[3],
            data,
            &SYMLINK_PATH,
        ))
    } else {
        false
    }
}

/// Notes that one more value has been read in the innermost list or dictionary.
fn note_value(levels: &mut Vec<Level>, start: usize, end: usize)
    requires
        old(levels)@.len() > 0,
    ensures
        final(levels)@ == after_value(old(levels)@, start, end),
{
    let last: usize = levels.len() - 1;
    let top = levels[last];
    let noted = if !top.is_dict {
        top
    } else if top.has_key {
        Level { has_key: false, ..top }
    } else {
        Level { has_key: true, key_start: start, key_end: end, ..top }
    };
    levels.set(last, noted);
    assert(levels@ =~= after_value(old(levels)@, start, end));
}

/// Where a reader of torrent files would have to stop, if it ever has to.
pub fn find_stop(data: &[u8]) -> (stop: Option<usize>)
    ensures
        match stop {
            Some(pos) => stop_from(data@, 0, Seq::empty()) == Some(pos as int) && pos
                <= data@.len(),
            None => stop_from(data@, 0, Seq::empty()) is None,
        },
{
    let end: usize = data.len();
    let mut pos: usize = 0;
    let mut levels: Vec<Level> = Vec::new();
    assert(levels@ =~= Seq::<Level>::empty());
    while pos < end
        invariant
            end == data@.len(),
            pos <= end,
            stop_from(data@, 0, Seq::empty()) == stop_from(data@, pos as int, levels@),
        decreases end - pos,
    {
        proof {
            lemma_next_piece(data@, pos as int);
        }
        match find_piece(data, pos) {
            Piece::Dict => {
                if levels.len() >= MAX_DEPTH {
                    return Some(pos);
                }
                levels.push(Level { is_dict: true, has_key: false, key_start: 0, key_end: 0 });
                pos += 1;
            },
            Piece::List => {
                if levels.len() >= MAX_DEPTH {
                    return Some(pos);
                }
                levels.push(Level { is_dict: false, has_key: false, key_start: 0, key_end: 0 });
                pos += 1;
            },
            Piece::Close => {
                if levels.len() <= 1 {
                    return None;
                }
                let ghost before = levels@;
                levels.pop();
                assert(levels@ =~= before.drop_last());
                note_value(&mut levels, 0, 0);
                pos += 1;
            },
            Piece::Number(next) => {
                if levels.len() == 0 {
                    return None;
                }
                note_value(&mut levels, 0, 0);
                pos = next;
            },
            Piece::Text(start, next) => {
                if levels.len() == 0 {
                    return None;
                }
                note_value(&mut levels, start, next);
                pos = next;
            },
            Piece::Uncountable => {
                return Some(pos);
            },
            Piece::Unknown => {
                return None;
            },
        }
    }
    if is_list_expected(data, &levels) {
        Some(pos)
    } else {
        None
    }
}

proof fn lemma_same_digits_end(data: Seq<u8>, other: Seq<u8>, pos: int, limit: int)
    requires
        0 <= pos,
        limit <= data.len(),
        limit <= other.len(),
        forall|i: int| 0 <= i < limit ==> data[i] == other[i],
        digits_end(data, pos) < limit,
    ensures
        digits_end(other, pos) == digits_end(data, pos),
    decreases limit - pos,
{
    lemma_digits_end_is_behind(data, pos);
    if pos < limit && is_digit(data[pos]) {
        lemma_same_digits_end(data, other, pos + 1, limit);
    }
}

proof fn lemma_digits_end_is_behind(data: Seq<u8>, pos: int)
    ensures
        pos <= digits_end(data, pos),
    decreases data.len() - pos,
{
    if 0 <= pos < data.len() && is_digit(data[pos]) {
        lemma_digits_end_is_behind(data, pos + 1);
    }
}

proof fn lemma_same_next_end(data: Seq<u8>, other: Seq<u8>, pos: int, limit: int)
    requires
        0 <= pos <= data.len(),
        limit <= data.len(),
        limit <= other.len(),
        forall|i: int| 0 <= i < limit ==> data[i] == other[i],
        next_end(data, pos) < limit,
    ensures
        next_end(other, pos) == next_end(data, pos),
    decreases limit - pos,
{
    lemma_next_end(data, pos);
    if data[pos] != 0x65 {
        lemma_same_next_end(data, other, pos + 1, limit);
    }
}

/// A piece is the same in bytes that are the same up to its end.
proof fn lemma_same_piece(data: Seq<u8>, other: Seq<u8>, pos: int, limit: int)
    requires
        0 <= pos < limit <= data.len() <= usize::MAX,
        limit <= other.len(),
        forall|i: int| 0 <= i < limit ==> data[i] == other[i],
        match piece_at(data, pos) {
            Piece::Dict | Piece::List | Piece::Close => true,
            Piece::Number(next) => next <= limit,
            Piece::Text(_, next) => next <= limit,
            _ => false,
        },
    ensures
        piece_at(other, pos) == piece_at(data, pos),
{
    lemma_next_piece(data, pos);
    match piece_at(data, pos) {
        Piece::Number(next) => {
            lemma_next_end(data, pos);
            lemma_same_next_end(data, other, pos, limit);
        },
        Piece::Text(start, next) => {
            lemma_digits_end(data, pos);
            lemma_same_digits_end(data, other, pos, limit);
            let end = digits_end(data, pos);
            assert(other.subrange(pos, end) =~= data.subrange(pos, end));
        },
        _ => {},
    }
}

proof fn lemma_stop_is_ahead(data: Seq<u8>, pos: int, levels: Seq<Level>)
    requires
        0 <= pos <= data.len() <= usize::MAX,
    ensures
        stop_from(data, pos, levels) matches Some(stop) ==> pos <= stop <= data.len(),
    decreases data.len() - pos,
{
    if pos < data.len() {
        lemma_next_piece(data, pos);
        match piece_at(data, pos) {
            Piece::Dict | Piece::List => {
                if levels.len() < MAX_DEPTH {
                    lemma_stop_is_ahead(
                        data,
                        pos + 1,
                        levels.push(Level::new(piece_at(data, pos) is Dict)),
                    );
                }
            },
            Piece::Close => {
                if levels.len() > 1 {
                    lemma_stop_is_ahead(data, pos + 1, after_value(levels.drop_last(), 0, 0));
                }
            },
            Piece::Number(next) => {
                if levels.len() > 0 {
                    lemma_stop_is_ahead(data, next as int, after_value(levels, 0, 0));
                }
            },
            Piece::Text(start, next) => {
                if levels.len() > 0 {
                    lemma_stop_is_ahead(data, next as int, after_value(levels, start, next));
                }
            },
            _ => {},
        }
    }
}

proof fn lemma_no_stop_before(data: Seq<u8>, pos: int, levels: Seq<Level>, stop: int)
    requires
        0 <= pos <= stop <= data.len() <= usize::MAX,
        stop_from(data, pos, levels) == Some(stop),
    ensures
        stop_from(data.take(stop).push(0), pos, levels) is None,
    decreases stop - pos,
{
    let other = data.take(stop).push(0);
    if pos == stop {
        assert(other[pos] == 0);
        assert(piece_at(other, pos) is Unknown);
    } else {
        lemma_next_piece(data, pos);
        assert forall|i: int| 0 <= i < stop implies data[i] == other[i] by {}
        match piece_at(data, pos) {
            Piece::Dict | Piece::List => {
                let inside = levels.push(Level::new(piece_at(data, pos) is Dict));
                lemma_same_piece(data, other, pos, stop);
                lemma_no_stop_before(data, pos + 1, inside, stop);
            },
            Piece::Close => {
                lemma_same_piece(data, other, pos, stop);
                lemma_no_stop_before(data, pos + 1, after_value(levels.drop_last(), 0, 0), stop);
            },
            Piece::Number(next) => {
                lemma_stop_is_ahead(data, next as int, after_value(levels, 0, 0));
                lemma_same_piece(data, other, pos, stop);
                lemma_no_stop_before(data, next as int, after_value(levels, 0, 0), stop);
            },
            Piece::Text(start, next) => {
                lemma_stop_is_ahead(data, next as int, after_value(levels, start, next));
                lemma_same_piece(data, other, pos, stop);
                lemma_no_stop_before(data, next as int, after_value(levels, start, next), stop);
            },
            _ => {},
        }
    }
}

/// What is made readable can be read.
pub proof fn readable_bytes_can_be_read(data: Seq<u8>)
    requires
        data.len() <= usize::MAX,
    ensures
        can_be_read(readable_bytes(data)),
{
    match stop_from(data, 0, Seq::empty()) {
        None => {},
        Some(stop) => {
            lemma_stop_is_ahead(data, 0, Seq::empty());
            lemma_no_stop_before(data, 0, Seq::empty(), stop);
        },
    }
}

/// What stands before the place where a reader would have to stop, with a byte behind it that
/// begins nothing.
pub fn stopped_at(data: &[u8], stop: usize) -> (bytes: Vec<u8>)
    requires
        stop <= data@.len(),
    ensures
        bytes@ == data@.take(stop as int).push(0),
{
    let mut bytes: Vec<u8> = Vec::new();
    bytes.extend_from_slice(slice_subrange(data, 0, stop));
    bytes.push(0);
    assert(bytes@ =~= data@.take(stop as int).push(0));
    bytes
}

/// The digits of an integer: a sign in front of them does not count.
pub open spec fn unsigned(text: Seq<u8>) -> Seq<u8> {
    if text.len() > 0 && (text[0] == 0x2b || text[0] == 0x2d) {
        text.drop_first()
    } else {
        text
    }
}

/// Whether a text is an integer of 64 bits.
pub open spec fn is_integer(text: Seq<u8>) -> bool {
    let digits = unsigned(text);
    &&& digits.len() > 0
    &&& forall|i: int| 0 <= i < digits.len() ==> is_digit(#[trigger] digits[i])
    &&& digits_value(digits) <= if text[0] == 0x2d {
        i64::MAX + 1
    } else {
        i64::MAX as int
    }
}

impl Level {
    /// Whether a key is to come.
    pub open spec fn wants_key(self) -> bool {
        self.is_dict && !self.has_key
    }
}

/// Where the outermost of some lists and dictionaries ends, if all that follows up to there is
/// sound: numbers are integers of 64 bits, keys are texts, and every key has a value.
pub open spec fn sound_end(data: Seq<u8>, pos: int, levels: Seq<Level>) -> Option<int>
    decreases data.len() - pos,
{
    if pos < 0 || pos >= data.len() || levels.len() == 0 {
        None
    } else {
        match piece_at(data, pos) {
            Piece::Dict | Piece::List => if levels.last().wants_key() {
                None
            } else {
                sound_end(data, pos + 1, levels.push(Level::new(piece_at(data, pos) is Dict)))
            },
            Piece::Close => if levels.last().is_dict && levels.last().has_key {
                None
            } else if levels.len() == 1 {
                Some(pos + 1)
            } else {
                sound_end(data, pos + 1, after_value(levels.drop_last(), 0, 0))
            },
            Piece::Number(next) => if !(pos < next <= data.len()) || levels.last().wants_key()
                || !is_integer(data.subrange(pos + 1, next - 1)) {
                None
            } else {
                sound_end(data, next as int, after_value(levels, 0, 0))
            },
            Piece::Text(start, next) => if !(pos < next <= data.len()) {
                None
            } else {
                sound_end(data, next as int, after_value(levels, start, next))
            },
            _ => None,
        }
    }
}

/// What is left of some bytes from a place on, when every sound list or dictionary that is too
/// deep inside, and is no key, is replaced by an empty text.
pub open spec fn flattened_from(data: Seq<u8>, pos: int, levels: Seq<Level>) -> Seq<u8>
    decreases data.len() - pos,
{
    if pos < 0 || pos >= data.len() {
        Seq::empty()
    } else {
        let piece = piece_at(data, pos);
        match piece {
            Piece::Dict | Piece::List => if levels.len() >= MAX_DEPTH {
                match sound_end(data, pos + 1, seq![Level::new(piece is Dict)]) {
                    Some(end) if pos < end <= data.len() && !levels.last().wants_key() => seq![
                        0x30u8,
                        0x3au8,
                    ] + flattened_from(data, end, after_value(levels, 0, 0)),
                    _ => data.skip(pos),
                }
            } else {
                seq![data[pos]] + flattened_from(
                    data,
                    pos + 1,
                    levels.push(Level::new(piece is Dict)),
                )
            },
            Piece::Close => if levels.len() <= 1 {
                data.skip(pos)
            } else {
                seq![data[pos]] + flattened_from(
                    data,
                    pos + 1,
                    after_value(levels.drop_last(), 0, 0),
                )
            },
            Piece::Number(next) => if levels.len() == 0 || !(pos < next <= data.len()) {
                data.skip(pos)
            } else {
                data.subrange(pos, next as int) + flattened_from(
                    data,
                    next as int,
                    after_value(levels, 0, 0),
                )
            },
            Piece::Text(start, next) => if levels.len() == 0 || !(pos < next <= data.len()) {
                data.skip(pos)
            } else {
                data.subrange(pos, next as int) + flattened_from(
                    data,
                    next as int,
                    after_value(levels, start, next),
                )
            },
            _ => data.skip(pos),
        }
    }
}

/// Some bytes with every sound list or dictionary that is too deep inside, and is no key,
/// replaced by an empty text.
pub open spec fn flattened(data: Seq<u8>) -> Seq<u8> {
    flattened_from(data, 0, Seq::empty())
}

/// Whether a part of some bytes is an integer of 64 bits.
fn is_integer_between(data: &[u8], start: usize, end: usize) -> (is: bool)
    requires
        start <= end <= data@.len(),
    ensures
        is == is_integer(data@.subrange(start as int, end as int)),
{
    let ghost text = data@.subrange(start as int, end as int);
    let ghost digits = unsigned(text);
    if start == end {
        return false;
    }
    let first: u8 = data[start];
    assert(text[0] == first);
    let from: usize = if first == 0x2b || first == 0x2d {
        start + 1
    } else {
        start
    };
    assert(digits =~= data@.subrange(from as int, end as int));
    if from == end {
        return false;
    }
    let limit: u128 = if first == 0x2d {
        i64::MAX as u128 + 1
    } else {
        i64::MAX as u128
    };
    let mut number: u128 = 0;
    let mut i: usize = from;
    assert(digits.take(0) =~= Seq::<u8>::empty());
    while i < end
        invariant
            start <= from <= i <= end <= data@.len(),
            limit <= i64::MAX + 1,
            text == data@.subrange(start as int, end as int),
            digits == unsigned(text),
            digits == data@.subrange(from as int, end as int),
            forall|k: int| 0 <= k < i - from ==> is_digit(#[trigger] digits[k]),
            number <= limit ==> number == digits_value(digits.take(i - from)),
            number > limit ==> digits_value(digits.take(i - from)) > limit,
        decreases end - i,
    {
        let byte: u8 = data[i];
        assert(byte == digits[i - from]);
        if byte < 0x30 || byte > 0x39 {
            assert(!is_digit(digits[i - from]));
            return false;
        }
        assert(digits.take(i + 1 - from).drop_last() =~= digits.take(i - from));
        if number <= limit {
            number = number * 10 + (byte - 0x30) as u128;
        }
        i += 1;
    }
    assert(digits.take(i - from) =~= digits);
    number <= limit
}

/// Where a list or dictionary ends whose inside begins at a place, if it is sound.
fn find_sound_end(data: &[u8], start: usize, is_dict: bool) -> (end: Option<usize>)
    requires
        start <= data@.len(),
    ensures
        match end {
            Some(e) => sound_end(data@, start as int, seq![Level::new(is_dict)]) == Some(e as int)
                && start < e <= data@.len(),
            None => sound_end(data@, start as int, seq![Level::new(is_dict)]) is None,
        },
{
    let length: usize = data.len();
    let mut pos: usize = start;
    let mut levels: Vec<Level> = Vec::new();
    levels.push(Level { is_dict, has_key: false, key_start: 0, key_end: 0 });
    assert(levels@ =~= seq![Level::new(is_dict)]);
    while pos < length
        invariant
            length == data@.len(),
            start <= pos <= length,
            levels@.len() > 0,
            sound_end(data@, start as int, seq![Level::new(is_dict)]) == sound_end(
                data@,
                pos as int,
                levels@,
            ),
        decreases length - pos,
    {
        proof {
            lemma_next_piece(data@, pos as int);
        }
        let top = levels[levels.len() - 1];
        let wants_key = top.is_dict && !top.has_key;
        match find_piece(data, pos) {
            Piece::Dict => {
                if wants_key {
                    return None;
                }
                levels.push(Level { is_dict: true, has_key: false, key_start: 0, key_end: 0 });
                pos += 1;
            },
            Piece::List => {
                if wants_key {
                    return None;
                }
                levels.push(Level { is_dict: false, has_key: false, key_start: 0, key_end: 0 });
                pos += 1;
            },
            Piece::Close => {
                if top.is_dict && top.has_key {
                    return None;
                }
                if levels.len() == 1 {
                    return Some(pos + 1);
                }
                let ghost before = levels@;
                levels.pop();
                assert(levels@ =~= before.drop_last());
                note_value(&mut levels, 0, 0);
                pos += 1;
            },
            Piece::Number(next) => {
                assert(next - 1 > pos) by {
                    assert(data@[pos as int] == 0x69);
                    lemma_next_end(data@, pos + 1);
                }
                if wants_key || !is_integer_between(data, pos + 1, next - 1) {
                    return None;
                }
                note_value(&mut levels, 0, 0);
                pos = next;
            },
            Piece::Text(begin, next) => {
                note_value(&mut levels, begin, next);
                pos = next;
            },
            _ => {
                return None;
            },
        }
    }
    None
}

/// Adds the bytes between two places.
fn take_over(flat: &mut Vec<u8>, data: &[u8], start: usize, end: usize)
    requires
        start <= end <= data@.len(),
    ensures
        final(flat)@ == old(flat)@ + data@.subrange(start as int, end as int),
{
    flat.extend_from_slice(slice_subrange(data, start, end));
    assert(flat@ =~= old(flat)@ + data@.subrange(start as int, end as int));
}

/// Some bytes with every sound list or dictionary that is too deep inside, and is no key,
/// replaced by an empty text.
pub fn flatten(data: &[u8]) -> (flat: Vec<u8>)
    ensures
        flat@ == flattened(data@),
{
    let end: usize = data.len();
    let mut flat: Vec<u8> = Vec::new();
    let mut pos: usize = 0;
    let mut levels: Vec<Level> = Vec::new();
    assert(levels@ =~= Seq::<Level>::empty());
    assert(flat@ + flattened(data@) =~= flattened(data@));
    while pos < end
        invariant
            end == data@.len(),
            pos <= end,
            flattened(data@) == flat@ + flattened_from(data@, pos as int, levels@),
        decreases end - pos,
    {
        let ghost before = flat@;
        let ghost rest = data@.skip(pos as int);
        proof {
            lemma_next_piece(data@, pos as int);
            assert(rest =~= data@.subrange(pos as int, end as int));
        }
        let piece = find_piece(data, pos);
        let next: usize = match piece {
            Piece::Dict | Piece::List => {
                let is_dict = matches!(piece, Piece::Dict);
                if levels.len() >= MAX_DEPTH {
                    let top = levels[levels.len() - 1];
                    match find_sound_end(data, pos + 1, is_dict) {
                        Some(sound) if !(top.is_dict && !top.has_key) => {
                            flat.push(0x30);
                            flat.push(0x3a);
                            note_value(&mut levels, 0, 0);
                            pos = sound;
                            assert(flat@ =~= before + seq![0x30u8, 0x3au8]);
                            assert(flattened(data@) =~= flat@ + flattened_from(
                                data@,
                                pos as int,
                                levels@,
                            ));
                            continue;
                        },
                        _ => {
                            take_over(&mut flat, data, pos, end);
                            return flat;
                        },
                    }
                }
                levels.push(Level { is_dict, has_key: false, key_start: 0, key_end: 0 });
                pos + 1
            },
            Piece::Close => {
                if levels.len() <= 1 {
                    take_over(&mut flat, data, pos, end);
                    return flat;
                }
                let ghost inside = levels@;
                levels.pop();
                assert(levels@ =~= inside.drop_last());
                note_value(&mut levels, 0, 0);
                pos + 1
            },
            Piece::Number(next) => {
                if levels.len() == 0 {
                    take_over(&mut flat, data, pos, end);
                    return flat;
                }
                note_value(&mut levels, 0, 0);
                next
            },
            Piece::Text(start, next) => {
                if levels.len() == 0 {
                    take_over(&mut flat, data, pos, end);
                    return flat;
                }
                note_value(&mut levels, start, next);
                next
            },
            _ => {
                take_over(&mut flat, data, pos, end);
                return flat;
            },
        };
        take_over(&mut flat, data, pos, next);
        proof {
            let taken = data@.subrange(pos as int, next as int);
            if next == pos + 1 {
                assert(taken =~= seq![data@[pos as int]]);
            }
            assert(flattened(data@) =~= flat@ + flattened_from(data@, next as int, levels@));
        }
        pos = next;
    }
    assert(flat@ + Seq::<u8>::empty() =~= flat@);
    flat
}

proof fn lemma_not_flattened(data: Seq<u8>, pos: int, levels: Seq<Level>)
    requires
        0 <= pos <= data.len() <= usize::MAX,
        stop_from(data, pos, levels) is None,
    ensures
        flattened_from(data, pos, levels) == data.skip(pos),
    decreases data.len() - pos,
{
    if pos < data.len() {
        lemma_next_piece(data, pos);
        let piece = piece_at(data, pos);
        match piece {
            Piece::Dict | Piece::List => {
                lemma_not_flattened(data, pos + 1, levels.push(Level::new(piece is Dict)));
                assert(seq![data[pos]] + data.skip(pos + 1) =~= data.skip(pos));
            },
            Piece::Close => {
                if levels.len() > 1 {
                    lemma_not_flattened(data, pos + 1, after_value(levels.drop_last(), 0, 0));
                    assert(seq![data[pos]] + data.skip(pos + 1) =~= data.skip(pos));
                }
            },
            Piece::Number(next) => {
                if levels.len() > 0 {
                    lemma_not_flattened(data, next as int, after_value(levels, 0, 0));
                    assert(data.subrange(pos, next as int) + data.skip(next as int) =~= data.skip(
                        pos,
                    ));
                }
            },
            Piece::Text(start, next) => {
                if levels.len() > 0 {
                    lemma_not_flattened(data, next as int, after_value(levels, start, next));
                    assert(data.subrange(pos, next as int) + data.skip(next as int) =~= data.skip(
                        pos,
                    ));
                }
            },
            _ => {},
        }
    } else {
        assert(data.skip(pos) =~= Seq::<u8>::empty());
    }
}

/// Bytes that can be read are left as they are.
pub proof fn what_can_be_read_is_left_as_it_is(data: Seq<u8>)
    requires
        data.len() <= usize::MAX,
        can_be_read(data),
    ensures
        readable_bytes(flattened(data)) == data,
{
    lemma_not_flattened(data, 0, Seq::empty());
    assert(data.skip(0) =~= data);
}

} // verus!
