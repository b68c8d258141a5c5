//! When the readers of archives and torrent files are handed the very bytes that are there.

use vstd::prelude::*;

use crate::bencode::{
    after_value, find_stop, flatten, flattened, flattened_from, piece_at, stop_from, Level,
    Piece,
};
use crate::tar_walk::{countable, loses_count, overflow_from, Pending};
use crate::torrent_rpc::{described, metainfo};

verus! {

/// How many of some bytes are the letters that open a list or a dictionary.
pub open spec fn openers(data: Seq<u8>) -> nat
    decreases data.len(),
{
    if data.len() == 0 {
        0
    } else {
        openers(data.drop_last()) + if data.last() == 0x64 || data.last() == 0x6c {
            1nat
        } else {
            0nat
        }
    }
}

proof fn lemma_openers_step(data: Seq<u8>, pos: int)
    requires
        0 <= pos < data.len(),
    ensures
        openers(data.take(pos + 1)) == openers(data.take(pos)) + if data[pos] == 0x64 || data[pos]
            == 0x6c {
            1nat
        } else {
            0nat
        },
{
    assert(data.take(pos + 1).drop_last() =~= data.take(pos));
    assert(data.take(pos + 1).last() == data[pos]);
}

proof fn lemma_openers_grow(data: Seq<u8>, from: int, to: int)
    requires
        0 <= from <= to <= data.len(),
    ensures
        openers(data.take(from)) <= openers(data.take(to)),
    decreases to - from,
{
    if from < to {
        lemma_openers_step(data, from);
        lemma_openers_grow(data, from + 1, to);
    }
}

proof fn lemma_stop_reason(data: Seq<u8>, pos: int, levels: Seq<Level>)
    requires
        0 <= pos <= data.len(),
        levels.len() <= openers(data.take(pos)),
    ensures
        stop_from(data, pos, levels) matches Some(stop) ==> {
            &&& pos <= stop <= data.len()
            &&& stop < data.len() ==> piece_at(data, stop) is Uncountable || ((data[stop] == 0x64
                || data[stop] == 0x6c) && openers(data.take(stop)) >= 128)
        },
    decreases data.len() - pos,
{
    if pos < data.len() {
        lemma_openers_step(data, pos);
        match piece_at(data, pos) {
            Piece::Dict | Piece::List => {
                assert(data[pos] == 0x64 || data[pos] == 0x6c);
                if levels.len() < 128 {
                    lemma_stop_reason(
                        data,
                        pos + 1,
                        levels.push(Level::new(piece_at(data, pos) is Dict)),
                    );
                }
            },
            Piece::Close => {
                if levels.len() > 1 {
                    lemma_stop_reason(data, pos + 1, after_value(levels.drop_last(), 0, 0));
                }
            },
            Piece::Number(next) => {
                if levels.len() > 0 && pos < next <= data.len() {
                    lemma_openers_grow(data, pos, next as int);
                    lemma_stop_reason(data, next as int, after_value(levels, 0, 0));
                }
            },
            Piece::Text(start, next) => {
                if levels.len() > 0 && pos < next <= data.len() {
                    lemma_openers_grow(data, pos, next as int);
                    lemma_stop_reason(data, next as int, after_value(levels, start, next));
                }
            },
            _ => {},
        }
    }
}

/// A reader of torrent files has to stop before the end of the bytes only at a text whose end has
/// no place, or at a list or a dictionary with as many others opened before it as a reader can be
/// inside of.
pub proof fn a_reader_stops_for_a_reason(data: &[u8], stop: Option<usize>)
    requires
        call_ensures(find_stop, (data,), stop),
    ensures
        stop matches Some(at) ==> at <= data@.len() && (at < data@.len() ==> piece_at(
            data@,
            at as int,
        ) is Uncountable || ((data@[at as int] == 0x64 || data@[at as int] == 0x6c) && openers(
            data@.take(at as int),
        ) >= 128)),
{
    lemma_stop_reason(data@, 0, Seq::empty());
}

proof fn lemma_shallow(data: Seq<u8>, pos: int, levels: Seq<Level>)
    requires
        0 <= pos <= data.len(),
        levels.len() <= openers(data.take(pos)),
        openers(data) <= 128,
    ensures
        flattened_from(data, pos, levels) == data.skip(pos),
    decreases data.len() - pos,
{
    if pos < data.len() {
        lemma_openers_step(data, pos);
        lemma_openers_grow(data, pos + 1, data.len() as int);
        assert(data.take(data.len() as int) =~= data);
        assert(seq![data[pos]] + data.skip(pos + 1) =~= data.skip(pos));
        match piece_at(data, pos) {
            Piece::Dict | Piece::List => {
                assert(levels.len() < 128);
                lemma_shallow(
                    data,
                    pos + 1,
                    levels.push(Level::new(piece_at(data, pos) is Dict)),
                );
            },
            Piece::Close => {
                if levels.len() > 1 {
                    lemma_shallow(data, pos + 1, after_value(levels.drop_last(), 0, 0));
                }
            },
            Piece::Number(next) => {
                if levels.len() > 0 && pos < next <= data.len() {
                    lemma_openers_grow(data, pos, next as int);
                    lemma_shallow(data, next as int, after_value(levels, 0, 0));
                    assert(data.subrange(pos, next as int) + data.skip(next as int) =~= data.skip(
                        pos,
                    ));
                }
            },
            Piece::Text(start, next) => {
                if levels.len() > 0 && pos < next <= data.len() {
                    lemma_openers_grow(data, pos, next as int);
                    lemma_shallow(data, next as int, after_value(levels, start, next));
                    assert(data.subrange(pos, next as int) + data.skip(next as int) =~= data.skip(
                        pos,
                    ));
                }
            },
            _ => {},
        }
    } else {
        assert(data.skip(pos) =~= Seq::<u8>::empty());
    }
}

/// Bytes that open no more lists and dictionaries than a reader can be inside of are handed to it
/// unchanged.
pub proof fn shallow_bytes_are_left_as_they_are(data: &[u8], flat: Vec<u8>)
    requires
        call_ensures(flatten, (data,), flat),
        openers(data@) <= 128,
    ensures
        flat@ == data@,
{
    lemma_shallow(data@, 0, Seq::empty());
    assert(data@.skip(0) =~= data@);
}

/// A torrent file that opens no more lists and dictionaries than a reader can be inside of is read
/// as it stands, but for the end: unless a text in it has an end without a place, a reader is
/// handed all of its bytes, or all of them and one more that begins nothing.
pub proof fn a_shallow_torrent_file_is_read_as_it_stands(data: Seq<u8>)
    requires
        openers(data) <= 128,
        forall|i: int| 0 <= i < data.len() ==> !(piece_at(data, i) is Uncountable),
    ensures
        described(data) == metainfo(data) || described(data) == metainfo(data.push(0)),
{
    lemma_shallow(data, 0, Seq::empty());
    assert(data.skip(0) =~= data);
    assert(flattened(data) == data);
    lemma_stop_reason(data, 0, Seq::empty());
    if let Some(stop) = stop_from(data, 0, Seq::empty()) {
        if stop < data.len() {
            lemma_openers_step(data, stop);
            lemma_openers_grow(data, stop + 1, data.len() as int);
            assert(data.take(data.len() as int) =~= data);
            assert(openers(data) >= 129);
        }
        assert(data.take(stop) =~= data);
    }
}

/// Whether a block of a tar archive is the header of a sparse file that goes on in further blocks.
pub open spec fn is_long_sparse_header(data: Seq<u8>, pos: int) -> bool {
    0 <= pos && pos + 512 <= data.len() && data[pos + 156] == 0x53 && data[pos + 482] == 1
}

proof fn lemma_overflow_reason(data: Seq<u8>, pos: int, pending: Pending)
    requires
        0 <= pos,
        overflow_from(data, pos, pending) is Some,
    ensures
        exists|p: int| #[trigger] is_long_sparse_header(data, p),
    decreases data.len() - pos,
{
    let block = crate::tar_walk::block_at(data, pos);
    let size = crate::tar_walk::size_at(data, pos, pending)->Some_0;
    let next = crate::tar_walk::behind(pos, size);
    let kind = block[156];
    assert(block[156] == data[pos + 156]);
    assert(block[482] == data[pos + 482]);
    if kind == 0x4c && crate::tar_walk::is_marked(block) {
        lemma_overflow_reason(data, next, Pending { long_name: true, ..pending });
    } else if kind == 0x4b && crate::tar_walk::is_marked(block) {
        lemma_overflow_reason(data, next, Pending { long_link: true, ..pending });
    } else if kind == 0x78 && crate::tar_walk::is_marked(block) {
        let content = ((pos + 512) as usize, (pos + 512 + size) as usize);
        lemma_overflow_reason(data, next, Pending { pax: Some(content), ..pending });
    } else if kind == 0x53 && block[482] == 1 {
        assert(is_long_sparse_header(data, pos));
    } else {
        lemma_overflow_reason(data, next, Pending::nothing());
    }
}

/// A reader of tar archives loses count only behind a sparse file that goes on in further blocks:
/// any other archive is read as a whole.
pub proof fn only_sparse_files_make_a_reader_lose_count(data: Seq<u8>)
    requires
        forall|p: int| !#[trigger] is_long_sparse_header(data, p),
    ensures
        !loses_count(data),
        countable(data) == data,
{
    if loses_count(data) {
        lemma_overflow_reason(data, 0, Pending::nothing());
    }
}

/// The part of a tar archive in which a reader does not lose count is its beginning.
pub proof fn the_countable_part_is_the_beginning(data: Seq<u8>)
    ensures
        countable(data).is_prefix_of(data),
        !loses_count(data) ==> countable(data) == data,
    decreases data.len(),
{
    match overflow_from(data, 0, Pending::nothing()) {
        None => {
            assert(data.subrange(0, data.len() as int) =~= data);
        },
        Some(at) => {
            if 0 <= at < data.len() {
                the_countable_part_is_the_beginning(data.take(at));
                let part = countable(data.take(at));
                assert(part =~= data.subrange(0, part.len() as int)) by {
                    assert(part == data.take(at).subrange(0, part.len() as int));
                }
            } else {
                assert(data.subrange(0, data.len() as int) =~= data);
            }
        },
    }
}

} // verus!
