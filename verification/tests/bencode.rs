use virtualfs::bencode::{find_piece, find_stop, flatten, stopped_at, Piece, MAX_DEPTH};

#[test]
fn pieces_are_told_by_their_first_byte() {
    let data = b"d4:spami-3ele";
    assert_eq!(find_piece(data, 0), Piece::Dict);
    assert_eq!(find_piece(data, 1), Piece::Text(3, 7));
    assert_eq!(find_piece(data, 7), Piece::Number(11));
    assert_eq!(find_piece(data, 11), Piece::List);
    assert_eq!(find_piece(data, 12), Piece::Close);
    assert_eq!(find_piece(b"0004:spam", 0), Piece::Text(5, 9));
    assert_eq!(find_piece(b"18446744073709551615:", 0), Piece::Uncountable);
    for unknown in [
        &b"5:spam"[..],
        b"4spam",
        b"4",
        b"i12",
        b"x",
        b" 4:spam",
        b"340282366920938463463374607431768211456:x",
        b"9223372036854775807:",
    ] {
        assert_eq!(find_piece(unknown, 0), Piece::Unknown);
    }
}

#[test]
fn a_reader_stops_where_it_would_ask_nothing_for_a_list() {
    for data in [
        &b"d13:announce-list"[..],
        b"d13:announce-listl",
        b"d13:announce-listllee",
        b"d4:infod5:files",
        b"d4:infod12:symlink path",
        b"d4:infod5:filesld4:path",
        b"d4:infod5:filesld6:lengthi1e12:symlink path",
    ] {
        let expected = if data == b"d13:announce-listllee" { None } else { Some(data.len()) };
        assert_eq!(find_stop(data), expected);
    }
    assert_eq!(find_stop(b"d13:announce-listlle"), Some(20));
    assert_eq!(find_stop(b"d1:ad18446744073709551615:"), Some(5));
}

#[test]
fn a_reader_does_not_stop_where_it_is_refused_or_done() {
    for data in [
        &b""[..],
        b"de",
        b"d1:ali1eee",
        b"d",
        b"d8:announce",
        b"d1:al",
        b"d4:infod5:filesl",
        b"d4:infod5:filesld4:pathl",
        b"d1:xd5:files",
        b"dex",
        b"dx",
        b"e",
        b"i5e",
        b"d9:announce",
    ] {
        assert_eq!(find_stop(data), None);
    }
}

#[test]
fn a_stop_is_marked_with_a_byte_that_begins_nothing() {
    assert_eq!(stopped_at(b"d13:announce-list", 17), b"d13:announce-list\0");
    assert_eq!(stopped_at(b"dxyz", 1), b"d\0");
}

fn nested(n: usize, inside: &[u8]) -> Vec<u8> {
    [&vec![b'l'; n][..], inside, &vec![b'e'; n][..]].concat()
}

#[test]
fn what_lies_too_deep_inside_becomes_an_empty_text() {
    let limit = nested(MAX_DEPTH, b"");
    assert_eq!(flatten(&limit), limit);
    assert_eq!(find_stop(&limit), None);
    assert_eq!(flatten(&nested(MAX_DEPTH + 1, b"")), nested(MAX_DEPTH, b"0:"));
    assert_eq!(flatten(&nested(MAX_DEPTH, b"d1:ai-5ee3:xyzle")), nested(MAX_DEPTH, b"0:3:xyz0:"));
    assert_eq!(flatten(&nested(100_000, b"i1e")), nested(MAX_DEPTH, b"0:"));
}

#[test]
fn what_is_not_sound_stays_and_stops_a_reader() {
    for inside in [
        &b"d1:ae"[..],
        b"di1ei2ee",
        b"dle1:ae",
        b"lixee",
        b"li9223372036854775808ee",
        b"lie",
        b"l-e",
    ] {
        let data = nested(MAX_DEPTH, inside);
        assert_eq!(flatten(&data), data);
        assert_eq!(find_stop(&data), Some(MAX_DEPTH));
    }
    let data = nested(MAX_DEPTH, b"li-9223372036854775808ei+7ee");
    assert_eq!(flatten(&data), nested(MAX_DEPTH, b"0:"));
}
