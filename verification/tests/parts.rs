use fumen::alphabet::{push_number, read_number};
use fumen::comment::{push_comment, push_packed, read_comment, read_packed, unescape_chars};
use fumen::{
    decode_cell_color, from_base64, js_escape, js_unescape, to_base64, CellColor, DecodeError,
    Fumen, Page, Piece, PieceType, RotationState,
};

#[test]
fn alphabet_is_the_fixed_table() {
    let table = "ABCDEFGHIJKLMNOPQRSTUVWXYZabcdefghijklmnopqrstuvwxyz0123456789+/";
    for (value, symbol) in table.chars().enumerate() {
        assert_eq!(to_base64(value as u8) as char, symbol);
        assert_eq!(from_base64(symbol), Some(value));
    }
    assert_eq!(to_base64(0), b'A');
    assert_eq!(to_base64(26), b'a');
    assert_eq!(to_base64(52), b'0');
    assert_eq!(to_base64(62), b'+');
    assert_eq!(to_base64(63), b'/');
}

#[test]
fn characters_outside_the_alphabet_have_no_value() {
    for c in ['@', '-', '_', '=', ' ', '\n', '[', '`', '{', ':', '.', 'é', '\u{ff21}'] {
        assert_eq!(from_base64(c), None);
    }
}

#[test]
fn numbers_are_written_least_significant_digit_first() {
    let mut data = vec![9u8];
    push_number(&mut data, 37845, 3);
    assert_eq!(data, vec![9, 21, 15, 9]);
    assert_eq!(read_number(&data, 1, 3), 37845);
    let mut data = Vec::new();
    push_number(&mut data, 2159, 2);
    assert_eq!(data, vec![47, 33]);
    assert_eq!(read_number(&data, 0, 2), 2159);
    let mut data = Vec::new();
    push_number(&mut data, 84934655, 5);
    assert_eq!(data, vec![63, 63, 63, 3, 5]);
    assert_eq!(read_number(&data, 0, 5), 84934655);
    assert_eq!(read_number(&data, 0, 0), 0);
}

#[test]
fn colours_have_the_numbers_0_to_8() {
    let colours = [
        CellColor::Empty,
        CellColor::I,
        CellColor::L,
        CellColor::O,
        CellColor::Z,
        CellColor::T,
        CellColor::J,
        CellColor::S,
        CellColor::Grey,
    ];
    for (number, colour) in colours.iter().enumerate() {
        assert_eq!(decode_cell_color(number), Some(*colour));
        assert_eq!(colour.to_number(), number);
    }
    assert_eq!(decode_cell_color(9), None);
    assert_eq!(decode_cell_color(usize::MAX), None);
}

#[test]
fn kinds_and_rotations_have_their_numbers() {
    let kinds = [
        PieceType::I,
        PieceType::L,
        PieceType::O,
        PieceType::Z,
        PieceType::T,
        PieceType::J,
        PieceType::S,
    ];
    for (i, kind) in kinds.iter().enumerate() {
        assert_eq!(kind.to_number(), i as u32 + 1);
        assert_eq!(PieceType::from_number(i as u32 + 1), *kind);
        assert_eq!(CellColor::from(*kind).to_number(), i + 1);
    }
    let rotations =
        [RotationState::South, RotationState::East, RotationState::North, RotationState::West];
    for (i, rotation) in rotations.iter().enumerate() {
        assert_eq!(rotation.to_number(), i as u32);
        assert_eq!(RotationState::from_number(i as u32), *rotation);
    }
}

fn piece(kind: PieceType, rotation: RotationState, x: u32, y: u32) -> Piece {
    Piece { kind, rotation, x, y }
}

#[test]
fn cells_follow_the_rotation() {
    assert_eq!(piece(PieceType::T, RotationState::North, 5, 5).cells(), [(4, 5), (5, 5), (6, 5), (5, 6)]);
    assert_eq!(piece(PieceType::T, RotationState::East, 5, 5).cells(), [(5, 6), (5, 5), (5, 4), (6, 5)]);
    assert_eq!(piece(PieceType::T, RotationState::South, 5, 5).cells(), [(6, 5), (5, 5), (4, 5), (5, 4)]);
    assert_eq!(piece(PieceType::T, RotationState::West, 5, 5).cells(), [(5, 4), (5, 5), (5, 6), (4, 5)]);
    assert_eq!(piece(PieceType::I, RotationState::North, 1, 0).cells(), [(0, 0), (1, 0), (2, 0), (3, 0)]);
    assert_eq!(piece(PieceType::I, RotationState::West, 4, 1).cells(), [(4, 0), (4, 1), (4, 2), (4, 3)]);
    assert_eq!(piece(PieceType::O, RotationState::North, 0, 0).cells(), [(0, 0), (1, 0), (0, 1), (1, 1)]);
    assert_eq!(piece(PieceType::L, RotationState::North, 1, 0).cells(), [(0, 0), (1, 0), (2, 0), (2, 1)]);
    assert_eq!(piece(PieceType::J, RotationState::North, 1, 0).cells(), [(0, 0), (1, 0), (2, 0), (0, 1)]);
    assert_eq!(piece(PieceType::S, RotationState::North, 1, 0).cells(), [(0, 0), (1, 0), (1, 1), (2, 1)]);
    assert_eq!(piece(PieceType::Z, RotationState::North, 1, 0).cells(), [(2, 0), (1, 0), (1, 1), (0, 1)]);
    assert_eq!(piece(PieceType::T, RotationState::North, 0, 0).cells(), [(-1, 0), (0, 0), (1, 0), (0, 1)]);
    assert_eq!(
        piece(PieceType::I, RotationState::North, u32::MAX, u32::MAX).cells(),
        [
            (4294967294, 4294967295),
            (4294967295, 4294967295),
            (4294967296, 4294967295),
            (4294967297, 4294967295)
        ]
    );
}

#[test]
fn pieces_fit_only_inside_the_playfield() {
    assert!(piece(PieceType::T, RotationState::North, 1, 0).fits_field());
    assert!(!piece(PieceType::T, RotationState::North, 0, 0).fits_field());
    assert!(piece(PieceType::T, RotationState::North, 8, 21).fits_field());
    assert!(!piece(PieceType::T, RotationState::North, 9, 21).fits_field());
    assert!(!piece(PieceType::T, RotationState::North, 8, 22).fits_field());
    assert!(!piece(PieceType::T, RotationState::South, 5, 0).fits_field());
    assert!(piece(PieceType::I, RotationState::North, 7, 22).fits_field());
    assert!(!piece(PieceType::I, RotationState::North, 8, 22).fits_field());
}

#[test]
fn position_numbers_shift_the_centre_where_the_format_does() {
    assert_eq!(piece(PieceType::T, RotationState::North, 2, 0).fumen_pos(), 222);
    assert_eq!(piece(PieceType::S, RotationState::East, 0, 0).fumen_pos(), 221);
    assert_eq!(piece(PieceType::Z, RotationState::West, 1, 0).fumen_pos(), 220);
    assert_eq!(piece(PieceType::O, RotationState::West, 1, 0).fumen_pos(), 210);
    assert_eq!(piece(PieceType::O, RotationState::South, 1, 0).fumen_pos(), 220);
    assert_eq!(piece(PieceType::I, RotationState::South, 1, 0).fumen_pos(), 220);
    assert_eq!(piece(PieceType::S, RotationState::North, 0, 0).fumen_pos(), 210);
    assert_eq!(piece(PieceType::Z, RotationState::North, 0, 21).fumen_pos(), 0);
    assert_eq!(piece(PieceType::O, RotationState::North, 0, 0).fumen_pos(), 210);
    assert_eq!(piece(PieceType::I, RotationState::West, 0, 0).fumen_pos(), 210);
    assert_eq!(piece(PieceType::J, RotationState::East, 9, 22).fumen_pos(), 9);
}

#[test]
fn pieces_with_a_position_are_told_apart() {
    assert!(piece(PieceType::T, RotationState::North, 0, 0).has_position());
    assert!(piece(PieceType::T, RotationState::North, 9, 22).has_position());
    assert!(!piece(PieceType::T, RotationState::North, 10, 0).has_position());
    assert!(!piece(PieceType::T, RotationState::North, 0, 23).has_position());
    assert!(!piece(PieceType::O, RotationState::South, 0, 0).has_position());
    assert!(piece(PieceType::O, RotationState::South, 10, 0).has_position());
    assert!(!piece(PieceType::S, RotationState::East, 9, 0).has_position());
    assert!(!piece(PieceType::S, RotationState::North, 0, 22).has_position());
    assert!(!piece(PieceType::T, RotationState::North, u32::MAX, u32::MAX).has_position());
}

#[test]
fn piece_numbers_pack_kind_rotation_and_position() {
    assert_eq!(piece(PieceType::T, RotationState::North, 2, 0).fumen_number(), 7125);
    assert_eq!(piece(PieceType::I, RotationState::South, 1, 22).fumen_number(), 1);
    assert_eq!(piece(PieceType::S, RotationState::West, 9, 0).fumen_number(), 7 + 24 + 32 * 229);
    assert_eq!(Piece::from_fumen_number(7125), Some(Some(piece(PieceType::T, RotationState::North, 2, 0))));
    assert_eq!(Piece::from_fumen_number(0), Some(None));
    assert_eq!(Piece::from_fumen_number(7672), Some(None));
    assert_eq!(Piece::from_fumen_number(1), Some(Some(piece(PieceType::I, RotationState::South, 1, 22))));
    assert_eq!(Piece::from_fumen_number(7 + 8 + 32 * 220), None);
    assert_eq!(Piece::from_fumen_number(5 + 16 + 32 * 230), None);
    assert_eq!(Piece::from_fumen_number(7125 + 7680 * 21), Some(Some(piece(PieceType::T, RotationState::North, 2, 0))));
    assert_eq!(Piece::from_fumen_number(4 + 24 + 32 * 9), Some(Some(piece(PieceType::Z, RotationState::West, 10, 22))));
}

#[test]
fn page_numbers_add_the_flags() {
    let mut page = Page::default();
    assert_eq!(page.fumen_number(), 0);
    page.lock = false;
    assert_eq!(page.fumen_number(), 7680 * 16);
    page.rise = true;
    page.mirror = true;
    page.comment = Some("x".to_owned());
    page.piece = Some(piece(PieceType::Z, RotationState::West, 1, 0));
    assert_eq!(page.fumen_number(), 214428);
}

#[test]
fn escaping_keeps_unreserved_characters() {
    let kept = "ABCXYZabcxyz0189@*_+-./";
    assert_eq!(js_escape(kept), kept.as_bytes().to_vec());
}

#[test]
fn escaping_writes_two_or_four_hex_digits() {
    assert_eq!(js_escape("Hello World!"), b"Hello%20World%21".to_vec());
    assert_eq!(js_escape("%"), b"%25".to_vec());
    assert_eq!(js_escape("\0"), b"%00".to_vec());
    assert_eq!(js_escape("\u{7f}~"), b"%7F%7E".to_vec());
    assert_eq!(js_escape("é\u{ff}"), b"%E9%FF".to_vec());
    assert_eq!(js_escape("\u{100}"), b"%u0100".to_vec());
    assert_eq!(js_escape("こ"), b"%u3053".to_vec());
    assert_eq!(js_escape("\u{ffff}"), b"%uFFFF".to_vec());
    assert_eq!(js_escape("\u{10000}"), b"%uD800%uDC00".to_vec());
    assert_eq!(js_escape("🂡"), b"%uD83C%uDCA1".to_vec());
    assert_eq!(js_escape("\u{10ffff}"), b"%uDBFF%uDFFF".to_vec());
    assert_eq!(js_escape(""), Vec::<u8>::new());
}

#[test]
fn unescaping_reads_what_escaping_writes() {
    for text in ["", "Hello World!", "%", "100%u", "é\u{ff}\u{100}", "こんにちは世界", "🂡🆛🏍😵", "\u{10ffff}\0a"]
    {
        let escaped = String::from_utf8(js_escape(text)).unwrap();
        assert_eq!(js_unescape(&escaped), text);
    }
}

#[test]
fn unescaping_is_lenient() {
    assert_eq!(js_unescape("abc"), "abc");
    assert_eq!(js_unescape("%41%62"), "Ab");
    assert_eq!(js_unescape("%e9%E9"), "éé");
    assert_eq!(js_unescape("%u3053%U"), "こ\0");
    assert_eq!(js_unescape("%4"), "\u{4}");
    assert_eq!(js_unescape("%"), "\0");
    assert_eq!(js_unescape("%zz!"), "\0!");
    assert_eq!(js_unescape("%4z"), "\u{4}");
    assert_eq!(js_unescape("%u12"), "\u{12}");
    assert_eq!(js_unescape("%ug1h2X"), "\u{12}X");
    assert_eq!(js_unescape("こ"), "こ");
    assert_eq!(js_unescape("🂡"), "\u{f0a1}");
}

#[test]
fn surrogates_without_a_partner_become_the_replacement_character() {
    assert_eq!(js_unescape("%uD83C"), "\u{fffd}");
    assert_eq!(js_unescape("%uDCA1"), "\u{fffd}");
    assert_eq!(js_unescape("%uDCA1%uD83C"), "\u{fffd}\u{fffd}");
    assert_eq!(js_unescape("%uD83C%uD83C%uDCA1"), "\u{fffd}🂡");
    assert_eq!(js_unescape("%uD83Cx%uDCA1"), "\u{fffd}x\u{fffd}");
    assert_eq!(js_unescape("%uD83C%uDCA1"), "🂡");
}

#[test]
fn code_units_of_an_escaped_text() {
    let chars: Vec<char> = "a%20%u3053%uD83C%uDCA1%".chars().collect();
    assert_eq!(unescape_chars(&chars), vec![0x61, 0x20, 0x3053, 0xD83C, 0xDCA1, 0]);
}

#[test]
fn four_bytes_are_packed_into_five_digits() {
    let mut data = Vec::new();
    push_packed(&mut data, &b"Hell".to_vec());
    assert_eq!(data, vec![8, 40, 12, 3, 4]);
    assert_eq!(read_packed(&data, 0, 4), vec!['H', 'e', 'l', 'l']);
    let mut data = vec![1u8];
    push_packed(&mut data, &b" ".to_vec());
    assert_eq!(data, vec![1, 0, 0, 0, 0, 0]);
    let mut data = Vec::new();
    push_packed(&mut data, &b"\x7f\x7f\x7f\x7f!".to_vec());
    assert_eq!(data, vec![63, 63, 63, 3, 5, 1, 0, 0, 0, 0]);
    assert_eq!(read_packed(&data, 0, 5), vec!['\u{7f}', '\u{7f}', '\u{7f}', '\u{7f}', '!']);
    assert_eq!(read_packed(&data, 0, 3), vec!['\u{7f}', '\u{7f}', '\u{7f}']);
    let mut data = Vec::new();
    push_packed(&mut data, &Vec::new());
    assert_eq!(data, Vec::<u8>::new());
}

#[test]
fn comment_digits_start_with_the_escaped_length() {
    let mut data = Vec::new();
    push_comment(&mut data, "Hello World!");
    let symbols: String = data.iter().map(|d| to_base64(*d) as char).collect();
    assert_eq!(symbols, "QAIoMDEvoo2AXXaDEkoA6A");
    assert_eq!(read_comment(&data, 0, false), Ok(("Hello World!".to_owned(), 22)));
    assert_eq!(read_comment(&data, 0, true), Ok(("Hello World!".to_owned(), 22)));
    assert_eq!(read_comment(&data, 1, false), Err(DecodeError::Truncated));
    assert_eq!(read_comment(&data, 21, false), Err(DecodeError::Truncated));
    assert_eq!(read_comment(&data, 22, false), Err(DecodeError::Truncated));
    assert_eq!(read_comment(&data, 22, true), Err(DecodeError::Alphabet));
    let mut data = Vec::new();
    push_comment(&mut data, "");
    assert_eq!(data, vec![0, 0]);
    assert_eq!(read_comment(&data, 0, false), Ok((String::new(), 2)));
}

#[test]
fn long_comment_is_cut_to_4095_escaped_bytes() {
    let mut fumen = Fumen::default();
    fumen.add_page().comment = Some("a".repeat(5000));
    let text = fumen.encode();
    assert_eq!(text.len(), 5133);
    assert!(text.starts_with("v115@vhAAgW//hyrdDhyrdD"));
    let decoded = Fumen::decode(&text).unwrap();
    assert_eq!(decoded.pages[0].comment, Some("a".repeat(4095)));
}

#[test]
fn cut_may_fall_inside_an_escape() {
    let mut fumen = Fumen::default();
    fumen.add_page().comment = Some(format!("{}!", "a".repeat(4094)));
    let text = fumen.encode();
    assert_eq!(text.len(), 5133);
    assert!(text.ends_with("hyMAA"));
    let decoded = Fumen::decode(&text).unwrap();
    assert_eq!(decoded.pages[0].comment, Some(format!("{}\0", "a".repeat(4094))));
}

#[test]
fn comment_of_4095_escaped_bytes_is_kept() {
    let mut fumen = Fumen::default();
    fumen.add_page().comment = Some(format!("{}こ!", "a".repeat(4086)));
    assert_eq!(Fumen::decode(&fumen.encode()), Some(fumen));
}
