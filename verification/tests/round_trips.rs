use fumen::{CellColor, Fumen, Page, Piece, PieceType, RotationState};

fn sample() -> Fumen {
    let mut fumen = Fumen { pages: Vec::new(), guideline: false };
    let page = fumen.add_page();
    page.field[0] = [CellColor::Grey; 10];
    page.field[0][4] = CellColor::Empty;
    page.field[1][0] = CellColor::S;
    page.piece = Some(Piece { kind: PieceType::I, rotation: RotationState::West, x: 4, y: 1 });
    page.comment = Some("a b".to_owned());
    let page = fumen.add_page();
    page.garbage_row = [CellColor::Grey; 10];
    page.garbage_row[3] = CellColor::Empty;
    page.rise = true;
    page.piece = Some(Piece { kind: PieceType::L, rotation: RotationState::South, x: 7, y: 3 });
    page.lock = false;
    let page = fumen.add_page();
    page.mirror = true;
    page.comment = Some("%u".to_owned());
    fumen.add_page();
    fumen
}

#[test]
fn sample_document_encodes_to_its_text() {
    assert_eq!(
        sample().encode(),
        "v115@RhQ4IeD8AeE8JeZmQFAhoo2ACBAAAlhC8AeF8iahvhBAwwEAFrnfEAAe"
    );
}

#[test]
fn sample_document_round_trips() {
    let fumen = sample();
    assert_eq!(Fumen::decode(&fumen.encode()), Some(fumen));
}

#[test]
fn sample_text_decodes_to_the_document() {
    assert_eq!(
        Fumen::decode("v115@RhQ4IeD8AeE8JeZmQFAhoo2ACBAAAlhC8AeF8iahvhBAwwEAFrnfEAAe"),
        Some(sample())
    );
}

#[test]
fn document_flag_is_kept_in_the_first_page() {
    let fumen = Fumen { pages: vec![Page::default()], guideline: false };
    assert_eq!(fumen.encode(), "v115@vhAAAA");
    assert_eq!(Fumen::decode("v115@vhAAAA"), Some(fumen));
    let fumen = Fumen { pages: vec![Page::default()], guideline: true };
    assert_eq!(fumen.encode(), "v115@vhAAgH");
    assert_eq!(Fumen::decode("v115@vhAAgH"), Some(fumen));
}

#[test]
fn document_flag_is_lost_without_a_page() {
    let fumen = Fumen { pages: Vec::new(), guideline: false };
    assert_eq!(fumen.encode(), "v115@");
    assert_eq!(Fumen::decode("v115@"), Some(Fumen { pages: Vec::new(), guideline: true }));
}

#[test]
fn every_piece_and_rotation_round_trips() {
    let kinds = [
        PieceType::I,
        PieceType::L,
        PieceType::O,
        PieceType::Z,
        PieceType::T,
        PieceType::J,
        PieceType::S,
    ];
    let rotations =
        [RotationState::South, RotationState::East, RotationState::North, RotationState::West];
    for kind in kinds {
        for rotation in rotations {
            let mut fumen = Fumen::default();
            let page = fumen.add_page();
            page.piece = Some(Piece { kind, rotation, x: 4, y: 5 });
            page.lock = false;
            fumen.add_page().comment = Some(format!("{:?} {:?}", kind, rotation));
            assert!(fumen.can_encode());
            assert_eq!(Fumen::decode(&fumen.encode()), Some(fumen));
        }
    }
}

#[test]
fn unchanged_pages_up_to_63_share_one_marker() {
    for n in 1..=63usize {
        let fumen = Fumen { pages: vec![Page::default(); n], guideline: true };
        let symbols = "ABCDEFGHIJKLMNOPQRSTUVWXYZabcdefghijklmnopqrstuvwxyz0123456789+/";
        let mut expected = String::from("v115@vh");
        expected.push(symbols.chars().nth(n - 1).unwrap());
        expected.push_str("AgH");
        for _ in 1..n {
            expected.push_str("AAA");
        }
        let text = fumen.encode();
        assert_eq!(text, expected);
        assert_eq!(text.matches("vh").count(), 1);
        assert_eq!(Fumen::decode(&text), Some(fumen));
    }
}

#[test]
fn unchanged_pages_63_exact_text() {
    let fumen = Fumen { pages: vec![Page::default(); 63], guideline: true };
    assert_eq!(fumen.encode(), format!("v115@vh+AgH{}", "AAA".repeat(62)));
}

#[test]
fn unchanged_pages_beyond_63_start_a_new_marker() {
    let fumen = Fumen { pages: vec![Page::default(); 64], guideline: true };
    let text = fumen.encode();
    assert_eq!(text, format!("v115@vh+AgH{}vhAAAA", "AAA".repeat(62)));
    assert_eq!(Fumen::decode(&text), Some(fumen));

    let fumen = Fumen { pages: vec![Page::default(); 65], guideline: true };
    let text = fumen.encode();
    assert_eq!(text, format!("v115@vh+AgH{}vhBAAAAAA", "AAA".repeat(62)));
    assert_eq!(Fumen::decode(&text), Some(fumen));

    let fumen = Fumen { pages: vec![Page::default(); 127], guideline: true };
    let text = fumen.encode();
    assert_eq!(
        text,
        format!("v115@vh+AgH{}vh+{}vhAAAA", "AAA".repeat(62), "AAA".repeat(63))
    );
    assert_eq!(text.matches("vh").count(), 3);
    assert_eq!(Fumen::decode(&text), Some(fumen));
}

#[test]
fn a_count_of_63_is_read() {
    let text = format!("v115@vh/AgH{}", "AAA".repeat(63));
    let fumen = Fumen { pages: vec![Page::default(); 64], guideline: true };
    assert_eq!(Fumen::decode(&text), Some(fumen));
}

#[test]
fn an_unchanged_field_in_two_runs_is_followed_by_a_count() {
    let fumen = Fumen { pages: vec![Page::default(); 2], guideline: true };
    assert_eq!(Fumen::decode("v115@3f3fBAgHAAA"), Some(fumen));
}

#[test]
fn settled_page_carries_its_field_over() {
    let mut page = Page::default();
    page.field[0] = [CellColor::Grey; 10];
    page.field[0][9] = CellColor::Empty;
    page.field[3][2] = CellColor::T;
    page.garbage_row[1] = CellColor::Grey;
    page.comment = Some("kept out".to_owned());
    let next = page.next_page();
    assert_eq!(next.field, page.field);
    assert_eq!(next.garbage_row, page.garbage_row);
    assert_eq!(next.comment, None);
    assert_eq!(next.next_page(), next);
}

#[test]
fn carrying_over_twice_is_carrying_over_once() {
    let mut page = Page::default();
    page.field[0] = [CellColor::Grey; 10];
    page.field[1] = [CellColor::Grey; 10];
    page.field[1][0] = CellColor::Empty;
    page.field[2][5] = CellColor::J;
    page.piece = Some(Piece { kind: PieceType::I, rotation: RotationState::North, x: 1, y: 4 });
    page.mirror = true;
    let next = page.next_page();
    let mut expected = [[CellColor::Empty; 10]; 23];
    expected[0] = [CellColor::Grey; 10];
    expected[0][9] = CellColor::Empty;
    expected[1][4] = CellColor::J;
    expected[3][9] = CellColor::I;
    expected[3][8] = CellColor::I;
    expected[3][7] = CellColor::I;
    expected[3][6] = CellColor::I;
    assert_eq!(next.field, expected);
    assert_eq!(next.next_page(), next);
}

#[test]
fn a_raised_full_garbage_row_is_cleared_by_the_next_step() {
    let mut page = Page::default();
    page.garbage_row = [CellColor::Grey; 10];
    page.field[0][0] = CellColor::O;
    page.rise = true;
    let next = page.next_page();
    assert_eq!(next.field[0], [CellColor::Grey; 10]);
    assert_eq!(next.field[1][0], CellColor::O);
    assert_eq!(next.garbage_row, [CellColor::Empty; 10]);
    let after = next.next_page();
    assert_eq!(after.field[0][0], CellColor::O);
    assert_eq!(after.field[1], [CellColor::Empty; 10]);
}

#[test]
fn add_page_starts_from_the_page_before() {
    let mut fumen = Fumen::default();
    assert_eq!(*fumen.add_page(), Page::default());
    fumen.pages[0].field[0] = [CellColor::Z; 10];
    fumen.pages[0].field[1][1] = CellColor::Z;
    fumen.pages[0].lock = false;
    fumen.pages[0].comment = Some("first".to_owned());
    let expected = fumen.pages[0].next_page();
    assert_eq!(*fumen.add_page(), expected);
    assert_eq!(fumen.pages.len(), 2);
    assert_eq!(fumen.pages[1].field[0][1], CellColor::Z);
    assert_eq!(fumen.pages[1].field[1], [CellColor::Empty; 10]);
    assert!(!fumen.pages[1].lock);
    assert_eq!(fumen.pages[1].comment, None);
    assert!(fumen.guideline);
}

fn next_random(state: &mut u64) -> u32 {
    *state = state.wrapping_mul(6364136223846793005).wrapping_add(1442695040888963407);
    (*state >> 33) as u32
}

fn random_colour(state: &mut u64) -> CellColor {
    match next_random(state) % 9 {
        0 => CellColor::Empty,
        1 => CellColor::I,
        2 => CellColor::L,
        3 => CellColor::O,
        4 => CellColor::Z,
        5 => CellColor::T,
        6 => CellColor::J,
        7 => CellColor::S,
        _ => CellColor::Grey,
    }
}

fn random_comment(state: &mut u64) -> String {
    let mut text = String::new();
    for _ in 0..next_random(state) % 12 {
        let c = match next_random(state) % 5 {
            0 => char::from_u32(next_random(state) % 0x80),
            1 => char::from_u32(next_random(state) % 0x100),
            2 => char::from_u32(next_random(state) % 0x10000),
            3 => char::from_u32(0x10000 + next_random(state) % 0x100000),
            _ => Some('%'),
        };
        text.push(c.unwrap_or('u'));
    }
    text
}

fn random_document(state: &mut u64) -> Fumen {
    let kinds = [
        PieceType::I,
        PieceType::L,
        PieceType::O,
        PieceType::Z,
        PieceType::T,
        PieceType::J,
        PieceType::S,
    ];
    let rotations =
        [RotationState::South, RotationState::East, RotationState::North, RotationState::West];
    let mut fumen = Fumen { pages: Vec::new(), guideline: next_random(state) % 2 == 0 };
    for _ in 0..1 + next_random(state) % 8 {
        let page = fumen.add_page();
        if next_random(state) % 3 == 0 {
            for _ in 0..next_random(state) % 40 {
                let y = (next_random(state) % 23) as usize;
                let x = (next_random(state) % 10) as usize;
                page.field[y][x] = random_colour(state);
            }
        }
        if next_random(state) % 4 == 0 {
            let y = (next_random(state) % 23) as usize;
            page.field[y] = [random_colour(state); 10];
        }
        if next_random(state) % 4 == 0 {
            for x in 0..10 {
                page.garbage_row[x] = random_colour(state);
            }
        }
        page.rise = next_random(state) % 4 == 0;
        page.mirror = next_random(state) % 4 == 0;
        page.lock = next_random(state) % 4 != 0;
        if next_random(state) % 2 == 0 {
            page.comment = Some(random_comment(state));
        }
        if next_random(state) % 2 == 0 {
            page.piece = Some(Piece {
                kind: kinds[(next_random(state) % 7) as usize],
                rotation: rotations[(next_random(state) % 4) as usize],
                x: next_random(state) % 11,
                y: next_random(state) % 24,
            });
            if !page.can_encode() {
                page.piece = None;
            }
        }
    }
    fumen
}

#[test]
fn many_documents_round_trip() {
    let mut state: u64 = 0x5eed;
    let mut with_piece = 0;
    for _ in 0..300 {
        let fumen = random_document(&mut state);
        assert!(fumen.can_encode());
        if fumen.pages.iter().any(|page| page.piece.is_some()) {
            with_piece += 1;
        }
        let text = fumen.encode();
        assert!(text.is_ascii());
        assert_eq!(Fumen::try_decode(&text), Ok(fumen));
    }
    assert!(with_piece > 50);
}

#[test]
fn prefixes_of_a_text_are_read_or_refused() {
    let text = sample().encode();
    for end in 0..text.len() {
        match Fumen::try_decode(&text[..end]) {
            Ok(fumen) => assert!(fumen.pages.len() < 4),
            Err(error) => {
                assert!(error == fumen::DecodeError::Header || error == fumen::DecodeError::Truncated)
            }
        }
    }
}
