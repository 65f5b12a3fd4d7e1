use fumen::{DecodeError, Fumen, Page, Piece, PieceType, RotationState};

fn refused(text: &str, error: DecodeError) {
    assert_eq!(Fumen::try_decode(text), Err(error));
    assert_eq!(Fumen::decode(text), None);
}

#[test]
fn text_without_the_header_is_refused() {
    refused("", DecodeError::Header);
    refused("v115", DecodeError::Header);
    refused("v114@vhAAgH", DecodeError::Header);
    refused("V115@vhAAgH", DecodeError::Header);
    refused(" v115@vhAAgH", DecodeError::Header);
    refused("vhAAgH", DecodeError::Header);
    refused("é115@", DecodeError::Header);
    refused("v115é", DecodeError::Header);
    refused("!", DecodeError::Header);
}

#[test]
fn character_outside_the_alphabet_is_refused() {
    refused("v115@!", DecodeError::Alphabet);
    refused("v115@v!", DecodeError::Alphabet);
    refused("v115@vh!", DecodeError::Alphabet);
    refused("v115@vhA!gH", DecodeError::Alphabet);
    refused("v115@vhAA-H", DecodeError::Alphabet);
    refused("v115@vhAAg_", DecodeError::Alphabet);
    refused("v115@vhAAgH ", DecodeError::Alphabet);
    refused("v115@vhAAgH@", DecodeError::Alphabet);
    refused("v115@vhAAgé", DecodeError::Alphabet);
    refused("v115@vhAAgH\n", DecodeError::Alphabet);
    refused("v115@vhAAgWQAIoMDE=oo2AXXaDEkoA6A", DecodeError::Alphabet);
    refused("v115@vhAAgWQAIoMDE=", DecodeError::Alphabet);
}

#[test]
fn text_that_ends_inside_a_field_is_refused() {
    refused("v115@v", DecodeError::Truncated);
    refused("v115@uh", DecodeError::Truncated);
    refused("v115@uhA", DecodeError::Truncated);
    refused("v115@vh", DecodeError::Truncated);
    refused("v115@A8uhAgHA8", DecodeError::Truncated);
}

#[test]
fn text_that_ends_inside_a_page_number_is_refused() {
    refused("v115@vhA", DecodeError::Truncated);
    refused("v115@vhAA", DecodeError::Truncated);
    refused("v115@vhAAg", DecodeError::Truncated);
    refused("v115@vhBAgHAA", DecodeError::Truncated);
}

#[test]
fn a_count_may_promise_more_pages_than_follow() {
    assert_eq!(
        Fumen::try_decode("v115@vhBAgH"),
        Ok(Fumen { pages: vec![Page::default()], guideline: true })
    );
    assert_eq!(
        Fumen::try_decode("v115@vh/AgHAAA"),
        Ok(Fumen { pages: vec![Page::default(); 2], guideline: true })
    );
}

#[test]
fn text_that_ends_inside_a_comment_is_refused() {
    refused("v115@vhAAgW", DecodeError::Truncated);
    refused("v115@vhAAgWQ", DecodeError::Truncated);
    refused("v115@vhAAgWQA", DecodeError::Truncated);
    refused("v115@vhAAgWQAIoMDEvoo2AXXaDEkoA6", DecodeError::Truncated);
    refused("v115@vhAAgWQAIoMDEvoo2AXXaDE", DecodeError::Truncated);
}

#[test]
fn colour_out_of_range_is_refused() {
    refused("v115@vDAgH", DecodeError::Value);
    refused("v115@A8uhAgHA8uhAAA", DecodeError::Value);
}

#[test]
fn run_past_the_end_of_the_field_is_refused() {
    refused("v115@uhBeAgH", DecodeError::FieldFill);
    refused("v115@AevhAgH", DecodeError::FieldFill);
    refused("v115@uhvh", DecodeError::FieldFill);
}

#[test]
fn piece_left_of_or_below_the_field_is_refused() {
    refused("v115@vhAPuB", DecodeError::Value);
    refused("v115@vhAVzB", DecodeError::Value);
    refused("v115@vhAXuB", DecodeError::Value);
}

#[test]
fn page_that_cannot_be_carried_over_may_only_come_last() {
    let decoded = Fumen::decode("v115@vhAVOJ").unwrap();
    assert_eq!(
        decoded.pages[0].piece,
        Some(Piece { kind: PieceType::T, rotation: RotationState::North, x: 0, y: 0 })
    );
    assert!(!decoded.pages[0].can_advance());
    assert!(!decoded.can_encode());
    assert_eq!(decoded.try_encode(), None);
    assert_eq!(Fumen::try_decode("v115@vhAVOJ"), Ok(decoded));
    refused("v115@vhBVOJAAA", DecodeError::Value);
    refused("v115@vhAVOJv", DecodeError::Value);
}

#[test]
fn the_first_thing_wrong_is_the_error() {
    refused("v115@uhBe!", DecodeError::FieldFill);
    refused("v115@vD!", DecodeError::Value);
    refused("v115@vhAPuB!", DecodeError::Value);
    refused("v115@vhAVOJ!", DecodeError::Value);
    refused("v115@vhAAgH!uhBe", DecodeError::Alphabet);
    refused("v115@uh!Be", DecodeError::Alphabet);
    refused("v115@vhAAgW!", DecodeError::Alphabet);
    refused("v114@!", DecodeError::Header);
}

#[test]
fn well_formed_text_is_read() {
    assert_eq!(Fumen::try_decode("v115@"), Ok(Fumen::default()));
    assert_eq!(
        Fumen::try_decode("v115@vhAAgH"),
        Ok(Fumen { pages: vec![Page::default()], guideline: true })
    );
}

#[test]
fn document_with_a_piece_out_of_range_is_not_written() {
    let mut page = Page::default();
    page.piece = Some(Piece { kind: PieceType::T, rotation: RotationState::North, x: 10, y: 0 });
    page.lock = false;
    assert!(!page.can_encode());
    let fumen = Fumen { pages: vec![page], guideline: true };
    assert!(!fumen.can_encode());
    assert_eq!(fumen.try_encode(), None);

    let mut page = Page::default();
    page.piece = Some(Piece { kind: PieceType::O, rotation: RotationState::South, x: 0, y: 5 });
    page.lock = false;
    assert!(!page.can_encode());

    let mut page = Page::default();
    page.piece = Some(Piece { kind: PieceType::T, rotation: RotationState::North, x: 2, y: 23 });
    page.lock = false;
    assert!(!page.can_encode());

    let mut page = Page::default();
    page.piece = Some(Piece { kind: PieceType::T, rotation: RotationState::North, x: 2, y: 22 });
    page.lock = false;
    assert!(page.can_encode());
    page.lock = true;
    assert!(!page.can_encode());
    assert!(!page.can_advance());
}

#[test]
fn document_that_can_be_written_is_written() {
    let mut fumen = Fumen::default();
    fumen.add_page().piece =
        Some(Piece { kind: PieceType::T, rotation: RotationState::North, x: 2, y: 0 });
    assert!(fumen.can_encode());
    assert_eq!(fumen.try_encode(), Some("v115@vhAVPJ".to_owned()));
}
