//! The text format, stated as mathematics: which digits stand for a document,
//! and which document a sequence of digits stands for.

use crate::alphabet::{alphabet, digit_value, digits, number};
use crate::comment::{comment_digits, parse_comment};
use crate::page::{all_eight, PageModel};
use crate::piece::{CellColor, Piece};
use vstd::prelude::*;

verus! {

/// Why a text stands for no document.
#[derive(Copy, Clone, Debug, PartialEq, Eq, Hash, Structural)]
pub enum DecodeError {
    /// The text does not start with the header `v115@`.
    Header,
    /// A character that is no symbol of the alphabet stands where a symbol is
    /// read.
    Alphabet,
    /// The text ends inside a page: inside its field, its number or its
    /// comment.
    Truncated,
    /// A value is out of range: a cell gets no colour, a piece lies left of
    /// or below every position, or the piece of a page that another page
    /// follows is to be locked outside the field.
    Value,
    /// A run of a field goes past its last cell.
    FieldFill,
}

/// The error of reading past the last digit: the text ends there, or, where
/// `more` is set, a character that is no symbol stands there.
pub open spec fn end_error(more: bool) -> DecodeError {
    if more {
        DecodeError::Alphabet
    } else {
        DecodeError::Truncated
    }
}

/// What a document holds, as mathematical values.
#[verifier::ext_equal]
pub struct FumenModel {
    pub pages: Seq<PageModel>,
    pub guideline: bool,
}

/// What one page of the text gives: the page, the document-wide flag as this
/// page states it, for how many of the next pages the field is already
/// settled, and the position after the page.
#[verifier::ext_equal]
pub struct ParsedPage {
    pub page: PageModel,
    pub guideline: bool,
    pub skip: nat,
    pub end: int,
}

/// The five characters that every text starts with.
pub open spec fn header() -> Seq<char> {
    seq!['v', '1', '1', '5', '@']
}

/// The symbols that stand for a sequence of digits.
pub open spec fn symbols(d: Seq<u8>) -> Seq<char> {
    Seq::new(d.len(), |i: int| alphabet()[d[i] as int])
}

/// The cells that page `i` is written against: what the page before it
/// carries over, and an empty field before the first page.
pub open spec fn baseline(pages: Seq<PageModel>, i: int) -> Seq<CellColor> {
    if i <= 0 {
        PageModel::blank().cells()
    } else {
        pages[i - 1].next().cells()
    }
}

/// For each of the 240 cells, 8 plus the colour number in `to` minus the
/// colour number in `from`.
pub open spec fn deltas(from: Seq<CellColor>, to: Seq<CellColor>) -> Seq<int> {
    Seq::new(240, |i: int| 8 + to[i].number() - from[i].number())
}

/// Whether the field of page `i` is the one carried over to it.
pub open spec fn unchanged(pages: Seq<PageModel>, i: int) -> bool {
    all_eight(deltas(baseline(pages, i), pages[i].cells()))
}

/// How many cells directly after `from` repeat the value at `from`.
pub open spec fn run_extra(cells: Seq<int>, from: int) -> nat
    decreases cells.len() - from,
{
    if 0 <= from && from + 1 < cells.len() && cells[from + 1] == cells[from] {
        1 + run_extra(cells, from + 1)
    } else {
        0
    }
}

/// The run-length form of the cells from `from` on: for each maximal run, the
/// two digits of its value times 240 plus its length less one.
pub open spec fn rle(cells: Seq<int>, from: int) -> Seq<u8>
    decreases cells.len() - from,
    via rle_decreases
{
    if from < 0 || from >= cells.len() {
        Seq::empty()
    } else {
        let extra = run_extra(cells, from);
        digits(cells[from] * 240 + extra, 2) + rle(cells, from + 1 + extra)
    }
}

#[via_fn]
proof fn rle_decreases(cells: Seq<int>, from: int) {
    if 0 <= from < cells.len() {
        lemma_run_extra_bound(cells, from);
    }
}

/// A run ends inside the cells.
pub proof fn lemma_run_extra_bound(cells: Seq<int>, from: int)
    requires
        0 <= from < cells.len(),
    ensures
        from + run_extra(cells, from) < cells.len(),
        forall|j: int| from <= j <= from + run_extra(cells, from) ==> cells[j] == cells[from],
        from + run_extra(cells, from) + 1 < cells.len() ==> cells[from + run_extra(cells, from) + 1]
            != cells[from],
    decreases cells.len() - from,
{
    if from + 1 < cells.len() && cells[from + 1] == cells[from] {
        lemma_run_extra_bound(cells, from + 1);
    }
}

/// How many pages directly after page `i` have an unchanged field, counted
/// up to `cap`.
pub open spec fn follow_count(pages: Seq<PageModel>, i: int, cap: nat) -> nat
    decreases cap,
{
    if cap == 0 || i + 1 >= pages.len() || !unchanged(pages, i + 1) {
        0
    } else {
        1 + follow_count(pages, i + 1, (cap - 1) as nat)
    }
}

/// The digits for the field of page `i`: its deltas in run-length form, and
/// after an unchanged field one more digit, the number of pages after it that
/// are unchanged too (62 at most) and so write no field of their own.
pub open spec fn field_digits(pages: Seq<PageModel>, i: int) -> Seq<u8> {
    let d = deltas(baseline(pages, i), pages[i].cells());
    if all_eight(d) {
        rle(d, 0).push(follow_count(pages, i, 62) as u8)
    } else {
        rle(d, 0)
    }
}

/// The number written for page `i`: its piece and flags, and in the first
/// page the document-wide flag, which is the flag bit of weight 4.
pub open spec fn page_number(pages: Seq<PageModel>, guideline: bool, i: int) -> int {
    pages[i].number() + (if i == 0 && guideline {
        30720int
    } else {
        0
    })
}

/// The digits for page `i`, where `skip` says whether an earlier page has
/// settled its field: the field unless settled, the page number in three
/// digits, and the comment if there is one.
pub open spec fn page_digits(pages: Seq<PageModel>, guideline: bool, i: int, skip: nat) -> Seq<u8> {
    (if skip > 0 {
        Seq::empty()
    } else {
        field_digits(pages, i)
    }) + digits(page_number(pages, guideline, i), 3) + (match pages[i].comment {
        Some(text) => comment_digits(text),
        None => Seq::empty(),
    })
}

/// For how many pages after page `i` the field is settled.
pub open spec fn next_skip(pages: Seq<PageModel>, i: int, skip: nat) -> nat {
    if skip > 0 {
        (skip - 1) as nat
    } else if unchanged(pages, i) {
        follow_count(pages, i, 62)
    } else {
        0
    }
}

/// The digits for the pages from `i` on.
pub open spec fn pages_digits(pages: Seq<PageModel>, guideline: bool, i: int, skip: nat) -> Seq<u8>
    decreases pages.len() - i,
{
    if i < 0 || i >= pages.len() {
        Seq::empty()
    } else {
        page_digits(pages, guideline, i, skip) + pages_digits(
            pages,
            guideline,
            i + 1,
            next_skip(pages, i, skip),
        )
    }
}

/// A run that stops at `to` has `to - from - 1` repeats.
pub proof fn lemma_run_extra_unique(cells: Seq<int>, from: int, to: int)
    requires
        0 <= from < to <= cells.len(),
        forall|k: int| from <= k < to ==> cells[k] == cells[from],
        to < cells.len() ==> cells[to] != cells[from],
    ensures
        run_extra(cells, from) == to - from - 1,
    decreases to - from,
{
    if from + 1 < to {
        lemma_run_extra_unique(cells, from + 1, to);
    }
}

/// An unchanged field is written as one run: the two digits 47 and 33.
pub proof fn lemma_rle_all_eight(cells: Seq<int>)
    requires
        cells.len() == 240,
        all_eight(cells),
    ensures
        rle(cells, 0) == seq![47u8, 33u8],
{
    lemma_run_extra_unique(cells, 0, 240);
    assert(rle(cells, 240) == Seq::<u8>::empty());
    assert(digits(2159, 2) =~= seq![47u8, 33u8]);
    assert(rle(cells, 0) =~= digits(2159, 2) + rle(cells, 240));
}

/// What `follow_count` counts: it stays within the cap and the document, the
/// pages it counts are unchanged, and where it stops short of the cap the
/// next page is changed or missing.
pub proof fn lemma_follow_count(pages: Seq<PageModel>, i: int, cap: nat)
    ensures
        follow_count(pages, i, cap) <= cap,
        i < pages.len() ==> i + follow_count(pages, i, cap) < pages.len(),
        forall|j: int| i < j <= i + follow_count(pages, i, cap) ==> unchanged(pages, j),
        follow_count(pages, i, cap) < cap && i + follow_count(pages, i, cap) + 1 < pages.len()
            ==> !unchanged(pages, i + follow_count(pages, i, cap) + 1),
    decreases cap,
{
    if !(cap == 0 || i + 1 >= pages.len() || !unchanged(pages, i + 1)) {
        lemma_follow_count(pages, i + 1, (cap - 1) as nat);
    }
}

impl FumenModel {
    /// Whether every page has its fixed sizes.
    pub open spec fn wf(self) -> bool {
        forall|i: int| 0 <= i < self.pages.len() ==> (#[trigger] self.pages[i]).wf()
    }

    /// Whether the document can be written: every page can.
    pub open spec fn encodable(self) -> bool {
        forall|i: int| 0 <= i < self.pages.len() ==> (#[trigger] self.pages[i]).encodable()
    }

    /// The digits that stand for the document.
    pub open spec fn digits(self) -> Seq<u8> {
        pages_digits(self.pages, self.guideline, 0, 0)
    }

    /// The text that stands for the document.
    pub open spec fn text(self) -> Seq<char> {
        header() + symbols(self.digits())
    }
}

/// The deltas that stand in the digits from `pos` on, `need` of them, and the
/// position after them. It is an error when the digits end first, or when a
/// run goes past the last cell.
pub open spec fn parse_runs(d: Seq<u8>, pos: int, need: nat, more: bool) -> Result<
    (Seq<int>, int),
    DecodeError,
>
    decreases need,
{
    if need == 0 {
        Ok((Seq::empty(), pos))
    } else if pos + 2 > d.len() {
        Err(end_error(more))
    } else {
        let n = number(d, pos, 2);
        let value = n / 240;
        let count = n % 240 + 1;
        if count > need {
            Err(DecodeError::FieldFill)
        } else {
            match parse_runs(d, pos + 2, (need - count) as nat, more) {
                Err(e) => Err(e),
                Ok((cells, end)) => Ok((Seq::new(count as nat, |i: int| value) + cells, end)),
            }
        }
    }
}

/// The colour of cell `i` after a delta is applied to it; `None` when the
/// result is no colour.
pub open spec fn apply_delta(from: Seq<CellColor>, delta: Seq<int>, i: int) -> Option<CellColor> {
    CellColor::of_number(from[i].number() + delta[i] - 8)
}

/// Whether every cell is a colour after its delta is applied.
pub open spec fn applies(from: Seq<CellColor>, delta: Seq<int>) -> bool {
    forall|i: int| 0 <= i < 240 ==> (#[trigger] apply_delta(from, delta, i)) is Some
}

/// The 240 cells after their deltas are applied.
pub open spec fn applied(from: Seq<CellColor>, delta: Seq<int>) -> Seq<CellColor> {
    Seq::new(240, |i: int| apply_delta(from, delta, i).unwrap())
}

/// The playfield that 240 cells in text order hold, row 0 at the bottom.
pub open spec fn field_of_cells(cells: Seq<CellColor>) -> Seq<Seq<CellColor>> {
    Seq::new(23, |y: int| Seq::new(10, |x: int| cells[(22 - y) * 10 + x]))
}

/// The garbage row that 240 cells in text order hold.
pub open spec fn garbage_of_cells(cells: Seq<CellColor>) -> Seq<CellColor> {
    Seq::new(10, |x: int| cells[230 + x])
}

/// The field that stands in the digits from `pos` on, read against the cells
/// `from`: the new cells, for how many following pages they are settled, and
/// the position after the field. It is an error when the digits end first,
/// when a run goes past the last cell, or when a cell leaves the colours.
pub open spec fn parse_field(d: Seq<u8>, pos: int, from: Seq<CellColor>, more: bool) -> Result<
    (Seq<CellColor>, nat, int),
    DecodeError,
> {
    match parse_runs(d, pos, 240, more) {
        Err(e) => Err(e),
        Ok((delta, end)) => {
            if all_eight(delta) && end >= d.len() {
                Err(end_error(more))
            } else if !applies(from, delta) {
                Err(DecodeError::Value)
            } else {
                let cells = applied(from, delta);
                if all_eight(delta) {
                    Ok((cells, d[end] as nat, end + 1))
                } else {
                    Ok((cells, 0, end))
                }
            }
        },
    }
}

/// The field and the garbage row of a page whose digits start at `pos`, for
/// how many following pages they are settled, and the position after them.
/// Where `skip` says that an earlier page has settled the field, it is the
/// one of `start` and takes no digits.
pub open spec fn parse_page_field(
    d: Seq<u8>,
    pos: int,
    start: PageModel,
    skip: nat,
    more: bool,
) -> Result<(Seq<Seq<CellColor>>, Seq<CellColor>, nat, int), DecodeError> {
    if skip > 0 {
        Ok((start.field, start.garbage_row, (skip - 1) as nat, pos))
    } else {
        match parse_field(d, pos, start.cells(), more) {
            Err(e) => Err(e),
            Ok((cells, skip, end)) => Ok(
                (field_of_cells(cells), garbage_of_cells(cells), skip, end),
            ),
        }
    }
}

/// The page whose number stands at `pos`, with the field and the garbage row
/// that were read before it: the number gives the piece and the flags, and a
/// comment follows where the flags say so.
pub open spec fn parse_page_tail(
    d: Seq<u8>,
    pos: int,
    field: Seq<Seq<CellColor>>,
    garbage_row: Seq<CellColor>,
    skip: nat,
    more: bool,
) -> Result<ParsedPage, DecodeError> {
    if pos + 3 > d.len() {
        Err(end_error(more))
    } else {
        let n = number(d, pos, 3);
        let flags = n / 7680;
        match Piece::of_number(n) {
            None => Err(DecodeError::Value),
            Some(piece) => {
                let comment = if flags / 8 % 2 == 1 {
                    match parse_comment(d, pos + 3, more) {
                        Err(e) => Err(e),
                        Ok((text, end)) => Ok((Some(text), end)),
                    }
                } else {
                    Ok((None, pos + 3))
                };
                match comment {
                    Err(e) => Err(e),
                    Ok((comment, end)) => Ok(
                        ParsedPage {
                            page: PageModel {
                                piece,
                                field,
                                garbage_row,
                                rise: flags % 2 == 1,
                                mirror: flags / 2 % 2 == 1,
                                lock: flags / 16 % 2 == 0,
                                comment,
                            },
                            guideline: flags / 4 % 2 == 1,
                            skip,
                            end,
                        },
                    ),
                }
            },
        }
    }
}

/// The page that stands in the digits from `pos` on, where `start` is the
/// page's default content and `skip` says whether its field is settled.
#[verifier::opaque]
pub open spec fn parse_page(
    d: Seq<u8>,
    pos: int,
    start: PageModel,
    skip: nat,
    more: bool,
) -> Result<ParsedPage, DecodeError> {
    match parse_page_field(d, pos, start, skip, more) {
        Err(e) => Err(e),
        Ok((field, garbage_row, skip, p)) => parse_page_tail(
            d,
            p,
            field,
            garbage_row,
            skip,
            more,
        ),
    }
}

/// The default content of the page after `prev`, and of the first page when
/// there is none before it.
pub open spec fn start_page(prev: Option<PageModel>) -> PageModel {
    match prev {
        Some(p) => p.next(),
        None => PageModel::blank(),
    }
}

/// The pages that stand in the digits from `pos` on, where `prev` is the
/// page before them. Reading ends with the digits, unless `more` says that a
/// character that is no symbol follows them. It is an error when a page is
/// malformed, or when a page that another one follows cannot be carried over.
pub open spec fn parse_pages(
    d: Seq<u8>,
    pos: int,
    prev: Option<PageModel>,
    skip: nat,
    more: bool,
) -> Result<Seq<ParsedPage>, DecodeError>
    decreases d.len() - pos,
    via parse_pages_decreases
{
    if pos >= d.len() && !more {
        Ok(Seq::empty())
    } else if prev is Some && !prev.unwrap().can_advance() {
        Err(DecodeError::Value)
    } else if pos >= d.len() {
        Err(DecodeError::Alphabet)
    } else {
        match parse_page(d, pos, start_page(prev), skip, more) {
            Err(e) => Err(e),
            Ok(first) => match parse_pages(d, first.end, Some(first.page), first.skip, more) {
                Err(e) => Err(e),
                Ok(rest) => Ok(seq![first] + rest),
            },
        }
    }
}

#[via_fn]
proof fn parse_pages_decreases(
    d: Seq<u8>,
    pos: int,
    prev: Option<PageModel>,
    skip: nat,
    more: bool,
) {
    if pos < d.len() && !(prev is Some && !prev.unwrap().can_advance()) {
        lemma_parse_page_end(d, pos, start_page(prev), skip, more);
    }
}

/// The deltas that are read are `need` many and end no earlier than they
/// start.
pub proof fn lemma_parse_runs_end(d: Seq<u8>, pos: int, need: nat, more: bool)
    ensures
        parse_runs(d, pos, need, more) matches Ok((cells, end)) ==> cells.len() == need && pos
            <= end && (need > 0 ==> end <= d.len()),
    decreases need,
{
    if need > 0 && pos + 2 <= d.len() {
        let n = number(d, pos, 2);
        let count = n % 240 + 1;
        if count <= need {
            lemma_parse_runs_end(d, pos + 2, (need - count) as nat, more);
        }
    }
}

/// A page takes at least the three digits of its number.
pub proof fn lemma_parse_page_end(d: Seq<u8>, pos: int, start: PageModel, skip: nat, more: bool)
    ensures
        parse_page(d, pos, start, skip, more) matches Ok(p) ==> pos + 3 <= p.end <= d.len(),
{
    reveal(parse_page);
    lemma_parse_runs_end(d, pos, 240, more);
    if parse_page(d, pos, start, skip, more) is Ok {
        let p = if skip > 0 {
            pos
        } else {
            parse_field(d, pos, start.cells(), more)->Ok_0.2
        };
        assert(pos <= p);
        if number(d, p, 3) / 7680 / 8 % 2 == 1 {
            reveal_with_fuel(number, 3);
            assert(number(d, p + 3, 2) >= 0);
        }
    }
}

/// The document that a sequence of digits stands for: its pages, and the
/// document-wide flag as the first page states it (`true` without a page).
pub open spec fn parse_document(d: Seq<u8>, more: bool) -> Result<FumenModel, DecodeError> {
    match parse_pages(d, 0, None, 0, more) {
        Err(e) => Err(e),
        Ok(parsed) => Ok(
            FumenModel {
                pages: Seq::new(parsed.len(), |i: int| parsed[i].page),
                guideline: if parsed.len() > 0 {
                    parsed[0].guideline
                } else {
                    true
                },
            },
        ),
    }
}

/// Whether a text starts with the header.
pub open spec fn has_header(text: Seq<char>) -> bool {
    text.len() >= 5 && text.take(5) == header()
}

/// How many symbols of the alphabet stand in a row from `from` on.
pub open spec fn symbol_count(text: Seq<char>, from: int) -> nat
    decreases text.len() - from,
{
    if 0 <= from < text.len() && digit_value(text[from]) is Some {
        1 + symbol_count(text, from + 1)
    } else {
        0
    }
}

/// The digits of a text: the values of the symbols that stand in a row after
/// its header.
pub open spec fn text_digits(text: Seq<char>) -> Seq<u8> {
    Seq::new(symbol_count(text, 5), |i: int| digit_value(text[5 + i]).unwrap() as u8)
}

/// Whether a text starts with the header and goes on in symbols of the
/// alphabet only.
pub open spec fn well_formed_text(text: Seq<char>) -> bool {
    has_header(text) && 5 + symbol_count(text, 5) == text.len()
}

/// The document that a text stands for, or why it stands for none. The text
/// is read from its start, and the first thing that is wrong with it is the
/// error.
pub open spec fn decode_text(text: Seq<char>) -> Result<FumenModel, DecodeError> {
    if !has_header(text) {
        Err(DecodeError::Header)
    } else {
        parse_document(text_digits(text), 5 + symbol_count(text, 5) < text.len())
    }
}

/// The symbols that are counted are symbols, and a character that is none
/// stands after them unless the text ends there.
pub proof fn lemma_symbol_count(text: Seq<char>, from: int)
    requires
        0 <= from <= text.len(),
    ensures
        from + symbol_count(text, from) <= text.len(),
        forall|i: int|
            from <= i < from + symbol_count(text, from) ==> digit_value(#[trigger] text[i]) is Some,
        from + symbol_count(text, from) < text.len() ==> digit_value(
            text[from + symbol_count(text, from)],
        ) is None,
    decreases text.len() - from,
{
    if from < text.len() && digit_value(text[from]) is Some {
        lemma_symbol_count(text, from + 1);
    }
}

/// Symbols in a row up to `to`, where the text ends or a character is no
/// symbol, are all the symbols that are counted.
pub proof fn lemma_symbol_count_unique(text: Seq<char>, from: int, to: int)
    requires
        0 <= from <= to <= text.len(),
        forall|i: int| from <= i < to ==> digit_value(#[trigger] text[i]) is Some,
        to < text.len() ==> digit_value(text[to]) is None,
    ensures
        symbol_count(text, from) == to - from,
    decreases to - from,
{
    if from < to {
        lemma_symbol_count_unique(text, from + 1, to);
    }
}

} // verus!
