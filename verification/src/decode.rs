//! Reading a document from text.

use crate::alphabet::{digit_value, from_base64, read_number, valid_digits};
use crate::comment::{chars_of, end_error_of, read_comment};
use crate::format::{
    applied, applies, apply_delta, decode_text, field_of_cells, garbage_of_cells, has_header,
    header, lemma_parse_page_end, lemma_parse_runs_end, lemma_symbol_count_unique, parse_document,
    parse_page, parse_page_field, parse_page_tail, parse_pages, parse_runs, start_page,
    symbol_count, text_digits, DecodeError, ParsedPage,
};
use crate::fumen::Fumen;
use crate::page::{all_unchanged, linear, rows_view, Page};
use crate::piece::{decode_cell_color, CellColor, Piece};
use vstd::prelude::*;

verus! {

/// Sets the `count` cells from `from` on to `value`.
fn fill_run(grid: &mut [[usize; 10]; 24], from: usize, count: usize, value: usize)
    requires
        from + count <= 240,
    ensures
        forall|j: int|
            0 <= j < 240 ==> #[trigger] linear(*final(grid))[j] == (if from <= j < from + count {
                value as int
            } else {
                linear(*old(grid))[j]
            }),
{
    let ghost before = linear(*grid);
    let mut k: usize = 0;
    while k < count
        invariant
            0 <= k <= count,
            from + count <= 240,
            forall|j: int|
                0 <= j < 240 ==> #[trigger] linear(*grid)[j] == (if from <= j < from + k {
                    value as int
                } else {
                    before[j]
                }),
        decreases count - k,
    {
        let ghost earlier = linear(*grid);
        let t: usize = from + k;
        grid[t / 10][t % 10] = value;
        proof {
            assert forall|j: int| 0 <= j < 240 implies #[trigger] linear(*grid)[j] == (if from <= j
                < from + k + 1 {
                value as int
            } else {
                before[j]
            }) by {
                if j != t {
                    assert(j / 10 != t / 10 || j % 10 != t % 10);
                    assert(linear(*grid)[j] == earlier[j]);
                }
            }
        }
        k += 1;
    }
}

/// The 240 deltas that stand in the digits from `pos` on, and the position
/// after them.
fn read_runs(d: &Vec<u8>, pos: usize, more: bool) -> (r: Result<
    ([[usize; 10]; 24], usize),
    DecodeError,
>)
    requires
        valid_digits(d@),
        pos <= d.len(),
    ensures
        match parse_runs(d@, pos as int, 240, more) {
            Err(e) => r == Err::<([[usize; 10]; 24], usize), DecodeError>(e),
            Ok((cells, end)) => r is Ok && linear(r->Ok_0.0) == cells && r->Ok_0.1 == end && end
                <= d.len(),
        },
        r is Ok ==> forall|k: int| 0 <= k < 240 ==> 0 <= #[trigger] linear(r->Ok_0.0)[k] <= 17,
{
    let mut grid = [[0usize; 10]; 24];
    let mut filled: usize = 0;
    let mut p: usize = pos;
    proof {
        if parse_runs(d@, pos as int, 240, more) is Ok {
            assert(linear(grid).take(0) + parse_runs(d@, pos as int, 240, more)->Ok_0.0
                =~= parse_runs(d@, pos as int, 240, more)->Ok_0.0);
        }
    }
    while filled < 240
        invariant
            0 <= filled <= 240,
            pos <= p <= d.len(),
            valid_digits(d@),
            forall|k: int| 0 <= k < filled ==> 0 <= #[trigger] linear(grid)[k] <= 17,
            match parse_runs(d@, p as int, (240 - filled) as nat, more) {
                Err(e) => parse_runs(d@, pos as int, 240, more) == Err::<
                    (Seq<int>, int),
                    DecodeError,
                >(e),
                Ok((cells, end)) => parse_runs(d@, pos as int, 240, more) == Ok::<
                    (Seq<int>, int),
                    DecodeError,
                >((linear(grid).take(filled as int) + cells, end)),
            },
        decreases 240 - filled,
    {
        if d.len() - p < 2 {
            return Err(end_error_of(more));
        }
        let n: u32 = read_number(d, p, 2);
        let value: usize = (n / 240) as usize;
        let count: usize = (n % 240 + 1) as usize;
        if count > 240 - filled {
            return Err(DecodeError::FieldFill);
        }
        let ghost before = linear(grid);
        fill_run(&mut grid, filled, count, value);
        proof {
            let run = Seq::new(count as nat, |i: int| (n / 240) as int);
            assert(linear(grid).take(filled + count) =~= before.take(filled as int) + run);
            match parse_runs(d@, p + 2, (240 - filled - count) as nat, more) {
                Err(e) => {},
                Ok((cells, end)) => {
                    assert((before.take(filled as int) + run) + cells =~= before.take(
                        filled as int,
                    ) + (run + cells));
                },
            }
            assert forall|j: int| 0 <= j < filled + count implies 0 <= #[trigger] linear(grid)[j]
                <= 17 by {
                if j < filled {
                    assert(linear(grid)[j] == before[j]);
                }
            }
        }
        filled += count;
        p += 2;
    }
    proof {
        assert(linear(grid).take(240) + Seq::<int>::empty() =~= linear(grid));
        lemma_parse_runs_end(d@, pos as int, 240, more);
    }
    Ok((grid, p))
}

/// The field and garbage row of `start` after the deltas are applied; `None`
/// when a cell leaves the colours.
fn apply_deltas(start: &Page, grid: &[[usize; 10]; 24]) -> (r: Option<
    ([[CellColor; 10]; 23], [CellColor; 10]),
>)
    requires
        forall|k: int| 0 <= k < 240 ==> 0 <= #[trigger] linear(*grid)[k] <= 17,
    ensures
        r is Some <==> applies(start@.cells(), linear(*grid)),
        r is Some ==> rows_view(r.unwrap().0) == field_of_cells(
            applied(start@.cells(), linear(*grid)),
        ) && r.unwrap().1@ == garbage_of_cells(applied(start@.cells(), linear(*grid))),
{
    let ghost from = start@.cells();
    let ghost delta = linear(*grid);
    let mut field = start.field;
    let mut garbage = start.garbage_row;
    let mut i: usize = 0;
    while i < 240
        invariant
            0 <= i <= 240,
            from == start@.cells(),
            delta == linear(*grid),
            forall|k: int| 0 <= k < 240 ==> 0 <= #[trigger] linear(*grid)[k] <= 17,
            forall|k: int| 0 <= k < i ==> (#[trigger] apply_delta(from, delta, k)) is Some,
            forall|k: int|
                0 <= k < i && k < 230 ==> field[22 - k / 10][k % 10] == (#[trigger] apply_delta(
                    from,
                    delta,
                    k,
                )).unwrap(),
            forall|k: int|
                230 <= k < i ==> garbage[k - 230] == (#[trigger] apply_delta(
                    from,
                    delta,
                    k,
                )).unwrap(),
        decreases 240 - i,
    {
        let r: usize = i / 10;
        let x: usize = i % 10;
        let old: CellColor = if r < 23 {
            start.field[22 - r][x]
        } else {
            start.garbage_row[x]
        };
        proof {
            assert(from[i as int] == start@.fumen_rows()[r as int][x as int]);
            assert(from[i as int] == old);
            assert(delta[i as int] == grid[r as int][x as int]);
            assert(0 <= linear(*grid)[i as int] <= 17);
        }
        let sum: usize = grid[r][x] + old.to_number();
        if sum < 8 {
            assert(apply_delta(from, delta, i as int) is None);
            return None;
        }
        match decode_cell_color(sum - 8) {
            None => {
                assert(apply_delta(from, delta, i as int) is None);
                return None;
            },
            Some(color) => {
                assert(apply_delta(from, delta, i as int) == Some(color));
                if r < 23 {
                    field[22 - r][x] = color;
                } else {
                    garbage[x] = color;
                }
            },
        }
        i += 1;
    }
    proof {
        let cells = applied(from, delta);
        let a = rows_view(field);
        let b = field_of_cells(cells);
        assert forall|y: int| 0 <= y < 23 implies a[y] =~= b[y] by {
            assert forall|x: int| 0 <= x < 10 implies a[y][x] == b[y][x] by {
                let k = (22 - y) * 10 + x;
                assert(k / 10 == 22 - y && k % 10 == x);
                assert(field[22 - k / 10][k % 10] == apply_delta(from, delta, k).unwrap());
            }
        }
        assert(a =~= b);
        assert(garbage@ =~= garbage_of_cells(cells)) by {
            assert forall|x: int| 0 <= x < 10 implies garbage@[x] == garbage_of_cells(cells)[x] by {
                assert(garbage[(230 + x) - 230] == apply_delta(from, delta, 230 + x).unwrap());
            }
        }
    }
    Some((field, garbage))
}

/// The field and the garbage row of a page whose digits start at `pos`, for
/// how many following pages they are settled, and the position after them.
fn read_page_field(d: &Vec<u8>, pos: usize, start: &Page, skip: usize, more: bool) -> (r: Result<
    ([[CellColor; 10]; 23], [CellColor; 10], usize, usize),
    DecodeError,
>)
    requires
        valid_digits(d@),
        pos <= d.len(),
    ensures
        match parse_page_field(d@, pos as int, start@, skip as nat, more) {
            Err(e) => r == Err::<
                ([[CellColor; 10]; 23], [CellColor; 10], usize, usize),
                DecodeError,
            >(e),
            Ok((field, garbage_row, skip_out, end)) => r is Ok && rows_view(r->Ok_0.0) == field
                && r->Ok_0.1@ == garbage_row && r->Ok_0.2 == skip_out && r->Ok_0.3 == end && end
                <= d.len(),
        },
{
    if skip > 0 {
        return Ok((start.field, start.garbage_row, skip - 1, pos));
    }
    let (grid, end) = match read_runs(d, pos, more) {
        Err(e) => {
            return Err(e);
        },
        Ok(read) => read,
    };
    let same = all_unchanged(&grid);
    if same && end >= d.len() {
        return Err(end_error_of(more));
    }
    match apply_deltas(start, &grid) {
        None => Err(DecodeError::Value),
        Some((field, garbage)) => {
            if same {
                Ok((field, garbage, d[end] as usize, end + 1))
            } else {
                Ok((field, garbage, 0, end))
            }
        },
    }
}

/// The page whose number stands at `pos`, with the field and the garbage row
/// that were read before it, and the document-wide flag as the page states
/// it.
fn read_page_tail(
    d: &Vec<u8>,
    pos: usize,
    field: [[CellColor; 10]; 23],
    garbage_row: [CellColor; 10],
    more: bool,
) -> (r: Result<(Page, bool, usize), DecodeError>)
    requires
        valid_digits(d@),
        pos <= d.len(),
    ensures
        forall|skip: nat|
            match #[trigger] parse_page_tail(
                d@,
                pos as int,
                rows_view(field),
                garbage_row@,
                skip,
                more,
            ) {
                Err(e) => r == Err::<(Page, bool, usize), DecodeError>(e),
                Ok(p) => r is Ok && r->Ok_0.0@ == p.page && r->Ok_0.1 == p.guideline && r->Ok_0.2
                    == p.end,
            },
{
    if d.len() - pos < 3 {
        return Err(end_error_of(more));
    }
    let n: u32 = read_number(d, pos, 3);
    let piece = match Piece::from_fumen_number(n) {
        None => {
            return Err(DecodeError::Value);
        },
        Some(piece) => piece,
    };
    let flags: u32 = n / 7680;
    let (comment, end) = if flags / 8 % 2 == 1 {
        match read_comment(d, pos + 3, more) {
            Err(e) => {
                return Err(e);
            },
            Ok((text, end)) => (Some(text), end),
        }
    } else {
        (None, pos + 3)
    };
    let page = Page {
        piece,
        field,
        garbage_row,
        rise: flags % 2 == 1,
        mirror: flags / 2 % 2 == 1,
        lock: flags / 16 % 2 == 0,
        comment,
    };
    Ok((page, flags / 4 % 2 == 1, end))
}

/// The page that stands in the digits from `pos` on, the document-wide flag
/// as it states it, for how many following pages the field is settled, and
/// the position after the page.
fn read_page(d: &Vec<u8>, pos: usize, start: &Page, skip: usize, more: bool) -> (r: Result<
    (Page, bool, usize, usize),
    DecodeError,
>)
    requires
        valid_digits(d@),
        pos <= d.len(),
    ensures
        match parse_page(d@, pos as int, start@, skip as nat, more) {
            Err(e) => r == Err::<(Page, bool, usize, usize), DecodeError>(e),
            Ok(p) => r is Ok && r->Ok_0.0@ == p.page && r->Ok_0.1 == p.guideline && r->Ok_0.2
                == p.skip && r->Ok_0.3 == p.end,
        },
{
    reveal(parse_page);
    let (field, garbage_row, skip_out, p) = match read_page_field(d, pos, start, skip, more) {
        Err(e) => {
            return Err(e);
        },
        Ok(read) => read,
    };
    match read_page_tail(d, p, field, garbage_row, more) {
        Err(e) => Err(e),
        Ok((page, guideline, end)) => Ok((page, guideline, skip_out, end)),
    }
}

/// The digits of a text: the values of the symbols that stand in a row after
/// its header, and whether a character that is no symbol follows them. It is
/// an error when the header is missing.
fn read_digits(chars: &Vec<char>) -> (r: Result<(Vec<u8>, bool), DecodeError>)
    ensures
        r is Ok <==> has_header(chars@),
        r is Err ==> r->Err_0 == DecodeError::Header,
        r is Ok ==> r->Ok_0.0@ == text_digits(chars@) && valid_digits(r->Ok_0.0@) && r->Ok_0.1 == (
        5 + symbol_count(chars@, 5) < chars@.len()),
{
    if chars.len() < 5 {
        return Err(DecodeError::Header);
    }
    if chars[0] != 'v' || chars[1] != '1' || chars[2] != '1' || chars[3] != '5' || chars[4] != '@' {
        assert(chars@.take(5)[0] == chars@[0] && chars@.take(5)[1] == chars@[1] && chars@.take(5)[2]
            == chars@[2] && chars@.take(5)[3] == chars@[3] && chars@.take(5)[4] == chars@[4]);
        return Err(DecodeError::Header);
    }
    assert(chars@.take(5) =~= header());
    let mut d: Vec<u8> = Vec::new();
    let mut i: usize = 5;
    let mut more = false;
    while i < chars.len() && !more
        invariant
            5 <= i <= chars.len(),
            d@.len() == (if more {
                i - 6
            } else {
                i - 5
            }),
            more ==> i > 5 && digit_value(chars@[i - 1]) is None,
            valid_digits(d@),
            forall|k: int| 5 <= k < 5 + d@.len() ==> digit_value(#[trigger] chars@[k]) is Some,
            forall|k: int|
                0 <= k < d@.len() ==> d@[k] == digit_value(chars@[5 + k]).unwrap() as u8,
        decreases chars.len() - i,
    {
        match from_base64(chars[i]) {
            None => {
                more = true;
            },
            Some(v) => {
                d.push(v as u8);
            },
        }
        i += 1;
    }
    proof {
        lemma_symbol_count_unique(chars@, 5, 5 + d@.len() as int);
        assert(d@ =~= text_digits(chars@));
    }
    Ok((d, more))
}

impl Fumen {
    /// The document that a text stands for, or why it stands for none. The
    /// text is read from its start, and the first thing that is wrong with
    /// it is the error: the header is missing; a character is no symbol of
    /// the alphabet; the text ends inside a page; a run goes past the last
    /// cell of a field; or a colour or a piece is out of range.
    pub fn try_decode(data: &str) -> (r: Result<Fumen, DecodeError>)
        ensures
            match decode_text(data@) {
                Err(e) => r == Err::<Fumen, DecodeError>(e),
                Ok(m) => r is Ok && r->Ok_0@ == m,
            },
    {
        let chars = chars_of(data);
        let (d, more) = match read_digits(&chars) {
            Err(e) => {
                return Err(e);
            },
            Ok(read) => read,
        };
        let mut pages: Vec<Page> = Vec::new();
        let mut guideline = true;
        let mut pos: usize = 0;
        let mut skip: usize = 0;
        let ghost mut parsed: Seq<ParsedPage> = Seq::empty();
        proof {
            if parse_pages(d@, 0, None, 0, more) is Ok {
                assert(parsed + parse_pages(d@, 0, None, 0, more)->Ok_0 =~= parse_pages(
                    d@,
                    0,
                    None,
                    0,
                    more,
                )->Ok_0);
            }
        }
        while pos < d.len() || more
            invariant
                0 <= pos <= d.len(),
                valid_digits(d@),
                has_header(data@),
                d@ == text_digits(data@),
                more == (5 + symbol_count(data@, 5) < data@.len()),
                parsed.len() == pages.len(),
                forall|k: int| 0 <= k < parsed.len() ==> (#[trigger] parsed[k]).page == pages@[k]@,
                guideline == (if parsed.len() > 0 {
                    parsed[0].guideline
                } else {
                    true
                }),
                match parse_pages(
                    d@,
                    pos as int,
                    if pages.len() > 0 {
                        Some(pages@.last()@)
                    } else {
                        None
                    },
                    skip as nat,
                    more,
                ) {
                    Err(e) => parse_pages(d@, 0, None, 0, more) == Err::<
                        Seq<ParsedPage>,
                        DecodeError,
                    >(e),
                    Ok(rest) => parse_pages(d@, 0, None, 0, more) == Ok::<
                        Seq<ParsedPage>,
                        DecodeError,
                    >(parsed + rest),
                },
            decreases d.len() - pos,
        {
            let n: usize = pages.len();
            let ghost prev = if n > 0 {
                Some(pages@.last()@)
            } else {
                None
            };
            let start = if n > 0 {
                if !pages[n - 1].can_advance() {
                    return Err(DecodeError::Value);
                }
                pages[n - 1].next_page()
            } else {
                Page::default()
            };
            assert(start@ == start_page(prev));
            if pos >= d.len() {
                return Err(DecodeError::Alphabet);
            }
            proof {
                lemma_parse_page_end(d@, pos as int, start@, skip as nat, more);
            }
            match read_page(&d, pos, &start, skip, more) {
                Err(e) => {
                    return Err(e);
                },
                Ok((page, g, s, end)) => {
                    let ghost first = parse_page(d@, pos as int, start@, skip as nat, more)->Ok_0;
                    if n == 0 {
                        guideline = g;
                    }
                    pages.push(page);
                    proof {
                        match parse_pages(d@, end as int, Some(first.page), s as nat, more) {
                            Err(e) => {},
                            Ok(rest) => {
                                assert(parsed + (seq![first] + rest) =~= parsed.push(first) + rest);
                            },
                        }
                        parsed = parsed.push(first);
                    }
                    pos = end;
                    skip = s;
                },
            }
        }
        let fumen = Fumen { pages, guideline };
        proof {
            assert(parsed + Seq::<ParsedPage>::empty() =~= parsed);
            let m = parse_document(d@, more)->Ok_0;
            assert(fumen@.pages =~= m.pages);
        }
        Ok(fumen)
    }

    /// The document that a text stands for; `None` for a text that stands
    /// for none.
    pub fn decode(data: &str) -> (r: Option<Fumen>)
        ensures
            match decode_text(data@) {
                Err(_) => r is None,
                Ok(m) => r is Some && r.unwrap()@ == m,
            },
    {
        match Fumen::try_decode(data) {
            Ok(fumen) => Some(fumen),
            Err(_) => None,
        }
    }
}

} // verus!
