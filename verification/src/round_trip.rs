//! A document that is written can be read back.

use crate::alphabet::{
    alphabet, digit_value, digits, holds_at, lemma_alphabet_index, lemma_number_of_digits, number,
    valid_digits,
};
use crate::comment::{comment_digits, escape};
use crate::comment_round_trip::lemma_comment_round_trip;
use crate::format::{
    applied, applies, apply_delta, baseline, decode_text, deltas, field_digits, field_of_cells,
    follow_count, garbage_of_cells, header, lemma_follow_count, lemma_run_extra_bound,
    lemma_symbol_count_unique, next_skip, page_digits, pages_digits, parse_document, parse_field,
    parse_page, parse_page_field, parse_page_tail, parse_pages, parse_runs, rle, run_extra,
    start_page, text_digits, unchanged, DecodeError, FumenModel, ParsedPage,
};
use crate::page::{all_eight, lemma_next_wf, PageModel};
use crate::piece::{lemma_color_number, lemma_piece_number_round_trip, CellColor, Piece};
use vstd::prelude::*;

verus! {

/// The page before page `i`, if there is one.
pub open spec fn page_before(pages: Seq<PageModel>, i: int) -> Option<PageModel> {
    if i > 0 {
        Some(pages[i - 1])
    } else {
        None
    }
}

/// Whether every comment of the document fits the length field once it is
/// escaped.
pub open spec fn comments_fit(pages: Seq<PageModel>) -> bool {
    forall|i: int|
        0 <= i < pages.len() && (#[trigger] pages[i]).comment is Some ==> escape(
            pages[i].comment.unwrap(),
        ).len() <= 4095
}

/// A number made of a piece part and a flag part splits into the two.
proof fn lemma_number_parts(piece: int, flags: int)
    requires
        0 <= piece < 7680,
        0 <= flags < 32,
    ensures
        0 <= piece + 7680 * flags < 262144,
        (piece + 7680 * flags) / 7680 == flags,
        (piece + 7680 * flags) % 8 == piece % 8,
        (piece + 7680 * flags) / 8 % 4 == piece / 8 % 4,
        (piece + 7680 * flags) / 32 % 240 == piece / 32 % 240,
{
    let n = piece + 7680 * flags;
    assert(n / 8 == piece / 8 + 960 * flags);
    assert(n / 32 == piece / 32 + 240 * flags);
}

/// Five flag bits are read back from their sum.
proof fn lemma_flag_bits(b0: bool, b1: bool, b2: bool, b3: bool, b4: bool)
    ensures
        ({
            let f = (if b0 { 1int } else { 0 }) + (if b1 { 2int } else { 0 }) + (if b2 { 4int } else { 0 })
                + (if b3 { 8int } else { 0 }) + (if b4 { 16int } else { 0 });
            &&& 0 <= f < 32
            &&& (f % 2 == 1) == b0
            &&& (f / 2 % 2 == 1) == b1
            &&& (f / 4 % 2 == 1) == b2
            &&& (f / 8 % 2 == 1) == b3
            &&& (f / 16 % 2 == 1) == b4
        }),
{
}

/// The number of a page gives back its piece and its flags, and the
/// document-wide flag that was added to it.
pub proof fn lemma_page_number(p: PageModel, extra: int)
    requires
        p.piece is Some ==> p.piece.unwrap().in_range(),
        extra == 0 || extra == 30720,
    ensures
        0 <= p.number() + extra < 262144,
        Piece::of_number(p.number() + extra) == Some(p.piece),
        ((p.number() + extra) / 7680 % 2 == 1) == p.rise,
        ((p.number() + extra) / 7680 / 2 % 2 == 1) == p.mirror,
        ((p.number() + extra) / 7680 / 4 % 2 == 1) == (extra != 0),
        ((p.number() + extra) / 7680 / 8 % 2 == 1) == (p.comment is Some),
        ((p.number() + extra) / 7680 / 16 % 2 == 0) == p.lock,
{
    let piece = match p.piece {
        Some(q) => q.number(),
        None => 0,
    };
    let flags = p.flags() + extra / 7680;
    if p.piece is Some {
        lemma_piece_number_round_trip(p.piece.unwrap());
    }
    lemma_flag_bits(p.rise, p.mirror, extra != 0, p.comment is Some, !p.lock);
    lemma_number_parts(piece, flags);
    assert(p.number() + extra == piece + 7680 * flags);
}

/// The run-length form of cells is read back as the cells.
pub proof fn lemma_parse_rle(d: Seq<u8>, pos: int, cells: Seq<int>, from: int, more: bool)
    requires
        cells.len() == 240,
        0 <= from <= 240,
        forall|k: int| 0 <= k < 240 ==> 0 <= #[trigger] cells[k] <= 16,
        holds_at(d, pos, rle(cells, from)),
    ensures
        parse_runs(d, pos, (240 - from) as nat, more) == Ok::<(Seq<int>, int), DecodeError>(
            (cells.skip(from), pos + rle(cells, from).len()),
        ),
    decreases 240 - from,
{
    if from == 240 {
        assert(cells.skip(from) =~= Seq::<int>::empty());
    } else {
        lemma_run_extra_bound(cells, from);
        let extra = run_extra(cells, from) as int;
        let v = cells[from] * 240 + extra;
        let head = digits(v, 2);
        let tail = rle(cells, from + 1 + extra);
        let all = rle(cells, from);
        assert(all == head + tail);
        assert(holds_at(d, pos, head)) by {
            assert(d.subrange(pos, pos + 2) =~= d.subrange(pos, pos + all.len()).subrange(0, 2));
            assert(all.subrange(0, 2) =~= head);
        }
        assert(holds_at(d, pos + 2, tail)) by {
            assert(d.subrange(pos + 2, pos + 2 + tail.len()) =~= d.subrange(
                pos,
                pos + all.len(),
            ).subrange(2, all.len() as int));
            assert(all.subrange(2, all.len() as int) =~= tail);
        }
        lemma_number_of_digits(d, pos, v, 2);
        assert(v / 240 == cells[from]);
        assert(v % 240 + 1 == extra + 1);
        lemma_parse_rle(d, pos + 2, cells, from + 1 + extra, more);
        assert(Seq::new((extra + 1) as nat, |i: int| cells[from]) + cells.skip(from + 1 + extra)
            =~= cells.skip(from));
    }
}

/// Applying to `from` the deltas from `from` to `to` gives `to`.
pub proof fn lemma_apply_deltas(from: Seq<CellColor>, to: Seq<CellColor>)
    requires
        from.len() == 240,
        to.len() == 240,
    ensures
        applies(from, deltas(from, to)),
        applied(from, deltas(from, to)) == to,
        forall|k: int| 0 <= k < 240 ==> 0 <= #[trigger] deltas(from, to)[k] <= 16,
{
    let delta = deltas(from, to);
    assert forall|i: int| 0 <= i < 240 implies (#[trigger] apply_delta(from, delta, i)) == Some(
        to[i],
    ) && 0 <= delta[i] <= 16 by {
        lemma_color_number(to[i]);
        lemma_color_number(from[i]);
    }
    assert(applied(from, delta) =~= to);
}

/// Cells with no change between them are the same cells.
pub proof fn lemma_all_eight_same(from: Seq<CellColor>, to: Seq<CellColor>)
    requires
        from.len() == 240,
        to.len() == 240,
        all_eight(deltas(from, to)),
    ensures
        from == to,
{
    assert forall|i: int| 0 <= i < 240 implies from[i] == to[i] by {
        assert(deltas(from, to)[i] == 8);
        lemma_color_number(to[i]);
        lemma_color_number(from[i]);
    }
    assert(from =~= to);
}

/// The digits for a field `to` written against `from`, where `follow` is the
/// count that goes after an unchanged field.
pub open spec fn written_field(from: Seq<CellColor>, to: Seq<CellColor>, follow: nat) -> Seq<u8> {
    if all_eight(deltas(from, to)) {
        rle(deltas(from, to), 0).push(follow as u8)
    } else {
        rle(deltas(from, to), 0)
    }
}

/// The digits of a field are read back as the field, with the count that
/// follows an unchanged one.
pub proof fn lemma_parse_field(
    d: Seq<u8>,
    pos: int,
    from: Seq<CellColor>,
    to: Seq<CellColor>,
    follow: nat,
    more: bool,
)
    requires
        from.len() == 240,
        to.len() == 240,
        follow < 64,
        holds_at(d, pos, written_field(from, to, follow)),
    ensures
        parse_field(d, pos, from, more) == Ok::<(Seq<CellColor>, nat, int), DecodeError>(
            (
                to,
                if all_eight(deltas(from, to)) {
                    follow
                } else {
                    0
                },
                pos + written_field(from, to, follow).len(),
            ),
        ),
{
    let delta = deltas(from, to);
    let runs = rle(delta, 0);
    lemma_apply_deltas(from, to);
    let part = written_field(from, to, follow);
    assert(holds_at(d, pos, runs)) by {
        assert(d.subrange(pos, pos + runs.len()) =~= d.subrange(pos, pos + part.len()).subrange(
            0,
            runs.len() as int,
        ));
        assert(part.subrange(0, runs.len() as int) =~= runs);
    }
    lemma_parse_rle(d, pos, delta, 0, more);
    assert(delta.skip(0) =~= delta);
    if all_eight(delta) {
        let end = pos + runs.len();
        assert(d[end] == d.subrange(pos, pos + part.len())[runs.len() as int]);
        assert(d[end] == follow as u8);
    }
}

/// The cells of a page hold its field and its garbage row.
pub proof fn lemma_cells_hold_field(p: PageModel)
    requires
        p.wf(),
    ensures
        p.cells().len() == 240,
        field_of_cells(p.cells()) == p.field,
        garbage_of_cells(p.cells()) == p.garbage_row,
{
    let cells = p.cells();
    let a = field_of_cells(cells);
    assert forall|y: int| 0 <= y < 23 implies a[y] =~= p.field[y] by {
        assert forall|x: int| 0 <= x < 10 implies a[y][x] == p.field[y][x] by {
            let k = (22 - y) * 10 + x;
            assert(k / 10 == 22 - y && k % 10 == x);
        }
    }
    assert(a =~= p.field);
    assert(garbage_of_cells(cells) =~= p.garbage_row) by {
        assert forall|x: int| 0 <= x < 10 implies garbage_of_cells(cells)[x]
            == p.garbage_row[x] by {
            assert((230 + x) / 10 == 23 && (230 + x) % 10 == x);
        }
    }
}

/// Where two parts stand one after the other, each of them stands.
proof fn lemma_holds_at_parts(d: Seq<u8>, pos: int, a: Seq<u8>, b: Seq<u8>)
    requires
        holds_at(d, pos, a + b),
    ensures
        holds_at(d, pos, a),
        holds_at(d, pos + a.len(), b),
{
    let all = a + b;
    let part = d.subrange(pos, pos + all.len());
    assert(d.subrange(pos, pos + a.len()) =~= part.subrange(0, a.len() as int));
    assert(all.subrange(0, a.len() as int) =~= a);
    assert(d.subrange(pos + a.len(), pos + a.len() + b.len()) =~= part.subrange(
        a.len() as int,
        all.len() as int,
    ));
    assert(all.subrange(a.len() as int, all.len() as int) =~= b);
}

/// The default content of a page has the fixed sizes, and its cells are the
/// ones the page is written against.
proof fn lemma_start_page(pages: Seq<PageModel>, i: int)
    requires
        0 <= i < pages.len(),
        i > 0 ==> pages[i - 1].wf(),
    ensures
        start_page(page_before(pages, i)).wf(),
        start_page(page_before(pages, i)).cells() == baseline(pages, i),
{
    if i > 0 {
        lemma_next_wf(pages[i - 1]);
    }
}

/// The digits of the field of page `i` are read back as its field and its
/// garbage row; inside a run of unchanged pages those are the ones carried
/// over, and no digit is read.
proof fn lemma_parse_page_field(
    d: Seq<u8>,
    pos: int,
    pages: Seq<PageModel>,
    i: int,
    skip: nat,
    more: bool,
)
    requires
        0 <= i < pages.len(),
        pages[i].wf(),
        i > 0 ==> pages[i - 1].wf(),
        holds_at(
            d,
            pos,
            if skip > 0 {
                Seq::<u8>::empty()
            } else {
                field_digits(pages, i)
            },
        ),
        skip > 0 ==> unchanged(pages, i),
    ensures
        parse_page_field(d, pos, start_page(page_before(pages, i)), skip, more) == Ok::<
            (Seq<Seq<CellColor>>, Seq<CellColor>, nat, int),
            DecodeError,
        >(
            (
                pages[i].field,
                pages[i].garbage_row,
                next_skip(pages, i, skip),
                pos + (if skip > 0 {
                    Seq::<u8>::empty()
                } else {
                    field_digits(pages, i)
                }).len(),
            ),
        ),
{
    let p = pages[i];
    let start = start_page(page_before(pages, i));
    lemma_start_page(pages, i);
    lemma_cells_hold_field(p);
    lemma_cells_hold_field(start);
    lemma_follow_count(pages, i, 62);
    let from = baseline(pages, i);
    if skip > 0 {
        lemma_all_eight_same(from, p.cells());
    } else {
        assert(field_digits(pages, i) == written_field(from, p.cells(), follow_count(pages, i, 62)));
        lemma_parse_field(d, pos, from, p.cells(), follow_count(pages, i, 62), more);
    }
}

/// The number and the comment of a page are read back as its piece, its
/// flags and its comment.
proof fn lemma_parse_page_tail(
    d: Seq<u8>,
    pos: int,
    p: PageModel,
    extra: int,
    skip: nat,
    more: bool,
)
    requires
        p.piece is Some ==> p.piece.unwrap().in_range(),
        p.comment is Some ==> escape(p.comment.unwrap()).len() <= 4095,
        extra == 0 || extra == 30720,
        holds_at(
            d,
            pos,
            digits(p.number() + extra, 3) + (match p.comment {
                Some(text) => comment_digits(text),
                None => Seq::<u8>::empty(),
            }),
        ),
    ensures
        parse_page_tail(d, pos, p.field, p.garbage_row, skip, more) == Ok::<
            ParsedPage,
            DecodeError,
        >(
            ParsedPage {
                page: p,
                guideline: extra != 0,
                skip,
                end: pos + 3 + (match p.comment {
                    Some(text) => comment_digits(text),
                    None => Seq::<u8>::empty(),
                }).len(),
            },
        ),
{
    let number_part = digits(p.number() + extra, 3);
    let comment_part = match p.comment {
        Some(text) => comment_digits(text),
        None => Seq::<u8>::empty(),
    };
    lemma_holds_at_parts(d, pos, number_part, comment_part);
    lemma_page_number(p, extra);
    lemma_number_of_digits(d, pos, p.number() + extra, 3);
    if p.comment is Some {
        lemma_comment_round_trip(d, pos + 3, p.comment.unwrap(), more);
    }
    let parsed = parse_page_tail(d, pos, p.field, p.garbage_row, skip, more);
    assert(parsed is Ok);
    assert(parsed->Ok_0.page =~= p);
}

/// The digits of a page are read back as the page, and the reading ends
/// where the writing did.
pub proof fn lemma_parse_page(
    d: Seq<u8>,
    pos: int,
    pages: Seq<PageModel>,
    g: bool,
    i: int,
    skip: nat,
    more: bool,
)
    requires
        0 <= i < pages.len(),
        pages[i].wf(),
        i > 0 ==> pages[i - 1].wf(),
        pages[i].piece is Some ==> pages[i].piece.unwrap().in_range(),
        pages[i].comment is Some ==> escape(pages[i].comment.unwrap()).len() <= 4095,
        holds_at(d, pos, page_digits(pages, g, i, skip)),
        skip > 0 ==> unchanged(pages, i),
    ensures
        parse_page(d, pos, start_page(page_before(pages, i)), skip, more) == Ok::<
            ParsedPage,
            DecodeError,
        >(
            ParsedPage {
                page: pages[i],
                guideline: i == 0 && g,
                skip: next_skip(pages, i, skip),
                end: pos + page_digits(pages, g, i, skip).len(),
            },
        ),
{
    reveal(parse_page);
    let p = pages[i];
    let field_part = if skip > 0 {
        Seq::<u8>::empty()
    } else {
        field_digits(pages, i)
    };
    let extra = if i == 0 && g {
        30720int
    } else {
        0
    };
    let tail_part = digits(p.number() + extra, 3) + (match p.comment {
        Some(text) => comment_digits(text),
        None => Seq::<u8>::empty(),
    });
    assert(page_digits(pages, g, i, skip) =~= field_part + tail_part);
    lemma_holds_at_parts(d, pos, field_part, tail_part);
    lemma_parse_page_field(d, pos, pages, i, skip, more);
    lemma_parse_page_tail(d, pos + field_part.len(), p, extra, next_skip(pages, i, skip), more);
}

/// The run-length form is made of 6-bit values.
proof fn lemma_rle_valid(cells: Seq<int>, from: int)
    ensures
        valid_digits(rle(cells, from)),
    decreases cells.len() - from,
{
    if 0 <= from < cells.len() {
        lemma_run_extra_bound(cells, from);
        lemma_rle_valid(cells, from + 1 + run_extra(cells, from));
    }
}

/// The digits of a document are 6-bit values.
pub proof fn lemma_pages_digits_valid(pages: Seq<PageModel>, g: bool, i: int, skip: nat)
    ensures
        valid_digits(pages_digits(pages, g, i, skip)),
    decreases pages.len() - i,
{
    if 0 <= i < pages.len() {
        lemma_pages_digits_valid(pages, g, i + 1, next_skip(pages, i, skip));
        lemma_rle_valid(deltas(baseline(pages, i), pages[i].cells()), 0);
        lemma_follow_count(pages, i, 62);
        assert(valid_digits(page_digits(pages, g, i, skip)));
    }
}

/// The digits of the pages from `i` on are read back as those pages.
pub proof fn lemma_parse_pages(
    d: Seq<u8>,
    pos: int,
    pages: Seq<PageModel>,
    g: bool,
    i: int,
    skip: nat,
)
    requires
        0 <= i <= pages.len(),
        forall|k: int| 0 <= k < pages.len() ==> (#[trigger] pages[k]).wf(),
        forall|k: int| 0 <= k < pages.len() ==> (#[trigger] pages[k]).encodable(),
        comments_fit(pages),
        holds_at(d, pos, pages_digits(pages, g, i, skip)),
        pos + pages_digits(pages, g, i, skip).len() == d.len(),
        forall|k: int| i <= k < i + skip && k < pages.len() ==> unchanged(pages, k),
    ensures
        parse_pages(d, pos, page_before(pages, i), skip, false) is Ok,
        parse_pages(d, pos, page_before(pages, i), skip, false)->Ok_0.len() == pages.len() - i,
        forall|k: int|
            0 <= k < pages.len() - i ==> (#[trigger] parse_pages(
                d,
                pos,
                page_before(pages, i),
                skip,
                false,
            )->Ok_0[k]).page == pages[i + k],
        i == 0 && pages.len() > 0 ==> parse_pages(
            d,
            pos,
            page_before(pages, i),
            skip,
            false,
        )->Ok_0[0].guideline == g,
    decreases pages.len() - i,
{
    if i < pages.len() {
        let part = page_digits(pages, g, i, skip);
        let skip_out = next_skip(pages, i, skip);
        let rest = pages_digits(pages, g, i + 1, skip_out);
        assert(pages_digits(pages, g, i, skip) == part + rest);
        lemma_holds_at_parts(d, pos, part, rest);
        assert(pages[i].wf() && pages[i].encodable());
        if i > 0 {
            assert(pages[i - 1].wf() && pages[i - 1].encodable());
        }
        if skip > 0 {
            assert(unchanged(pages, i));
        }
        lemma_parse_page(d, pos, pages, g, i, skip, false);
        let first = parse_page(d, pos, start_page(page_before(pages, i)), skip, false)->Ok_0;
        assert(part.len() >= 3);
        lemma_follow_count(pages, i, 62);
        assert(page_before(pages, i + 1) == Some(first.page));
        lemma_parse_pages(d, first.end, pages, g, i + 1, skip_out);
        let later = parse_pages(d, first.end, Some(first.page), first.skip, false)->Ok_0;
        let all = parse_pages(d, pos, page_before(pages, i), skip, false);
        assert(all == Ok::<Seq<ParsedPage>, DecodeError>(seq![first] + later));
        assert forall|k: int| 0 <= k < pages.len() - i implies (#[trigger] all->Ok_0[k]).page
            == pages[i + k] by {
            if k > 0 {
                assert(all->Ok_0[k] == later[k - 1]);
            }
        }
    }
}

/// Decoding the text of a document gives the document back, for every
/// document that can be written, whose comments fit the length field once
/// escaped, and which has a page to keep its document-wide flag in or has
/// that flag set.
pub proof fn lemma_round_trip(doc: FumenModel)
    requires
        doc.wf(),
        doc.encodable(),
        comments_fit(doc.pages),
        doc.pages.len() > 0 || doc.guideline,
    ensures
        decode_text(doc.text()) == Ok::<FumenModel, DecodeError>(doc),
{
    let ds = doc.digits();
    let text = doc.text();
    lemma_pages_digits_valid(doc.pages, doc.guideline, 0, 0);
    assert(text.take(5) =~= header());
    assert forall|i: int| 5 <= i < text.len() implies digit_value(#[trigger] text[i]) is Some by {
        lemma_alphabet_index(ds[i - 5] as int);
    }
    lemma_symbol_count_unique(text, 5, text.len() as int);
    assert(text_digits(text) =~= ds) by {
        assert forall|i: int| 0 <= i < ds.len() implies text_digits(text)[i] == ds[i] by {
            lemma_alphabet_index(ds[i] as int);
            assert(text[5 + i] == alphabet()[ds[i] as int]);
        }
    }
    assert(holds_at(ds, 0, ds)) by {
        assert(ds.subrange(0, ds.len() as int) =~= ds);
    }
    lemma_parse_pages(ds, 0, doc.pages, doc.guideline, 0, 0);
    let parsed = parse_pages(ds, 0, None, 0, false)->Ok_0;
    let back = parse_document(ds, false)->Ok_0;
    assert(back.pages =~= doc.pages);
    assert(back =~= doc);
}

} // verus!
