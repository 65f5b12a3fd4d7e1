//! What holds of the page rules and of the shorthand for unchanged pages.

use crate::alphabet::digits;
use crate::format::{
    baseline, deltas, field_digits, follow_count, lemma_rle_all_eight, next_skip, page_digits,
    page_number, pages_digits, unchanged,
};
use crate::page::{
    clear_lines, empty_row, kept_rows, lemma_kept_rows_shape, lemma_next_wf, lock_piece, raise,
    row_full, well_shaped, PageModel,
};
use crate::piece::{lemma_color_number, CellColor};
use vstd::prelude::*;

verus! {

/// Whether no row of a field is full.
pub open spec fn no_full_row(field: Seq<Seq<CellColor>>) -> bool {
    forall|y: int| 0 <= y < field.len() ==> !row_full(#[trigger] field[y])
}

/// Where no row is full, every row is kept.
pub proof fn lemma_kept_rows_all(rows: Seq<Seq<CellColor>>)
    requires
        no_full_row(rows),
    ensures
        kept_rows(rows) == rows,
    decreases rows.len(),
{
    if rows.len() > 0 {
        assert(!row_full(rows[rows.len() - 1]));
        assert forall|y: int| 0 <= y < rows.drop_last().len() implies !row_full(
            #[trigger] rows.drop_last()[y],
        ) by {
            assert(rows.drop_last()[y] == rows[y]);
        }
        lemma_kept_rows_all(rows.drop_last());
        assert(rows.drop_last().push(rows.last()) =~= rows);
    } else {
        assert(rows =~= Seq::<Seq<CellColor>>::empty());
    }
}

/// The rows that are kept are not full.
pub proof fn lemma_kept_rows_not_full(rows: Seq<Seq<CellColor>>)
    ensures
        no_full_row(kept_rows(rows)),
    decreases rows.len(),
{
    if rows.len() > 0 {
        lemma_kept_rows_not_full(rows.drop_last());
    }
}

/// A page without a piece and without a full row, on which neither rise nor
/// mirror is set, carries its field and its garbage row over as they are.
pub proof fn lemma_settled_page_carries_over(p: PageModel)
    requires
        p.wf(),
        p.piece is None,
        !p.rise,
        !p.mirror,
        no_full_row(p.field),
    ensures
        p.next().field == p.field,
        p.next().garbage_row == p.garbage_row,
        p.next().lock == p.lock,
{
    lemma_kept_rows_all(p.field);
    assert(clear_lines(p.field) =~= p.field);
}

/// Carrying a page over twice gives what carrying it over once gives, unless
/// the first step raises a full garbage row into the field.
pub proof fn lemma_next_idempotent(p: PageModel)
    requires
        p.wf(),
        !(p.rise && row_full(p.garbage_row)),
    ensures
        p.next().next() == p.next(),
{
    let q = p.next();
    lemma_next_wf(p);
    let locked = if p.piece is Some && p.lock {
        lock_piece(p.field, p.piece.unwrap())
    } else {
        p.field
    };
    let cleared = clear_lines(locked);
    lemma_kept_rows_not_full(locked);
    lemma_kept_rows_shape(locked);
    assert(no_full_row(cleared)) by {
        assert forall|y: int| 0 <= y < cleared.len() implies !row_full(#[trigger] cleared[y]) by {
            if y < kept_rows(locked).len() {
                assert(cleared[y] == kept_rows(locked)[y]);
            } else {
                assert(cleared[y] == empty_row());
                assert(empty_row()[0] == CellColor::Empty);
            }
        }
    }
    let raised = if p.rise {
        raise(cleared, p.garbage_row)
    } else {
        cleared
    };
    assert(no_full_row(raised)) by {
        assert forall|y: int| 0 <= y < raised.len() implies !row_full(#[trigger] raised[y]) by {
            if p.rise && y > 0 {
                assert(raised[y] == cleared[y - 1]);
            }
        }
    }
    assert(well_shaped(raised, 23));
    assert(no_full_row(q.field)) by {
        assert forall|y: int| 0 <= y < q.field.len() implies !row_full(#[trigger] q.field[y]) by {
            if p.mirror {
                let row = raised[y];
                assert(!row_full(row));
                let x = choose|x: int| 0 <= x < row.len() && row[x] == CellColor::Empty;
                assert(row.reverse()[row.len() - 1 - x] == CellColor::Empty);
            }
        }
    }
    lemma_settled_page_carries_over(q);
    assert(q.next() =~= q);
}

/// The three digits of the number of each page from `i` up to `j`.
pub open spec fn numbers_digits(pages: Seq<PageModel>, guideline: bool, i: int, j: int) -> Seq<u8>
    decreases j - i,
{
    if i >= j {
        Seq::empty()
    } else {
        digits(page_number(pages, guideline, i), 3) + numbers_digits(pages, guideline, i + 1, j)
    }
}

/// Whether every page is unchanged and has no comment.
pub open spec fn all_pages_unchanged(pages: Seq<PageModel>) -> bool {
    forall|i: int|
        0 <= i < pages.len() ==> #[trigger] unchanged(pages, i) && pages[i].comment is None
}

/// Among unchanged pages the count of followers is the number of pages that
/// are left, or the cap.
proof fn lemma_follow_count_unchanged(pages: Seq<PageModel>, i: int, cap: nat)
    requires
        all_pages_unchanged(pages),
        0 <= i < pages.len(),
    ensures
        follow_count(pages, i, cap) == (if pages.len() - 1 - i < cap {
            pages.len() - 1 - i
        } else {
            cap as int
        }),
    decreases cap,
{
    if cap > 0 && i + 1 < pages.len() {
        assert(unchanged(pages, i + 1));
        lemma_follow_count_unchanged(pages, i + 1, (cap - 1) as nat);
    }
}

/// Pages inside a run of unchanged pages are written as their numbers alone.
proof fn lemma_skipped_pages(pages: Seq<PageModel>, g: bool, i: int, skip: nat)
    requires
        all_pages_unchanged(pages),
        0 <= i,
        i + skip <= pages.len(),
    ensures
        pages_digits(pages, g, i, skip) == numbers_digits(pages, g, i, i + skip) + pages_digits(
            pages,
            g,
            i + skip,
            0,
        ),
    decreases skip,
{
    if skip > 0 {
        assert(unchanged(pages, i));
        lemma_skipped_pages(pages, g, i + 1, (skip - 1) as nat);
        let number = digits(page_number(pages, g, i), 3);
        assert(page_digits(pages, g, i, skip) =~= number);
        assert(number + (numbers_digits(pages, g, i + 1, i + skip) + pages_digits(
            pages,
            g,
            i + skip,
            0,
        )) =~= (number + numbers_digits(pages, g, i + 1, i + skip)) + pages_digits(
            pages,
            g,
            i + skip,
            0,
        ));
    } else {
        assert(numbers_digits(pages, g, i, i) + pages_digits(pages, g, i, 0) =~= pages_digits(
            pages,
            g,
            i,
            0,
        ));
    }
}

/// A document of up to 63 unchanged pages without comments is written as
/// one marker (the digits 47 and 33), the number of pages less one, and the
/// numbers of the pages. A longer one is written as the marker, the count 62,
/// the numbers of 63 pages, and then what stands for the other pages, which
/// starts with a marker of its own.
pub proof fn lemma_unchanged_run(pages: Seq<PageModel>, g: bool)
    requires
        pages.len() >= 1,
        all_pages_unchanged(pages),
    ensures
        pages.len() <= 63 ==> pages_digits(pages, g, 0, 0) == seq![
            47u8,
            33u8,
            (pages.len() - 1) as u8,
        ] + numbers_digits(pages, g, 0, pages.len() as int),
        pages.len() > 63 ==> pages_digits(pages, g, 0, 0) == seq![47u8, 33u8, 62u8]
            + numbers_digits(pages, g, 0, 63) + pages_digits(pages, g, 63, 0) && pages_digits(
            pages,
            g,
            63,
            0,
        ).subrange(0, 2) == seq![47u8, 33u8],
{
    let n = pages.len() as int;
    let follow = follow_count(pages, 0, 62);
    lemma_follow_count_unchanged(pages, 0, 62);
    assert(unchanged(pages, 0));
    lemma_rle_all_eight(deltas(baseline(pages, 0), pages[0].cells()));
    assert(field_digits(pages, 0) =~= seq![47u8, 33u8, follow as u8]);
    let number = digits(page_number(pages, g, 0), 3);
    assert(page_digits(pages, g, 0, 0) =~= seq![47u8, 33u8, follow as u8] + number);
    assert(next_skip(pages, 0, 0) == follow);
    lemma_skipped_pages(pages, g, 1, follow);
    let rest = pages_digits(pages, g, 1 + follow as int, 0);
    assert(pages_digits(pages, g, 0, 0) =~= seq![47u8, 33u8, follow as u8] + numbers_digits(
        pages,
        g,
        0,
        1 + follow as int,
    ) + rest);
    if n > 63 {
        assert(unchanged(pages, 63));
        lemma_rle_all_eight(deltas(baseline(pages, 63), pages[63].cells()));
        assert(field_digits(pages, 63).subrange(0, 2) =~= seq![47u8, 33u8]);
        assert(rest.subrange(0, 2) =~= field_digits(pages, 63).subrange(0, 2));
    } else {
        assert(rest =~= Seq::<u8>::empty());
    }
}

/// Pages that are all the blank page are unchanged pages without comments.
pub proof fn lemma_blank_pages_unchanged(pages: Seq<PageModel>)
    requires
        forall|i: int| 0 <= i < pages.len() ==> #[trigger] pages[i] == PageModel::blank(),
    ensures
        all_pages_unchanged(pages),
{
    let blank = PageModel::blank();
    assert(no_full_row(blank.field)) by {
        assert forall|y: int| 0 <= y < blank.field.len() implies !row_full(
            #[trigger] blank.field[y],
        ) by {
            assert(blank.field[y][0] == CellColor::Empty);
        }
    }
    lemma_settled_page_carries_over(blank);
    assert(blank.next() =~= blank);
    assert forall|i: int| 0 <= i < pages.len() implies #[trigger] unchanged(pages, i)
        && pages[i].comment is None by {
        assert(pages[i] == blank);
        if i > 0 {
            assert(pages[i - 1] == blank);
        }
        assert(baseline(pages, i) == blank.cells());
        lemma_color_number(CellColor::Empty);
    }
}

} // verus!
