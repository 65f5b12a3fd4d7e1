//! Writing a document as text.

use crate::alphabet::{digits, push_number, to_base64, valid_digits};
use crate::comment::{comment_digits, push_comment};
use crate::format::{
    baseline, deltas, field_digits, follow_count, lemma_follow_count, lemma_rle_all_eight,
    lemma_run_extra_unique, next_skip, page_digits, page_number, pages_digits, rle, unchanged,
};
use crate::fumen::Fumen;
use crate::page::{
    all_unchanged, cells_of_rows, fumen_field_delta, linear, rows_view, Page, PageModel,
};
use crate::piece::CellColor;
use vstd::prelude::*;

verus! {

/// Appends the run-length form of the 240 deltas.
fn push_runs(data: &mut Vec<u8>, grid: &[[usize; 10]; 24])
    requires
        forall|k: int| 0 <= k < 240 ==> 0 <= #[trigger] linear(*grid)[k] <= 16,
    ensures
        final(data)@ == old(data)@ + rle(linear(*grid), 0),
        valid_digits(old(data)@) ==> valid_digits(final(data)@),
{
    let ghost cells = linear(*grid);
    let mut i: usize = 0;
    while i < 240
        invariant
            0 <= i <= 240,
            cells == linear(*grid),
            forall|k: int| 0 <= k < 240 ==> 0 <= #[trigger] cells[k] <= 16,
            data@ + rle(cells, i as int) == old(data)@ + rle(cells, 0),
            valid_digits(old(data)@) ==> valid_digits(data@),
        decreases 240 - i,
    {
        let value: usize = grid[i / 10][i % 10];
        let mut j: usize = i + 1;
        while j < 240 && grid[j / 10][j % 10] == value
            invariant
                i < j <= 240,
                cells == linear(*grid),
                value == cells[i as int],
                forall|k: int| i <= k < j ==> cells[k] == value,
            decreases 240 - j,
        {
            j += 1;
        }
        let ghost before = data@;
        proof {
            assert(j < 240 ==> cells[j as int] != value);
            lemma_run_extra_unique(cells, i as int, j as int);
            assert(cells[i as int] <= 16);
        }
        push_number(data, (value * 240 + (j - i - 1)) as u32, 2);
        proof {
            assert(before + rle(cells, i as int) =~= data@ + rle(cells, j as int));
        }
        i = j;
    }
    assert(rle(cells, 240) == Seq::<u8>::empty());
    assert(data@ + Seq::<u8>::empty() =~= data@);
}

/// The deltas between two grids are the deltas between their cells.
proof fn lemma_linear_deltas(
    from: [[CellColor; 10]; 24],
    to: [[CellColor; 10]; 24],
    grid: [[usize; 10]; 24],
)
    requires
        forall|y: int, x: int|
            0 <= y < 24 && 0 <= x < 10 ==> #[trigger] grid[y][x] == 8 + to[y][x].number()
                - from[y][x].number(),
    ensures
        linear(grid) == deltas(cells_of_rows(rows_view(from)), cells_of_rows(rows_view(to))),
        forall|k: int| 0 <= k < 240 ==> 0 <= #[trigger] linear(grid)[k] <= 16,
{
    let a = linear(grid);
    let b = deltas(cells_of_rows(rows_view(from)), cells_of_rows(rows_view(to)));
    assert forall|k: int| 0 <= k < 240 implies a[k] == b[k] && 0 <= a[k] <= 16 by {
        let y = k / 10;
        let x = k % 10;
        assert(grid[y][x] == 8 + to[y][x].number() - from[y][x].number());
        assert(rows_view(from)[y][x] == from[y][x]);
        assert(rows_view(to)[y][x] == to[y][x]);
    }
    assert(a =~= b);
}

/// The text that bytes hold in UTF-8, as `String::from_utf8` gives it; `None`
/// when the bytes are no UTF-8.
#[verifier::external_body]
fn string_from_utf8(bytes: Vec<u8>) -> (text: Option<String>)
    ensures
        text is Some <==> vstd::utf8::valid_utf8(bytes@),
        text is Some ==> text.unwrap()@ == vstd::utf8::decode_utf8(bytes@),
{
    match String::from_utf8(bytes) {
        Ok(text) => Some(text),
        Err(_) => None,
    }
}

/// ASCII bytes are the UTF-8 form of the characters with their values.
proof fn lemma_ascii_bytes(bytes: Seq<u8>, chars: Seq<char>)
    requires
        bytes.len() == chars.len(),
        forall|i: int| 0 <= i < bytes.len() ==> bytes[i] < 128 && bytes[i] as char == chars[i],
    ensures
        vstd::utf8::valid_utf8(bytes),
        vstd::utf8::decode_utf8(bytes) == chars,
{
    assert(vstd::utf8::is_ascii_chars(chars)) by {
        assert forall|i: int| 0 <= i < chars.len() implies '\0' <= #[trigger] chars[i]
            <= '\u{7f}' by {
            assert(bytes[i] as char == chars[i]);
        }
    }
    vstd::utf8::is_ascii_chars_encode_utf8(chars);
    assert(bytes =~= vstd::utf8::encode_utf8(chars)) by {
        assert forall|i: int| 0 <= i < bytes.len() implies bytes[i] == vstd::utf8::encode_utf8(
            chars,
        )[i] by {
            assert(bytes[i] as char == chars[i]);
            assert(chars[i] as u8 == vstd::utf8::encode_utf8(chars)[i]);
        }
    }
    vstd::utf8::encode_utf8_valid_utf8(chars);
    vstd::utf8::encode_utf8_decode_utf8(chars);
}

/// The digits written so far. After an unchanged field the digit that counts
/// the unchanged pages after it is written as 0, and `pending` keeps its
/// index and the count so far until the run ends.
struct Writer {
    data: Vec<u8>,
    pending: Option<(usize, u8)>,
}

impl Writer {
    /// The digits as they stand once the pending count has grown by `extra`.
    spec fn settled(self, extra: nat) -> Seq<u8> {
        match self.pending {
            Some((idx, count)) => self.data@.update(idx as int, (count + extra) as u8),
            None => self.data@,
        }
    }

    /// Whether the pending count is the one of the run that page `opened`
    /// began, on reaching page `i` with `skip` pages of the run still to come.
    spec fn tracks(self, pages: Seq<PageModel>, i: int, skip: nat, opened: int) -> bool {
        match self.pending {
            None => skip == 0,
            Some((idx, count)) => idx < self.data@.len() && count < 62 && count + skip
                == follow_count(pages, opened, 62) && 0 <= opened && opened + count + 1 == i,
        }
    }

    /// Writes the pending count, if there is one.
    fn close(&mut self)
        requires
            valid_digits(old(self).data@),
            old(self).pending is Some ==> old(self).pending.unwrap().0 < old(self).data@.len()
                && old(self).pending.unwrap().1 < 64,
        ensures
            final(self).data@ == old(self).settled(0),
            final(self).pending is None,
            valid_digits(final(self).data@),
    {
        match self.pending {
            Some((idx, count)) => {
                self.data[idx] = count;
                self.pending = None;
            },
            None => {},
        }
    }

    /// Writes the field of page `i`, whose deltas are `grid`: nothing inside
    /// a run, the run-length form and a count to come for an unchanged
    /// field, and the run-length form alone for a changed one.
    fn push_field(
        &mut self,
        grid: &[[usize; 10]; 24],
        Ghost(pages): Ghost<Seq<PageModel>>,
        Ghost(i): Ghost<int>,
        Ghost(skip): Ghost<nat>,
        Ghost(opened): Ghost<int>,
    ) -> (o: Ghost<int>)
        requires
            0 <= i < pages.len(),
            linear(*grid) == deltas(baseline(pages, i), pages[i].cells()),
            forall|k: int| 0 <= k < 240 ==> 0 <= #[trigger] linear(*grid)[k] <= 16,
            old(self).tracks(pages, i, skip, opened),
            valid_digits(old(self).data@),
        ensures
            final(self).tracks(pages, i + 1, next_skip(pages, i, skip), o@),
            final(self).settled(next_skip(pages, i, skip)) == old(self).settled(skip) + (if skip
                > 0 {
                Seq::<u8>::empty()
            } else {
                field_digits(pages, i)
            }),
            valid_digits(final(self).data@),
    {
        proof {
            if self.pending is Some {
                lemma_follow_count(pages, opened, 62);
            }
            lemma_follow_count(pages, i, 62);
        }
        let ghost before = self.settled(skip);
        if all_unchanged(grid) {
            assert(unchanged(pages, i));
            match self.pending {
                Some((idx, count)) => {
                    assert(skip > 0);
                    let count: u8 = count + 1;
                    if count == 62 {
                        self.data[idx] = count;
                        self.pending = None;
                    } else {
                        self.pending = Some((idx, count));
                    }
                    assert(self.settled((skip - 1) as nat) =~= before);
                    Ghost(opened)
                },
                None => {
                    // One run of 240 times the delta 8: the number 8 * 240 + 239.
                    self.data.push(47);
                    self.data.push(33);
                    self.pending = Some((self.data.len(), 0));
                    self.data.push(0);
                    proof {
                        lemma_rle_all_eight(linear(*grid));
                        let follow = follow_count(pages, i, 62);
                        assert(field_digits(pages, i) =~= seq![47u8, 33u8, follow as u8]);
                        assert(self.settled(follow) =~= before + field_digits(pages, i));
                    }
                    Ghost(i)
                },
            }
        } else {
            assert(!unchanged(pages, i));
            assert(skip == 0);
            self.close();
            push_runs(&mut self.data, grid);
            Ghost(opened)
        }
    }

    /// Writes page `i`: its field, its number and its comment.
    fn push_page(
        &mut self,
        page: &Page,
        grid: &[[usize; 10]; 24],
        extra: u32,
        Ghost(pages): Ghost<Seq<PageModel>>,
        Ghost(g): Ghost<bool>,
        Ghost(i): Ghost<int>,
        Ghost(skip): Ghost<nat>,
        Ghost(opened): Ghost<int>,
    ) -> (o: Ghost<int>)
        requires
            0 <= i < pages.len(),
            pages[i] == page@,
            page@.encodable(),
            extra == (if i == 0 && g {
                30720int
            } else {
                0
            }),
            linear(*grid) == deltas(baseline(pages, i), pages[i].cells()),
            forall|k: int| 0 <= k < 240 ==> 0 <= #[trigger] linear(*grid)[k] <= 16,
            old(self).tracks(pages, i, skip, opened),
            valid_digits(old(self).data@),
        ensures
            final(self).tracks(pages, i + 1, next_skip(pages, i, skip), o@),
            final(self).settled(next_skip(pages, i, skip)) == old(self).settled(skip) + page_digits(
                pages,
                g,
                i,
                skip,
            ),
            valid_digits(final(self).data@),
    {
        let ghost before = self.settled(skip);
        let ghost skip_out = next_skip(pages, i, skip);
        let ghost field_part = if skip > 0 {
            Seq::<u8>::empty()
        } else {
            field_digits(pages, i)
        };
        let ghost number_part = digits(page_number(pages, g, i), 3);
        let ghost comment_part = match page@.comment {
            Some(text) => comment_digits(text),
            None => Seq::<u8>::empty(),
        };
        let o = self.push_field(grid, Ghost(pages), Ghost(i), Ghost(skip), Ghost(opened));
        self.push_digits(page.fumen_number() + extra, 3, Ghost(skip_out));
        match &page.comment {
            Some(comment) => {
                self.push_text(comment.as_str(), Ghost(skip_out));
            },
            None => {},
        }
        proof {
            assert(page_digits(pages, g, i, skip) == field_part + number_part + comment_part);
            assert(self.settled(skip_out) =~= before + field_part + number_part + comment_part);
        }
        o
    }

    /// Writes the `n` lowest digits of `v`.
    fn push_digits(&mut self, v: u32, n: usize, Ghost(extra): Ghost<nat>)
        requires
            n <= 5,
            old(self).pending is Some ==> old(self).pending.unwrap().0 < old(self).data@.len(),
            valid_digits(old(self).data@),
        ensures
            final(self).pending == old(self).pending,
            final(self).data@.len() >= old(self).data@.len(),
            final(self).settled(extra) == old(self).settled(extra) + digits(v as int, n as nat),
            valid_digits(final(self).data@),
    {
        push_number(&mut self.data, v, n);
        assert(self.settled(extra) =~= old(self).settled(extra) + digits(v as int, n as nat));
    }

    /// Writes a comment.
    fn push_text(&mut self, comment: &str, Ghost(extra): Ghost<nat>)
        requires
            old(self).pending is Some ==> old(self).pending.unwrap().0 < old(self).data@.len(),
            valid_digits(old(self).data@),
        ensures
            final(self).pending == old(self).pending,
            final(self).data@.len() >= old(self).data@.len(),
            final(self).settled(extra) == old(self).settled(extra) + comment_digits(comment@),
            valid_digits(final(self).data@),
    {
        push_comment(&mut self.data, comment);
        assert(self.settled(extra) =~= old(self).settled(extra) + comment_digits(comment@));
    }
}

impl Fumen {
    /// Whether the document can be written: every page can.
    pub fn can_encode(&self) -> (b: bool)
        ensures
            b == self@.encodable(),
    {
        let mut i: usize = 0;
        while i < self.pages.len()
            invariant
                0 <= i <= self.pages.len(),
                forall|k: int| 0 <= k < i ==> (#[trigger] self@.pages[k]).encodable(),
            decreases self.pages.len() - i,
        {
            if !self.pages[i].can_encode() {
                assert(!self@.pages[i as int].encodable());
                return false;
            }
            i += 1;
        }
        true
    }

    /// The text that stands for the document, or `None` for a document that
    /// cannot be written: one with a piece that has no position number, or
    /// with a piece that is to be locked outside the field.
    pub fn try_encode(&self) -> (text: Option<String>)
        ensures
            text is Some <==> self@.encodable(),
            text is Some ==> text.unwrap()@ == self@.text(),
    {
        if self.can_encode() {
            Some(self.encode())
        } else {
            None
        }
    }

    /// The text that stands for the document: the header, then the symbols
    /// of its digits.
    pub fn encode(&self) -> (text: String)
        requires
            self@.encodable(),
        ensures
            text@ == self@.text(),
    {
        let data = self.encode_digits();
        let mut bytes: Vec<u8> = Vec::new();
        // The header, "v115@".
        bytes.push(118);
        bytes.push(49);
        bytes.push(49);
        bytes.push(53);
        bytes.push(64);
        let ghost chars = self@.text();
        let mut i: usize = 0;
        while i < data.len()
            invariant
                0 <= i <= data.len(),
                valid_digits(data@),
                data@ == self@.digits(),
                chars == self@.text(),
                bytes@.len() == 5 + i,
                forall|k: int|
                    0 <= k < 5 + i ==> #[trigger] bytes@[k] < 128 && bytes@[k] as char == chars[k],
            decreases data.len() - i,
        {
            let b = to_base64(data[i]);
            bytes.push(b);
            i += 1;
        }
        proof {
            lemma_ascii_bytes(bytes@, chars);
        }
        // The bytes are ASCII, so they are always a text.
        match string_from_utf8(bytes) {
            Some(text) => text,
            None => String::new(),
        }
    }

    /// The digits that stand for the document.
    pub fn encode_digits(&self) -> (data: Vec<u8>)
        requires
            self@.encodable(),
        ensures
            data@ == self@.digits(),
            valid_digits(data@),
    {
        let ghost pages = self@.pages;
        let ghost g = self.guideline;
        let mut w = Writer { data: Vec::new(), pending: None };
        let mut prev_field = [[CellColor::Empty; 10]; 24];
        let ghost mut skip: nat = 0;
        let ghost mut opened: int = 0;
        let n: usize = self.pages.len();
        let mut i: usize = 0;
        proof {
            assert(rows_view(prev_field) =~= PageModel::blank().fumen_rows()) by {
                assert forall|r: int| 0 <= r < 24 implies rows_view(prev_field)[r]
                    =~= PageModel::blank().fumen_rows()[r] by {}
            }
            assert(w.settled(skip) + pages_digits(pages, g, 0, 0) =~= pages_digits(pages, g, 0, 0));
        }
        while i < n
            invariant
                0 <= i <= n == self.pages.len(),
                pages == self@.pages,
                g == self.guideline,
                self@.encodable(),
                cells_of_rows(rows_view(prev_field)) == baseline(pages, i as int),
                w.tracks(pages, i as int, skip, opened),
                w.settled(skip) + pages_digits(pages, g, i as int, skip) == pages_digits(
                    pages,
                    g,
                    0,
                    0,
                ),
                valid_digits(w.data@),
            decreases n - i,
        {
            let page = &self.pages[i];
            assert(pages[i as int] == page@);
            assert(pages[i as int].encodable());
            let cur = page.fumen_field();
            let grid = fumen_field_delta(prev_field, cur);
            proof {
                lemma_linear_deltas(prev_field, cur, grid);
            }
            let extra: u32 = if i == 0 && self.guideline {
                240 * 128
            } else {
                0
            };
            let ghost before = w.settled(skip);
            let ghost skip_out = next_skip(pages, i as int, skip);
            let Ghost(o) = w.push_page(
                page,
                &grid,
                extra,
                Ghost(pages),
                Ghost(g),
                Ghost(i as int),
                Ghost(skip),
                Ghost(opened),
            );
            proof {
                let part = page_digits(pages, g, i as int, skip);
                let rest = pages_digits(pages, g, i + 1, skip_out);
                assert(pages_digits(pages, g, i as int, skip) == part + rest);
                assert((before + part) + rest =~= before + (part + rest));
                skip = skip_out;
                opened = o;
            }
            prev_field = page.next_page().fumen_field();
            i += 1;
        }
        proof {
            if w.pending is Some {
                lemma_follow_count(pages, opened, 62);
            }
            assert(skip == 0);
            assert(w.settled(0) + Seq::<u8>::empty() =~= w.settled(0));
        }
        w.close();
        w.data
    }
}

} // verus!
