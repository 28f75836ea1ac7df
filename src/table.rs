//! The append-only table: rows addressed by position, packed
//! `ROWS_PER_PAGE` to a page.
use crate::pager::{disk_byte, disk_page, write_at, Pager, PAGE_SIZE};
use crate::row::{
    decode_spec, display_spec, encode_spec, field_text, invalid_text, lemma_decode_encode,
    nul_index, push_all, Row, RowView, ROW_SIZE,
};
use crate::text::decimal;
use vstd::utf8::valid_utf8;
use vstd::prelude::*;

verus! {

/// Rows held by one page.
pub const ROWS_PER_PAGE: usize = 14;

/// The page that row `i` lives on.
pub open spec fn page_of(i: int) -> int {
    i / ROWS_PER_PAGE as int
}

/// The byte offset of row `i` within its page.
pub open spec fn offset_of(i: int) -> int {
    (i % ROWS_PER_PAGE as int) * ROW_SIZE as int
}

/// The record of row `i` cut out of its page's contents.
pub open spec fn record_in(page: Seq<u8>, i: int) -> Seq<u8> {
    page.subrange(offset_of(i), offset_of(i) + ROW_SIZE)
}

/// The rows that opening the image `f` shows: `f.len() / ROW_SIZE` of them,
/// each read from its slot in its page.
pub open spec fn image_rows(f: Seq<u8>) -> Seq<RowView> {
    Seq::new(
        f.len() / ROW_SIZE as nat,
        |i: int| decode_spec(record_in(disk_page(f, page_of(i)), i)),
    )
}

/// Display forms of `rows`, one per line, in order.
pub open spec fn listing(rows: Seq<RowView>) -> Seq<u8>
    decreases rows.len(),
{
    if rows.len() == 0 {
        Seq::empty()
    } else {
        listing(rows.drop_last()) + display_spec(rows.last()) + seq![10u8]
    }
}

/// Selecting after an append prints what it printed before, then the new
/// row: rows come out in the order they went in.
pub proof fn lemma_listing_after_insert(rows: Seq<RowView>, r: RowView)
    ensures
        listing(rows.push(r)) == listing(rows) + display_spec(r) + seq![10u8],
{
    assert(rows.push(r).drop_last() =~= rows);
}

/// The listing of `a + b` is that of `a` followed by that of `b`.
pub proof fn lemma_listing_concat(a: Seq<RowView>, b: Seq<RowView>)
    ensures
        listing(a + b) == listing(a) + listing(b),
    decreases b.len(),
{
    if b.len() == 0 {
        assert(a + b =~= a);
        assert(listing(a) + listing(b) =~= listing(a));
    } else {
        lemma_listing_concat(a, b.drop_last());
        assert((a + b).drop_last() =~= a + b.drop_last());
        assert(listing(a + b) =~= listing(a) + listing(b));
    }
}

/// In a listing, the line of row `j` stands after the lines of all earlier
/// rows and before those of all later rows: rows are never reordered.
pub proof fn lemma_listing_order(rows: Seq<RowView>, j: int)
    requires
        0 <= j < rows.len(),
    ensures
        listing(rows) == listing(rows.subrange(0, j)) + display_spec(rows[j]) + seq![10u8]
            + listing(rows.subrange(j + 1, rows.len() as int)),
{
    let a = rows.subrange(0, j);
    let b = rows.subrange(j + 1, rows.len() as int);
    assert(rows =~= a.push(rows[j]) + b);
    lemma_listing_concat(a.push(rows[j]), b);
    lemma_listing_after_insert(a, rows[j]);
}

/// A row whose username is not valid text before its first zero byte is
/// listed with the placeholder in its place, and the rows after it are
/// listed as usual: a corrupt field does not stop a scan.
pub proof fn lemma_invalid_username_listed(rows: Seq<RowView>, j: int)
    requires
        0 <= j < rows.len(),
        !valid_utf8(rows[j].username.subrange(0, nul_index(rows[j].username, 0))),
    ensures
        listing(rows) == listing(rows.subrange(0, j)) + (seq![40u8] + decimal(rows[j].id as nat)
            + seq![32u8] + invalid_text() + seq![32u8] + field_text(rows[j].email) + seq![41u8])
            + seq![10u8] + listing(rows.subrange(j + 1, rows.len() as int)),
{
    lemma_listing_order(rows, j);
}

/// Bytes that `n` rows occupy in the image: whole pages, then the slots
/// used in the last page.
pub open spec fn layout_len(n: int) -> int {
    page_of(n) * PAGE_SIZE as int + offset_of(n)
}

/// The image after each loaded page below `k` is written back whole, in
/// page order.
pub open spec fn flushed(pager: Pager, f: Seq<u8>, k: nat) -> Seq<u8>
    decreases k,
{
    if k == 0 {
        f
    } else {
        let g = flushed(pager, f, (k - 1) as nat);
        if pager.loaded(k - 1) {
            write_at(g, (k - 1) * PAGE_SIZE, pager.buffer(k - 1))
        } else {
            g
        }
    }
}

proof fn lemma_slot_bounds(i: int)
    requires
        0 <= i,
    ensures
        0 <= offset_of(i),
        offset_of(i) + ROW_SIZE <= PAGE_SIZE,
        0 <= page_of(i),
        page_of(i) * ROWS_PER_PAGE + i % (ROWS_PER_PAGE as int) == i,
{
}

proof fn lemma_slots_apart(i: int, n: int)
    requires
        0 <= i < n,
        page_of(i) == page_of(n),
    ensures
        offset_of(i) + ROW_SIZE <= offset_of(n),
{
}

proof fn lemma_layout_len(n: int)
    requires
        0 <= n,
    ensures
        layout_len(n) == ROW_SIZE * n + 22 * page_of(n),
{
}

/// One write that closing issues: `data` at byte `offset` of the backing file.
pub struct PageWrite {
    pub offset: usize,
    pub data: Vec<u8>,
}

/// The image `f` after the writes `ws`, in order.
pub open spec fn apply_writes(f: Seq<u8>, ws: Seq<PageWrite>) -> Seq<u8>
    decreases ws.len(),
{
    if ws.len() == 0 {
        f
    } else {
        write_at(apply_writes(f, ws.drop_last()), ws.last().offset as int, ws.last().data@)
    }
}

proof fn lemma_flushed(pager: Pager, f: Seq<u8>, k: nat)
    requires
        pager.wf(),
    ensures
        flushed(pager, f, k).len() >= f.len(),
        flushed(pager, f, k).len() <= f.len() || flushed(pager, f, k).len() <= k * PAGE_SIZE,
        forall|p: int|
            0 <= p < k && #[trigger] pager.loaded(p) ==> flushed(pager, f, k).len() >= (p + 1)
                * PAGE_SIZE,
        forall|q: int|
            0 <= q ==> #[trigger] disk_byte(flushed(pager, f, k), q) == if q / (PAGE_SIZE as int)
                < k && pager.loaded(q / (PAGE_SIZE as int)) {
                pager.buffer(q / (PAGE_SIZE as int))[q % (PAGE_SIZE as int)]
            } else {
                disk_byte(f, q)
            },
    decreases k,
{
    if k > 0 {
        let k1 = (k - 1) as nat;
        lemma_flushed(pager, f, k1);
        let g = flushed(pager, f, k1);
        if pager.loaded(k1 as int) {
            let h = flushed(pager, f, k);
            assert(pager.buffer(k1 as int).len() == PAGE_SIZE);
            assert forall|q: int| 0 <= q implies #[trigger] disk_byte(h, q) == if q / (
            PAGE_SIZE as int) < k && pager.loaded(q / (PAGE_SIZE as int)) {
                pager.buffer(q / (PAGE_SIZE as int))[q % (PAGE_SIZE as int)]
            } else {
                disk_byte(f, q)
            } by {
                if k1 * PAGE_SIZE <= q < k * PAGE_SIZE {
                    assert(q / (PAGE_SIZE as int) == k1);
                } else {
                    assert(disk_byte(h, q) == disk_byte(g, q));
                    if q / (PAGE_SIZE as int) < k1 && pager.loaded(q / (PAGE_SIZE as int)) {
                    } else if q / (PAGE_SIZE as int) == k1 {
                    }
                }
            }
        }
    }
}

/// Tables up to this many rows read back with the row count they were
/// closed with; past it the unused tail bytes of the whole pages add up to a
/// further row's worth of length.
pub const ROUND_TRIP_ROWS: usize = ROWS_PER_PAGE * ROWS_PER_PAGE;

/// What closing leaves, for a table of any size: every row's record reads
/// back as that row from its slot; the image is no shorter than before and
/// no longer than the longer of before and the rows' layout; and where the
/// image did not already hold exactly the rows' count, it ends where the
/// rows' layout ends.
pub proof fn lemma_close_image(t: Table)
    requires
        t.wf(),
    ensures
        ({
            let n = t.view().len() as int;
            let f = t.cache().image();
            let big = t.close_image();
            &&& forall|i: int|
                0 <= i < n ==> #[trigger] decode_spec(record_in(disk_page(big, page_of(i)), i))
                    == t.view()[i]
            &&& f.len() <= big.len()
            &&& big.len() <= f.len() || big.len() <= layout_len(n)
            &&& (f.len() as int) / (ROW_SIZE as int) != n ==> f.len() <= layout_len(n)
                && big.len() == layout_len(n)
        }),
{
    let pager = t.cache();
    let f = pager.image();
    let n = t.count() as int;
    let full = t.count() / ROWS_PER_PAGE as nat;
    let rest = t.count() % ROWS_PER_PAGE as nat;
    let g = flushed(pager, f, full);
    let big = t.close_image();
    t.lemma_wf_facts();
    lemma_flushed(pager, f, full);
    lemma_layout_len(n);
    assert(full * PAGE_SIZE + rest * ROW_SIZE == layout_len(n));
    let partial = rest > 0 && pager.loaded(full as int);
    if partial {
        assert(pager.buffer(full as int).len() == PAGE_SIZE);
    }
    assert forall|q: int| 0 <= q implies #[trigger] disk_byte(big, q) == if partial && full
        * PAGE_SIZE <= q < full * PAGE_SIZE + rest * ROW_SIZE {
        pager.buffer(full as int)[q - full * PAGE_SIZE]
    } else {
        disk_byte(g, q)
    } by {}
    if (f.len() as int) / (ROW_SIZE as int) != n {
        assert(n > 0 && pager.loaded(page_of(n - 1)));
        if rest > 0 {
            assert(page_of(n - 1) == full);
        } else {
            assert(page_of(n - 1) == full - 1);
        }
    }
    assert forall|i: int| 0 <= i < n implies #[trigger] record_in(disk_page(big, page_of(i)), i)
        == record_in(pager.page_view(page_of(i)), i) by {
        lemma_slot_bounds(i);
        let p = page_of(i);
        assert forall|j: int| 0 <= j < ROW_SIZE implies #[trigger] disk_page(big, p)[offset_of(i) + j]
            == pager.page_view(p)[offset_of(i) + j] by {
            let q = p * PAGE_SIZE + offset_of(i) + j;
            assert(q / (PAGE_SIZE as int) == p);
            assert(q % (PAGE_SIZE as int) == offset_of(i) + j);
            if p == full {
                assert(offset_of(i) + j < rest * ROW_SIZE);
            }
        }
        assert(record_in(disk_page(big, p), i) =~= record_in(pager.page_view(p), i));
    }
    assert forall|i: int| 0 <= i < n implies #[trigger] decode_spec(
        record_in(disk_page(big, page_of(i)), i),
    ) == t.view()[i] by {
        assert(record_in(disk_page(big, page_of(i)), i) == record_in(pager.page_view(page_of(i)), i));
    }
}

/// Closing a table and opening the image it leaves gives back exactly the
/// same rows in the same order, for tables of fewer than `ROUND_TRIP_ROWS`
/// rows.
pub proof fn lemma_close_then_reopen(t: Table)
    requires
        t.wf(),
        t.view().len() < ROUND_TRIP_ROWS,
    ensures
        image_rows(t.close_image()) == t.view(),
{
    let n = t.view().len() as int;
    let f = t.cache().image();
    let big = t.close_image();
    lemma_close_image(t);
    lemma_layout_len(n);
    assert(big.len() / ROW_SIZE as nat == n);
    assert(image_rows(big) =~= t.view());
}

/// The record written into a page by an insert reads back as the row that
/// was inserted, whatever the page held before.
pub proof fn lemma_inserted_record_reads_back(before: Seq<u8>, n: int, r: RowView)
    requires
        before.len() == PAGE_SIZE,
        0 <= n,
        r.wf(),
    ensures
        decode_spec(
            record_in(
                before.subrange(0, offset_of(n)) + encode_spec(r) + before.subrange(
                    offset_of(n) + ROW_SIZE,
                    PAGE_SIZE as int,
                ),
                n,
            ),
        ) == r,
{
    lemma_slot_bounds(n);
    lemma_decode_encode(r);
    let page = before.subrange(0, offset_of(n)) + encode_spec(r) + before.subrange(
        offset_of(n) + ROW_SIZE,
        PAGE_SIZE as int,
    );
    assert(record_in(page, n) =~= encode_spec(r));
}

/// Why an insert was refused.
#[derive(Debug)]
pub enum InsertError {
    /// The new row's page would lie past the addressable range.
    PageOutOfRange,
}

/// Row count and page cache.
pub struct Table {
    row_count: usize,
    pager: Pager,
}

impl Table {
    pub closed spec fn count(&self) -> nat {
        self.row_count as nat
    }

    pub closed spec fn cache(&self) -> Pager {
        self.pager
    }

    /// The rows, in insertion order.
    pub open spec fn view(&self) -> Seq<RowView> {
        Seq::new(
            self.count(),
            |i: int| decode_spec(record_in(self.cache().page_view(page_of(i)), i)),
        )
    }

    /// The image that closing this table leaves: every loaded whole page
    /// written back in full, then the used part of a loaded trailing page.
    pub open spec fn close_image(&self) -> Seq<u8> {
        let pager = self.cache();
        let full = self.count() / ROWS_PER_PAGE as nat;
        let rest = self.count() % ROWS_PER_PAGE as nat;
        let g = flushed(pager, pager.image(), full);
        if rest > 0 && pager.loaded(full as int) {
            write_at(g, full * PAGE_SIZE, pager.buffer(full as int).subrange(0, rest * ROW_SIZE))
        } else {
            g
        }
    }

    /// The image covers no more than the row count says, unless the last row's
    /// page is resident and the image is no longer than the rows' layout.
    pub closed spec fn image_consistent(&self) -> bool {
        let n = self.row_count as int;
        let len = self.pager.image().len() as int;
        ||| len / ROW_SIZE as int == n
        ||| (n > 0 && self.pager.loaded(page_of(n - 1)) && len <= layout_len(n))
    }

    /// The cache is well formed, every page offset stays addressable, and the
    /// image is consistent with the row count.
    pub closed spec fn wf(&self) -> bool {
        &&& self.pager.wf()
        &&& page_of(self.row_count as int) < usize::MAX / PAGE_SIZE
        &&& self.image_consistent()
    }

    proof fn lemma_wf_facts(&self)
        requires
            self.wf(),
        ensures
            self.cache().wf(),
            ({
                let n = self.count() as int;
                let len = self.cache().image().len() as int;
                ||| len / ROW_SIZE as int == n
                ||| (n > 0 && self.cache().loaded(page_of(n - 1)) && len <= layout_len(n))
            }),
    {
    }

    /// Number of rows.
    pub fn row_count(&self) -> (r: usize)
        ensures
            r == self.view().len(),
    {
        self.row_count
    }

    /// A table over the image `file`, holding `file.len() / ROW_SIZE` rows.
    pub fn new(file: Vec<u8>) -> (r: Table)
        requires
            file@.len() <= isize::MAX,
        ensures
            r.wf(),
            r.cache().wf(),
            r.view() == image_rows(file@),
            r.cache().image() == file@,
            r.cache().slots() == (file@.len() + PAGE_SIZE - 1) as int / PAGE_SIZE as int,
            forall|p: int| !#[trigger] r.cache().loaded(p),
    {
        let row_count = file.len() / ROW_SIZE;
        let pager = Pager::new(file);
        let r = Table { row_count, pager };
        assert(r.view() =~= image_rows(file@));
        r
    }

    /// `after` is this table with `row` appended: one page made resident,
    /// the row's encoding written into its slot, everything else as it was.
    pub open spec fn appended(&self, after: Table, row: RowView) -> bool {
        let n = self.view().len() as int;
        let q = page_of(n);
        let before = self.cache().page_view(q);
        &&& after.wf()
        &&& after.view() == self.view().push(row)
        &&& after.cache().image() == self.cache().image()
        &&& after.cache().wf()
        &&& after.cache().loaded(q)
        &&& after.cache().slots() == if q < self.cache().slots() {
            self.cache().slots() as int
        } else {
            q + 1
        }
        &&& forall|p: int|
            p != q ==> #[trigger] after.cache().loaded(p) == self.cache().loaded(p)
                && after.cache().page_view(p) == self.cache().page_view(p)
        &&& after.cache().buffer(q) == before.subrange(0, offset_of(n)) + encode_spec(row)
            + before.subrange(offset_of(n) + ROW_SIZE, PAGE_SIZE as int)
    }

    /// Appends `row` at the logical end; fails, changing nothing, where the
    /// page after the new row's would not be addressable.
    pub fn insert(&mut self, row: &Row) -> (r: Result<(), InsertError>)
        requires
            old(self).wf(),
            row.wf(),
        ensures
            r is Err <==> page_of(old(self).view().len() as int + 1) >= usize::MAX / PAGE_SIZE,
            r is Err ==> *final(self) == *old(self),
            r is Ok ==> old(self).appended(*final(self), row@),
    {
        if (self.row_count + 1) / ROWS_PER_PAGE >= usize::MAX / PAGE_SIZE {
            return Err(InsertError::PageOutOfRange);
        }
        self.append(row);
        Ok(())
    }

    fn append(&mut self, row: &Row)
        requires
            old(self).wf(),
            row.wf(),
            page_of(old(self).view().len() as int + 1) < usize::MAX / PAGE_SIZE,
        ensures
            old(self).appended(*final(self), row@),
    {
        let page_num = self.row_count / ROWS_PER_PAGE;
        let byte_offset = (self.row_count % ROWS_PER_PAGE) * ROW_SIZE;
        proof {
            lemma_slot_bounds(self.row_count as int);
        }
        self.pager.get_page(page_num);
        let bytes = row.encode();
        let ghost mid = self.pager;
        self.pager.write_page(page_num, byte_offset, bytes.as_slice());
        self.row_count = self.row_count + 1;
        proof {
            let n = old(self).row_count as int;
            assert(mid.loaded(page_of(n)));
            assert(mid.buffer(page_of(n)) == mid.page_view(page_of(n)));
            assert(mid.page_view(page_of(n)) == old(self).pager.page_view(page_of(n)));
            assert forall|p: int| p != page_of(n) implies #[trigger] self.pager.loaded(p)
                == old(self).pager.loaded(p) && self.pager.page_view(p) == old(
                self,
            ).pager.page_view(p) by {
                assert(self.pager.loaded(p) == mid.loaded(p));
                assert(mid.page_view(p) == old(self).pager.page_view(p));
            }
            lemma_decode_encode(row@);
            assert(record_in(self.pager.page_view(page_of(n)), n) =~= bytes@);
            assert forall|i: int| 0 <= i < n implies record_in(
                #[trigger] self.pager.page_view(page_of(i)),
                i,
            ) == record_in(old(self).pager.page_view(page_of(i)), i) by {
                lemma_slot_bounds(i);
                if page_of(i) == page_of(n) {
                    lemma_slots_apart(i, n);
                    assert(record_in(self.pager.page_view(page_of(i)), i) =~= record_in(
                        mid.page_view(page_of(i)),
                        i,
                    ));
                }
            }
            assert(self.view() =~= old(self).view().push(row@));
            lemma_layout_len(n);
            lemma_layout_len(n + 1);
            assert(page_of(n) == page_of(n + 1 - 1));
        }
    }

    /// Decodes row `index`, loading its page if needed.
    pub fn deserialize_row(&mut self, index: usize) -> (r: Row)
        requires
            old(self).wf(),
            index < old(self).view().len(),
        ensures
            final(self).wf(),
            final(self).view() == old(self).view(),
            final(self).cache().image() == old(self).cache().image(),
            r@ == old(self).view()[index as int],
            r.wf(),
            final(self).cache().wf(),
            final(self).cache().loaded(page_of(index as int)),
            final(self).cache().slots() == if page_of(index as int) < old(self).cache().slots() {
                old(self).cache().slots() as int
            } else {
                page_of(index as int) + 1
            },
            forall|p: int|
                p != page_of(index as int) ==> #[trigger] final(self).cache().loaded(p)
                    == old(self).cache().loaded(p),
            forall|p: int| #[trigger] final(self).cache().page_view(p) == old(self).cache().page_view(
                p,
            ),
    {
        let page_num = index / ROWS_PER_PAGE;
        let byte_offset = (index % ROWS_PER_PAGE) * ROW_SIZE;
        proof {
            lemma_slot_bounds(index as int);
        }
        self.pager.get_page(page_num);
        let r = Row::decode(self.pager.page(page_num), byte_offset);
        proof {
            assert(self.view() =~= old(self).view());
            assert(page_of(self.row_count - 1) == page_of(old(self).row_count - 1));
        }
        r
    }

    /// Writes the display form of every row, each followed by a newline, in
    /// insertion order.
    pub fn select(&mut self, output: &mut Vec<u8>)
        requires
            old(self).wf(),
        ensures
            final(self).wf(),
            final(self).view() == old(self).view(),
            final(self).cache().image() == old(self).cache().image(),
            final(output)@ == old(output)@ + listing(old(self).view()),
            final(self).cache().wf(),
            forall|p: int| #[trigger] final(self).cache().page_view(p) == old(self).cache().page_view(
                p,
            ),
            ({
                let n = old(self).view().len() as int;
                let last = page_of(n - 1);
                &&& forall|p: int| #[trigger] final(self).cache().loaded(p) == (old(
                    self,
                ).cache().loaded(p) || (n > 0 && 0 <= p <= last))
                &&& final(self).cache().slots() == if n > 0 && old(self).cache().slots() <= last {
                    last + 1
                } else {
                    old(self).cache().slots() as int
                }
            }),
    {
        let ghost rows = self.view();
        let mut i: usize = 0;
        while i < self.row_count
            invariant
                self.wf(),
                self.view() == rows,
                self.cache().image() == old(self).cache().image(),
                rows == old(self).view(),
                self.row_count == rows.len(),
                forall|p: int| #[trigger] self.cache().page_view(p) == old(self).cache().page_view(
                    p,
                ),
                forall|p: int| #[trigger] self.cache().loaded(p) == (old(self).cache().loaded(p) || (
                i > 0 && 0 <= p <= page_of(i - 1))),
                self.cache().slots() == if i > 0 && old(self).cache().slots() <= page_of(i - 1) {
                    page_of(i - 1) + 1
                } else {
                    old(self).cache().slots() as int
                },
                i <= rows.len(),
                output@ == old(output)@ + listing(rows.subrange(0, i as int)),
            decreases rows.len() - i,
        {
            let row = self.deserialize_row(i);
            let text = row.display();
            push_all(output, text.as_slice());
            output.push(10);
            i = i + 1;
            proof {
                assert(rows.subrange(0, i as int).drop_last() =~= rows.subrange(0, i - 1));
            }
        }
        proof {
            assert(rows.subrange(0, i as int) =~= rows);
        }
    }

    /// Writes back every resident whole page in full and the used part of a
    /// resident trailing page, and returns those writes in the order made.
    /// The table is not to be used afterwards.
    pub fn close(&mut self) -> (r: Vec<PageWrite>)
        requires
            old(self).wf(),
        ensures
            final(self).cache().image() == old(self).close_image(),
            apply_writes(old(self).cache().image(), r@) == old(self).close_image(),
            final(self).view().len() == old(self).view().len(),
            final(self).cache().wf(),
            final(self).cache().slots() == old(self).cache().slots(),
            forall|p: int| #[trigger] final(self).cache().loaded(p) == old(self).cache().loaded(p),
            forall|p: int| #[trigger] final(self).cache().buffer(p) == old(self).cache().buffer(p),
    {
        let ghost pager0 = self.pager;
        let ghost f0 = self.pager.image();
        let full_page_count = self.row_count / ROWS_PER_PAGE;
        let mut writes: Vec<PageWrite> = Vec::new();
        let mut i: usize = 0;
        while i < full_page_count
            invariant
                self.pager.wf(),
                self.row_count == old(self).row_count,
                full_page_count == self.row_count / ROWS_PER_PAGE,
                full_page_count < usize::MAX / PAGE_SIZE,
                i <= full_page_count,
                self.pager.slots() == pager0.slots(),
                forall|p: int| #[trigger] self.pager.loaded(p) == pager0.loaded(p),
                forall|p: int| #[trigger] self.pager.buffer(p) == pager0.buffer(p),
                pager0.wf(),
                pager0 == old(self).pager,
                f0 == pager0.image(),
                self.pager.image() == flushed(pager0, f0, i as nat),
                self.pager.image() == apply_writes(f0, writes@),
            decreases full_page_count - i,
        {
            let ghost before = self.pager.image();
            let ghost ws = writes@;
            if self.pager.is_loaded(i) {
                self.pager.flush_page(i, PAGE_SIZE);
                let data = self.pager.page_prefix(i, PAGE_SIZE);
                writes.push(PageWrite { offset: i * PAGE_SIZE, data });
                proof {
                    assert(pager0.buffer(i as int).subrange(0, PAGE_SIZE as int) =~= pager0.buffer(
                        i as int,
                    ));
                    assert(writes@.drop_last() =~= ws);
                }
            }
            i = i + 1;
        }
        let additional_row_count = self.row_count % ROWS_PER_PAGE;
        if additional_row_count > 0 {
            let ghost ws = writes@;
            if self.pager.is_loaded(full_page_count) {
                let size = additional_row_count * ROW_SIZE;
                self.pager.flush_page(full_page_count, size);
                let data = self.pager.page_prefix(full_page_count, size);
                writes.push(PageWrite { offset: full_page_count * PAGE_SIZE, data });
                proof {
                    assert(writes@.drop_last() =~= ws);
                }
            }
        }
        writes
    }

    /// Gives up the table, handing back the backing image.
    pub fn into_file(self) -> (r: Vec<u8>)
        ensures
            r@ == self.cache().image(),
    {
        self.pager.into_file()
    }

    /// The backing image as it stands.
    pub fn file(&self) -> (r: &Vec<u8>)
        ensures
            r@ == self.cache().image(),
    {
        self.pager.file()
    }
}

} // verus!
