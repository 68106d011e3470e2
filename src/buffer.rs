//! Transaction-scoped staging buffers: one per touched row of an array.
use crate::geometry::{lemma_div_le, lemma_split, MemArray};
use crate::store::{lemma_same_contents_trans, same_contents, ElementStore};
use vstd::prelude::*;
use vstd::slice::slice_subrange;

verus! {

/// The window of one row of an array that a transaction touches, staged as bytes.
///
/// `buffer` holds the elements `head_idx ..= tail_idx` of `row`, in order.
#[derive(Debug)]
pub struct RowBuffer {
    pub row: usize,
    pub head_idx: usize,
    pub tail_idx: usize,
    pub head_unaligned: bool,
    pub tail_unaligned: bool,
    pub buffer: Vec<u8>,
}

/// The byte offset one past the last byte of a transaction of `len` bytes at `offset`.
pub open spec fn last_offset(offset: nat, len: nat) -> nat {
    (offset + len - 1) as nat
}

/// The row buffer that `RowBufferSet::new(a, offset, len)` builds for `row`.
pub open spec fn row_plan(a: &MemArray, offset: nat, len: nat, row: nat, b: RowBuffer) -> bool {
    let end = last_offset(offset, len);
    let first = row == a.row_of(offset);
    let last = row == a.row_of(end);
    let w = a.width as nat;
    &&& b.row == row
    &&& b.head_idx == (if first { a.col_of(offset) } else { 0 })
    &&& b.tail_idx == (if last { a.col_of(end) } else { (a.dim.cols - 1) as nat })
    &&& b.head_unaligned == (first && a.byte_of(offset) != 0)
    &&& b.tail_unaligned == (last && a.byte_of(end) != w - 1 && !(b.head_unaligned && b.head_idx
        == b.tail_idx))
    &&& b.head_idx <= b.tail_idx < a.dim.cols
    &&& b.buffer@.len() == (b.tail_idx - b.head_idx + 1) * w
}

/// All zeros.
pub open spec fn zeroed(s: Seq<u8>) -> bool {
    forall|i: int| 0 <= i < s.len() ==> s[i] == 0
}

fn zeros(n: usize) -> (r: Vec<u8>)
    ensures
        r@.len() == n,
        zeroed(r@),
{
    let mut r: Vec<u8> = Vec::new();
    while r.len() < n
        invariant
            r@.len() <= n,
            zeroed(r@),
        decreases n - r.len(),
    {
        r.push(0);
    }
    r
}

/// `dst` with `src` copied over it from `at`.
pub open spec fn copied(dst: Seq<u8>, at: nat, src: Seq<u8>) -> Seq<u8> {
    Seq::new(
        dst.len(),
        |i: int|
            if at <= i < at + src.len() {
                src[i - at]
            } else {
                dst[i]
            },
    )
}

fn copy_into(dst: &mut Vec<u8>, at: usize, src: &Vec<u8>)
    requires
        at + src@.len() <= old(dst)@.len(),
    ensures
        final(dst)@ == copied(old(dst)@, at as nat, src@),
{
    let n = dst.len();
    let mut i: usize = 0;
    while i < src.len()
        invariant
            at + src@.len() <= dst@.len(),
            dst@.len() == n,
            i <= src@.len(),
            dst@.len() == old(dst)@.len(),
            forall|x: int|
                0 <= x < dst@.len() ==> #[trigger] dst@[x] == (if at <= x < at + i {
                    src@[x - at]
                } else {
                    old(dst)@[x]
                }),
        decreases src@.len() - i,
    {
        dst[at + i] = src[i];
        i = i + 1;
    }
    assert(dst@ =~= copied(old(dst)@, at as nat, src@));
}

/// Byte `j` of column `c` lies in the element slot of column `t` exactly when `c == t`.
pub proof fn lemma_slot(h: nat, c: nat, t: nat, j: nat, w: nat)
    requires
        h <= c,
        h <= t,
        j < w,
    ensures
        ((t - h) * w <= (c - h) * w + j < (t - h) * w + w) <==> c == t,
        (c - h) * w + j - (t - h) * w == j <== c == t,
{
    if c < t {
        assert((c - h) * w + j < (t - h) * w) by (nonlinear_arith)
            requires
                h <= c < t,
                j < w,
        ;
    } else if c > t {
        assert((c - h) * w + j >= (t - h) * w + w) by (nonlinear_arith)
            requires
                h <= t < c,
        ;
    }
}

/// Position of byte `j` of column `c` lies within a window of columns `h ..= t`.
pub proof fn lemma_pos_bound(h: nat, c: nat, t: nat, j: nat, w: nat)
    requires
        h <= c <= t,
        j < w,
    ensures
        (c - h) * w + j < (t - h + 1) * w,
{
    assert((c - h) * w + j < (t - h + 1) * w) by (nonlinear_arith)
        requires
            h <= c <= t,
            j < w,
    ;
}

/// Position of byte `j` of column `c` in a window that starts at column `h`.
pub open spec fn slot_pos(h: nat, w: nat, c: nat, j: nat) -> nat {
    ((c - h) * w + j) as nat
}

/// The slot of column `c` holds the staged bytes of that column.
pub proof fn lemma_slot_index(b: RowBuffer, w: nat, c: nat, j: nat)
    requires
        b.head_idx <= c <= b.tail_idx,
        j < w,
        b.buffer@.len() == (b.tail_idx - b.head_idx + 1) * w,
    ensures
        b.slot(w, c).len() == w,
        b.slot(w, c)[j as int] == b.staged(w, c, j),
{
    let h = b.head_idx as nat;
    let t = b.tail_idx as nat;
    assert((c - h) * w + w <= (t - h + 1) * w) by (nonlinear_arith)
        requires
            h <= c <= t,
    ;
}

impl RowBuffer {
    /// Position in `buffer` of byte `j` of the element in column `col`.
    pub open spec fn pos(&self, w: nat, col: nat, j: nat) -> nat {
        slot_pos(self.head_idx as nat, w, col, j)
    }

    /// The column `col` is one that a priming read fills.
    pub open spec fn primed(&self, col: nat) -> bool {
        (self.head_unaligned && col == self.head_idx) || (self.tail_unaligned && col
            == self.tail_idx)
    }

    /// Same window and flags as `other`.
    pub open spec fn same_shape(&self, other: RowBuffer) -> bool {
        &&& self.row == other.row
        &&& self.head_idx == other.head_idx
        &&& self.tail_idx == other.tail_idx
        &&& self.head_unaligned == other.head_unaligned
        &&& self.tail_unaligned == other.tail_unaligned
        &&& self.buffer@.len() == other.buffer@.len()
    }
}

impl RowBuffer {
    /// Byte `j` of the element in column `c` as staged.
    pub open spec fn staged(&self, w: nat, c: nat, j: nat) -> u8 {
        self.buffer@[self.pos(w, c, j) as int]
    }

    /// The staged bytes of the element in column `c`.
    pub open spec fn slot(&self, w: nat, c: nat) -> Seq<u8> {
        self.buffer@.subrange(self.pos(w, c, 0) as int, (self.pos(w, c, 0) + w) as int)
    }

    /// The buffer spans the window `head_idx ..= tail_idx` of an array row.
    pub open spec fn wf(&self, a: &MemArray) -> bool {
        &&& self.head_idx <= self.tail_idx < a.dim.cols
        &&& self.row < a.dim.rows
        &&& self.buffer@.len() == (self.tail_idx - self.head_idx + 1) * (a.width as nat)
    }

    /// The staged byte of byte `offset` of the array.
    pub fn get_data(&self, array: &MemArray, offset: usize) -> (r: u8)
        requires
            array.wf(),
            array.pow2_width(),
            self.wf(array),
            self.head_idx <= array.col_of(offset as nat) <= self.tail_idx,
        ensures
            r == self.staged(array.width as nat, array.col_of(offset as nat), array.byte_of(offset as nat)),
    {
        let c = array.col(offset);
        let j = array.idx_byte(offset);
        proof {
            lemma_pos_bound(self.head_idx as nat, c as nat, self.tail_idx as nat, j as nat, array.width as nat);
            lemma_window_fits(array, (self.tail_idx - self.head_idx + 1) as nat);
        }
        self.buffer[(c - self.head_idx) * array.width + j]
    }

    /// Stages `data` as byte `offset` of the array.
    pub fn set_data(&mut self, array: &MemArray, offset: usize, data: u8)
        requires
            array.wf(),
            array.pow2_width(),
            old(self).wf(array),
            old(self).head_idx <= array.col_of(offset as nat) <= old(self).tail_idx,
        ensures
            final(self).same_shape(*old(self)),
            final(self).buffer@ == old(self).buffer@.update(
                old(self).pos(array.width as nat, array.col_of(offset as nat), array.byte_of(offset as nat)) as int,
                data,
            ),
    {
        let c = array.col(offset);
        let j = array.idx_byte(offset);
        proof {
            lemma_pos_bound(self.head_idx as nat, c as nat, self.tail_idx as nat, j as nat, array.width as nat);
            lemma_window_fits(array, (self.tail_idx - self.head_idx + 1) as nat);
        }
        self.buffer[(c - self.head_idx) * array.width + j] = data;
    }

    /// Reads the unaligned boundary elements from the store into their slots.
    pub fn sync_partial<S: ElementStore>(&mut self, array: &MemArray, store: &mut S)
        requires
            array.wf(),
            old(self).wf(array),
        ensures
            final(self).same_shape(*old(self)),
            forall|c: nat, j: nat|
                old(self).head_idx <= c <= old(self).tail_idx && j < array.width ==> #[trigger] final(self).staged(array.width as nat, c, j)
                    == if old(self).primed(c) {
                    old(store).element(array.path@, old(self).row as nat, c, array.width as nat)[j as int]
                } else {
                    old(self).staged(array.width as nat, c, j)
                },
            same_contents(*final(store), *old(store)),
            final(store).element_reads() == old(store).element_reads() + row_primes(*old(self), array),
            other_logs_kept(*final(store), *old(store)),
    {
        let ghost w = array.width as nat;
        let ghost h = self.head_idx as nat;
        let ghost t = self.tail_idx as nat;
        let ghost b0 = self.buffer@;
        proof {
            lemma_window_fits(array, (t - h + 1) as nat);
            assert((t - h) * w + w == (t - h + 1) * w) by (nonlinear_arith);
            assert(w <= (t - h + 1) * w) by (nonlinear_arith)
                requires
                    h <= t,
            ;
        }
        let ghost eh = old(store).element(array.path@, self.row as nat, h, w);
        if self.head_unaligned {
            let e = store.read_element(array, self.row, self.head_idx);
            copy_into(&mut self.buffer, 0, &e);
            assert(self.buffer@ == copied(b0, 0, eh));
            assert(eh.len() == w);
        } else {
            assert(self.buffer@ == b0);
        }
        proof {
            assert forall|c: nat, j: nat| h <= c <= t && j < w implies #[trigger] self.buffer@[slot_pos(h, w, c, j) as int]
                == if self.head_unaligned && c == h {
                old(store).element(array.path@, self.row as nat, c, w)[j as int]
            } else {
                b0[slot_pos(h, w, c, j) as int]
            } by {
                lemma_slot(h, c, h, j, w);
                lemma_pos_bound(h, c, t, j, w);
                let p = slot_pos(h, w, c, j);
                assert(p < b0.len());
                if self.head_unaligned {
                    assert(self.buffer@ == copied(b0, 0, eh));
                    if c == h {
                        assert((c - h) * w == 0) by (nonlinear_arith)
                            requires
                                c == h,
                        ;
                        assert(p == j);
                    } else {
                        assert(p >= w);
                    }
                }
            }
        }
        let ghost b1 = self.buffer@;
        let ghost mid = *store;
        let ghost et = old(store).element(array.path@, self.row as nat, t, w);
        if self.tail_unaligned {
            let e = store.read_element(array, self.row, self.tail_idx);
            let buffer_end = self.buffer.len();
            copy_into(&mut self.buffer, buffer_end - array.width, &e);
            assert(self.buffer@ == copied(b1, ((t - h) * w) as nat, et));
        } else {
            assert(self.buffer@ == b1);
        }
        proof {
            lemma_same_contents_trans(*store, mid, *old(store));
            assert(store.element_reads() =~= old(store).element_reads() + row_primes(*old(self), array));
            assert forall|c: nat, j: nat| h <= c <= t && j < w implies #[trigger] self.buffer@[slot_pos(h, w, c, j) as int]
                == if self.tail_unaligned && c == t {
                old(store).element(array.path@, self.row as nat, c, w)[j as int]
            } else {
                b1[slot_pos(h, w, c, j) as int]
            } by {
                lemma_slot(h, c, t, j, w);
                lemma_pos_bound(h, c, t, j, w);
            }
            assert forall|c: nat, j: nat| h <= c <= t && j < w implies #[trigger] self.staged(w, c, j)
                == if self.primed(c) {
                old(store).element(array.path@, self.row as nat, c, w)[j as int]
            } else {
                b0[self.pos(w, c, j) as int]
            } by {
                assert(self.staged(w, c, j) == self.buffer@[slot_pos(h, w, c, j) as int]);
            }
        }
    }

    /// Reads every element of the window from the store into its slot.
    pub fn sync_all<S: ElementStore>(&mut self, array: &MemArray, store: &mut S)
        requires
            array.wf(),
            old(self).wf(array),
        ensures
            final(self).same_shape(*old(self)),
            forall|c: nat, j: nat|
                old(self).head_idx <= c <= old(self).tail_idx && j < array.width ==> #[trigger] final(self).staged(array.width as nat, c, j)
                    == old(store).element(array.path@, old(self).row as nat, c, array.width as nat)[j as int],
            forall|c: nat|
                old(self).head_idx <= c <= old(self).tail_idx ==> (#[trigger] old(store).element(array.path@, old(self).row as nat, c, array.width as nat)).len()
                    == array.width,
            same_contents(*final(store), *old(store)),
            final(store).element_reads() == old(store).element_reads() + row_elements(*old(self), array),
            other_logs_kept(*final(store), *old(store)),
    {
        let ghost w = array.width as nat;
        let ghost h = self.head_idx as nat;
        let ghost t = self.tail_idx as nat;
        proof {
            lemma_window_fits(array, (t - h + 1) as nat);
        }
        let mut i = self.head_idx;
        while i <= self.tail_idx
            invariant
                array.wf(),
                h == self.head_idx,
                t == self.tail_idx,
                w == array.width,
                self.wf(array),
                self.same_shape(*old(self)),
                h <= i <= t + 1,
                (t - h + 1) * w <= array.size_spec(),
                forall|c: nat, j: nat|
                    h <= c < i && j < w ==> #[trigger] self.staged(w, c, j)
                        == old(store).element(array.path@, self.row as nat, c, w)[j as int],
                forall|c: nat| h <= c < i ==> (#[trigger] old(store).element(array.path@, self.row as nat, c, w)).len() == w,
                same_contents(*store, *old(store)),
                store.element_reads() == old(store).element_reads() + Seq::new(
                    (i - h) as nat,
                    |x: int| (array.path@, self.row as nat, (h + x) as nat),
                ),
                other_logs_kept(*store, *old(store)),
            decreases t + 1 - i,
        {
            let ghost pre = *store;
            let e = store.read_element(array, self.row, i);
            proof {
                lemma_same_contents_trans(*store, pre, *old(store));
                assert(Seq::new((i + 1 - h) as nat, |x: int| (array.path@, self.row as nat, (h + x) as nat))
                    =~= Seq::new((i - h) as nat, |x: int| (array.path@, self.row as nat, (h + x) as nat)).push(
                    (array.path@, self.row as nat, i as nat),
                ));
            }
            let ghost before = *self;
            proof {
                lemma_pos_bound(h, i as nat, t, 0, w);
                assert((i - h) * w + w <= (t - h + 1) * w) by (nonlinear_arith)
                    requires
                        h <= i <= t,
                ;
            }
            let buffer_idx = (i - self.head_idx) * array.width;
            copy_into(&mut self.buffer, buffer_idx, &e);
            proof {
                assert forall|c: nat, j: nat| h <= c < i + 1 && j < w implies #[trigger] self.staged(w, c, j)
                    == old(store).element(array.path@, self.row as nat, c, w)[j as int] by {
                    lemma_slot(h, c, i as nat, j, w);
                    lemma_pos_bound(h, c, t, j, w);
                    assert(before.staged(w, c, j) == before.buffer@[self.pos(w, c, j) as int]);
                }
            }
            i = i + 1;
        }
        assert(store.element_reads() =~= old(store).element_reads() + row_elements(*old(self), array));
    }

    /// Writes every element of the window from its slot to the store.
    pub fn flush<S: ElementStore>(&self, array: &MemArray, store: &mut S)
        requires
            array.wf(),
            self.wf(array),
        ensures
            forall|c: nat|
                self.head_idx <= c <= self.tail_idx ==> #[trigger] final(store).element(array.path@, self.row as nat, c, array.width as nat)
                    == self.slot(array.width as nat, c),
            forall|p: Seq<char>, r: nat, c: nat, w: nat|
                !(p == array.path@ && r == self.row && self.head_idx <= c <= self.tail_idx)
                    ==> #[trigger] final(store).element(p, r, c, w) == old(store).element(p, r, c, w),
            forall|n: Seq<char>, o: nat| #[trigger] final(store).byte(n, o) == old(store).byte(n, o),
            final(store).element_writes() == old(store).element_writes() + row_elements(*self, array),
            final(store).byte_writes() == old(store).byte_writes(),
            final(store).element_reads() == old(store).element_reads(),
            final(store).byte_reads() == old(store).byte_reads(),
    {
        let ghost w = array.width as nat;
        let ghost h = self.head_idx as nat;
        let ghost t = self.tail_idx as nat;
        proof {
            lemma_window_fits(array, (t - h + 1) as nat);
        }
        let mut i = self.head_idx;
        while i <= self.tail_idx
            invariant
                array.wf(),
                h == self.head_idx,
                t == self.tail_idx,
                w == array.width,
                self.wf(array),
                h <= i <= t + 1,
                (t - h + 1) * w <= array.size_spec(),
                forall|c: nat|
                    h <= c < i ==> #[trigger] store.element(array.path@, self.row as nat, c, w)
                        == self.slot(w, c),
                forall|p: Seq<char>, r: nat, c: nat, w2: nat|
                    !(p == array.path@ && r == self.row && h <= c < i)
                        ==> #[trigger] store.element(p, r, c, w2) == old(store).element(p, r, c, w2),
                forall|n: Seq<char>, o: nat| #[trigger] store.byte(n, o) == old(store).byte(n, o),
                store.element_writes() == old(store).element_writes() + Seq::new(
                    (i - h) as nat,
                    |x: int| (array.path@, self.row as nat, (h + x) as nat),
                ),
                store.byte_writes() == old(store).byte_writes(),
                store.element_reads() == old(store).element_reads(),
                store.byte_reads() == old(store).byte_reads(),
            decreases t + 1 - i,
        {
            proof {
                assert((i - h) * w + w <= (t - h + 1) * w) by (nonlinear_arith)
                    requires
                        h <= i <= t,
                ;
            }
            let buffer_idx = (i - self.head_idx) * array.width;
            let data = slice_subrange(self.buffer.as_slice(), buffer_idx, buffer_idx + array.width);
            let ghost log0 = store.element_writes();
            store.write_element(array, self.row, i, data);
            proof {
                assert(Seq::new((i + 1 - h) as nat, |x: int| (array.path@, self.row as nat, (h + x) as nat))
                    =~= Seq::new((i - h) as nat, |x: int| (array.path@, self.row as nat, (h + x) as nat)).push(
                    (array.path@, self.row as nat, i as nat),
                ));
                assert(store.element_writes() =~= old(store).element_writes() + Seq::new(
                    (i + 1 - h) as nat,
                    |x: int| (array.path@, self.row as nat, (h + x) as nat),
                ));
            }
            i = i + 1;
        }
        assert(store.element_writes() =~= old(store).element_writes() + row_elements(*self, array));
    }
}

/// The elements of the window of `b`, in column order: what flushing it writes and
/// what reading all of it reads.
pub open spec fn row_elements(b: RowBuffer, a: &MemArray) -> Seq<(Seq<char>, nat, nat)> {
    Seq::new((b.tail_idx - b.head_idx + 1) as nat, |i: int| (a.path@, b.row as nat, (b.head_idx + i) as nat))
}

/// The priming reads of `b`: its first element if its head is unaligned, then its
/// last element if its tail is.
pub open spec fn row_primes(b: RowBuffer, a: &MemArray) -> Seq<(Seq<char>, nat, nat)> {
    (if b.head_unaligned {
        seq![(a.path@, b.row as nat, b.head_idx as nat)]
    } else {
        Seq::empty()
    }) + (if b.tail_unaligned {
        seq![(a.path@, b.row as nat, b.tail_idx as nat)]
    } else {
        Seq::empty()
    })
}

/// The priming reads of the buffers `bufs`, buffer by buffer.
pub open spec fn set_primes(a: &MemArray, bufs: Seq<RowBuffer>) -> Seq<(Seq<char>, nat, nat)>
    decreases bufs.len(),
{
    if bufs.len() == 0 {
        Seq::empty()
    } else {
        set_primes(a, bufs.drop_last()) + row_primes(bufs.last(), a)
    }
}

/// The store's logs other than the element reads are those of `b`.
pub open spec fn other_logs_kept<S: ElementStore>(a: S, b: S) -> bool {
    &&& a.element_writes() == b.element_writes()
    &&& a.byte_writes() == b.byte_writes()
    &&& a.byte_reads() == b.byte_reads()
}

/// The elements of the windows of `bufs`, buffer by buffer.
pub open spec fn set_elements(a: &MemArray, bufs: Seq<RowBuffer>) -> Seq<(Seq<char>, nat, nat)>
    decreases bufs.len(),
{
    if bufs.len() == 0 {
        Seq::empty()
    } else {
        set_elements(a, bufs.drop_last()) + row_elements(bufs.last(), a)
    }
}

/// The row buffers of one transaction against one array, one per touched row, in
/// row order from `start_idx`.
#[derive(Debug)]
pub struct RowBufferSet {
    pub start_idx: usize,
    pub buffers: Vec<RowBuffer>,
}

/// A byte inside the array lies in an element, row and column of the array.
pub proof fn lemma_in_array(a: &MemArray, o: nat)
    requires
        a.wf(),
        o < a.size_spec(),
    ensures
        a.elem_of(o) < a.depth_spec(),
        a.row_of(o) < a.dim.rows,
        a.col_of(o) < a.dim.cols,
        a.elem_of(o) == a.row_of(o) * a.dim.cols as nat + a.col_of(o),
{
    let w = a.width as nat;
    let c = a.dim.cols as nat;
    let e = a.elem_of(o);
    lemma_split(o, w);
    lemma_split(e, c);
    assert(e < a.depth_spec()) by (nonlinear_arith)
        requires
            o == e * w + o % w,
            o < a.depth_spec() * w,
            w > 0,
    ;
    assert(e / c < a.dim.rows) by (nonlinear_arith)
        requires
            e == (e / c) * c + e % c,
            e < a.dim.rows * c,
            e % c >= 0,
            c > 0,
    ;
}

/// A window of `n` columns of a row fits in `usize`, as bytes.
pub proof fn lemma_window_fits(a: &MemArray, n: nat)
    requires
        a.wf(),
        n <= a.dim.cols,
    ensures
        n * (a.width as nat) <= a.dim.cols * (a.width as nat),
        a.dim.cols * (a.width as nat) <= a.size_spec(),
{
    let w = a.width as nat;
    assert(n * w <= a.dim.cols * w) by (nonlinear_arith)
        requires
            n <= a.dim.cols,
    ;
    assert(a.dim.cols * w <= a.dim.rows * a.dim.cols * w) by (nonlinear_arith)
        requires
            a.dim.rows >= 1,
    ;
}

impl RowBufferSet {
    /// The row buffers cover the transaction of `len` bytes at `offset`, row by row.
    pub open spec fn plans(&self, a: &MemArray, offset: nat, len: nat) -> bool {
        let start = a.row_of(offset);
        let end = a.row_of(last_offset(offset, len));
        &&& self.start_idx == start
        &&& self.buffers@.len() == end - start + 1
        &&& forall|k: int|
            0 <= k < self.buffers@.len() ==> row_plan(
                a,
                offset,
                len,
                (start + k) as nat,
                #[trigger] self.buffers@[k],
            )
    }

    /// Builds the zeroed row buffers of the transaction of `len` bytes at `offset`.
    pub fn new(array: &MemArray, offset: usize, len: usize) -> (r: RowBufferSet)
        requires
            array.wf(),
            array.pow2_width(),
            len >= 1,
            offset + len <= array.size_spec(),
        ensures
            r.plans(array, offset as nat, len as nat),
            forall|k: int| 0 <= k < r.buffers@.len() ==> zeroed(#[trigger] r.buffers@[k].buffer@),
    {
        let offset_end = offset + len - 1;
        let start_row = array.row(offset);
        let end_row = array.row(offset_end);
        proof {
            lemma_in_array(array, offset as nat);
            lemma_in_array(array, offset_end as nat);
            lemma_div_le(offset as nat, offset_end as nat, array.width as nat);
            lemma_div_le(array.elem_of(offset as nat), array.elem_of(offset_end as nat), array.dim.cols as nat);
        }
        let mut buffers: Vec<RowBuffer> = Vec::new();
        let mut row = start_row;
        while row <= end_row
            invariant
                array.wf(),
                array.pow2_width(),
                len >= 1,
                offset_end == offset + len - 1,
                offset_end < array.size_spec(),
                start_row == array.row_of(offset as nat),
                end_row == array.row_of(offset_end as nat),
                start_row <= row <= end_row + 1,
                end_row < array.dim.rows,
                array.elem_of(offset as nat) <= array.elem_of(offset_end as nat),
                array.elem_of(offset as nat) == start_row * array.dim.cols as nat + array.col_of(offset as nat),
                array.elem_of(offset_end as nat) == end_row * array.dim.cols as nat + array.col_of(offset_end as nat),
                buffers@.len() == row - start_row,
                forall|k: int|
                    0 <= k < buffers@.len() ==> row_plan(
                        array,
                        offset as nat,
                        len as nat,
                        (start_row + k) as nat,
                        #[trigger] buffers@[k],
                    ),
                forall|k: int| 0 <= k < buffers@.len() ==> zeroed(#[trigger] buffers@[k].buffer@),
            decreases end_row + 1 - row,
        {
            let head_idx = if row == start_row {
                array.col(offset)
            } else {
                0
            };
            let head_unaligned = if row == start_row {
                array.idx_byte(offset) != 0
            } else {
                false
            };
            let tail_idx = if row == end_row {
                array.col(offset_end)
            } else {
                array.dim.cols - 1
            };
            let tail_unaligned = if row == end_row {
                array.idx_byte(offset_end) != array.width - 1 && !(head_unaligned && head_idx
                    == tail_idx)
            } else {
                false
            };
            proof {
                lemma_window_fits(array, (tail_idx - head_idx + 1) as nat);
            }
            let buffer = zeros((tail_idx - head_idx + 1) * array.width);
            let b = RowBuffer { row, head_idx, tail_idx, head_unaligned, tail_unaligned, buffer };
            let ghost old_buffers = buffers;
            buffers.push(b);
            proof {
                assert(buffers@[buffers@.len() - 1] == b);
                assert(zeroed(b.buffer@));
                assert forall|k: int| 0 <= k < buffers@.len() implies zeroed(#[trigger] buffers@[k].buffer@) by {
                    if k < buffers@.len() - 1 {
                        assert(buffers@[k] == old_buffers@[k]);
                    }
                }
            }
            row = row + 1;
        }
        RowBufferSet { start_idx: start_row, buffers }
    }

    /// Every buffer spans a window of its row, rows counting up from `start_idx`.
    pub open spec fn wf(&self, a: &MemArray) -> bool {
        forall|k: int|
            0 <= k < self.buffers@.len() ==> (#[trigger] self.buffers@[k]).wf(a)
                && self.buffers@[k].row == self.start_idx + k
    }

    /// Same buffers, windows and flags as `other`.
    pub open spec fn same_shape(&self, other: RowBufferSet) -> bool {
        &&& self.start_idx == other.start_idx
        &&& self.buffers@.len() == other.buffers@.len()
        &&& forall|k: int|
            0 <= k < self.buffers@.len() ==> (#[trigger] self.buffers@[k]).same_shape(
                other.buffers@[k],
            )
    }

    /// The buffer of the row that holds byte `offset`.
    pub fn get_buffer(&self, array: &MemArray, offset: usize) -> (r: &RowBuffer)
        requires
            array.wf(),
            self.start_idx <= array.row_of(offset as nat) < self.start_idx + self.buffers@.len(),
        ensures
            *r == self.buffers@[array.row_of(offset as nat) - self.start_idx],
    {
        &self.buffers[array.row(offset) - self.start_idx]
    }

    /// Reads the unaligned boundary elements of every buffer.
    pub fn sync_partial<S: ElementStore>(&mut self, array: &MemArray, store: &mut S)
        requires
            array.wf(),
            old(self).wf(array),
        ensures
            final(self).same_shape(*old(self)),
            final(self).wf(array),
            forall|k: int, c: nat, j: nat|
                0 <= k < old(self).buffers@.len() && old(self).buffers@[k].head_idx <= c
                    <= old(self).buffers@[k].tail_idx && j < array.width
                    ==> #[trigger] final(self).buffers@[k].staged(array.width as nat, c, j)
                    == if old(self).buffers@[k].primed(c) {
                    old(store).element(array.path@, old(self).buffers@[k].row as nat, c, array.width as nat)[j as int]
                } else {
                    old(self).buffers@[k].staged(array.width as nat, c, j)
                },
            same_contents(*final(store), *old(store)),
            final(store).element_reads() == old(store).element_reads() + set_primes(array, old(self).buffers@),
            other_logs_kept(*final(store), *old(store)),
    {
        let ghost w = array.width as nat;
        let mut k: usize = 0;
        while k < self.buffers.len()
            invariant
                array.wf(),
                w == array.width,
                0 <= k <= self.buffers@.len(),
                self.same_shape(*old(self)),
                self.wf(array),
                old(self).wf(array),
                forall|i: int| k <= i < self.buffers@.len() ==> self.buffers@[i] == old(self).buffers@[i],
                forall|i: int, c: nat, j: nat|
                    0 <= i < k && old(self).buffers@[i].head_idx <= c <= old(self).buffers@[i].tail_idx && j < w
                        ==> #[trigger] self.buffers@[i].staged(w, c, j) == if old(self).buffers@[i].primed(c) {
                        old(store).element(array.path@, old(self).buffers@[i].row as nat, c, w)[j as int]
                    } else {
                        old(self).buffers@[i].staged(w, c, j)
                    },
                same_contents(*store, *old(store)),
                store.element_reads() == old(store).element_reads() + set_primes(array, old(self).buffers@.subrange(0, k as int)),
                other_logs_kept(*store, *old(store)),
            decreases old(self).buffers@.len() - k,
        {
            let ghost before = self.buffers@;
            let ghost pre = *store;
            proof {
                let sub = old(self).buffers@.subrange(0, k as int + 1);
                assert(sub.drop_last() =~= old(self).buffers@.subrange(0, k as int));
                assert(sub.last() == old(self).buffers@[k as int]);
            }
            self.buffers[k].sync_partial(array, store);
            proof {
                lemma_same_contents_trans(*store, pre, *old(store));
                assert(store.element_reads() =~= old(store).element_reads() + set_primes(
                    array,
                    old(self).buffers@.subrange(0, k as int + 1),
                ));
                assert forall|i: int| 0 <= i < self.buffers@.len() && i != k implies self.buffers@[i] == before[i] by {}
            }
            k = k + 1;
        }
        assert(old(self).buffers@.subrange(0, old(self).buffers@.len() as int) =~= old(self).buffers@);
    }

    /// Reads every element of every buffer.
    pub fn sync_all<S: ElementStore>(&mut self, array: &MemArray, store: &mut S)
        requires
            array.wf(),
            old(self).wf(array),
        ensures
            final(self).same_shape(*old(self)),
            final(self).wf(array),
            forall|k: int, c: nat, j: nat|
                0 <= k < old(self).buffers@.len() && old(self).buffers@[k].head_idx <= c
                    <= old(self).buffers@[k].tail_idx && j < array.width
                    ==> #[trigger] final(self).buffers@[k].staged(array.width as nat, c, j)
                    == old(store).element(array.path@, old(self).buffers@[k].row as nat, c, array.width as nat)[j as int],
            forall|k: int, c: nat|
                0 <= k < old(self).buffers@.len() && old(self).buffers@[k].head_idx <= c
                    <= old(self).buffers@[k].tail_idx ==> (#[trigger] old(store).element(array.path@, old(self).buffers@[k].row as nat, c, array.width as nat)).len()
                    == array.width,
            same_contents(*final(store), *old(store)),
            final(store).element_reads() == old(store).element_reads() + set_elements(array, old(self).buffers@),
            other_logs_kept(*final(store), *old(store)),
    {
        let ghost w = array.width as nat;
        let mut k: usize = 0;
        while k < self.buffers.len()
            invariant
                array.wf(),
                w == array.width,
                0 <= k <= self.buffers@.len(),
                self.same_shape(*old(self)),
                self.wf(array),
                old(self).wf(array),
                forall|i: int| k <= i < self.buffers@.len() ==> self.buffers@[i] == old(self).buffers@[i],
                forall|i: int, c: nat, j: nat|
                    0 <= i < k && old(self).buffers@[i].head_idx <= c <= old(self).buffers@[i].tail_idx && j < w
                        ==> #[trigger] self.buffers@[i].staged(w, c, j)
                        == old(store).element(array.path@, old(self).buffers@[i].row as nat, c, w)[j as int],
                forall|i: int, c: nat|
                    0 <= i < k && old(self).buffers@[i].head_idx <= c <= old(self).buffers@[i].tail_idx
                        ==> (#[trigger] old(store).element(array.path@, old(self).buffers@[i].row as nat, c, w)).len() == w,
                same_contents(*store, *old(store)),
                store.element_reads() == old(store).element_reads() + set_elements(array, old(self).buffers@.subrange(0, k as int)),
                other_logs_kept(*store, *old(store)),
            decreases old(self).buffers@.len() - k,
        {
            let ghost before = self.buffers@;
            let ghost pre = *store;
            proof {
                let sub = old(self).buffers@.subrange(0, k as int + 1);
                assert(sub.drop_last() =~= old(self).buffers@.subrange(0, k as int));
                assert(sub.last() == old(self).buffers@[k as int]);
            }
            self.buffers[k].sync_all(array, store);
            proof {
                lemma_same_contents_trans(*store, pre, *old(store));
                assert(store.element_reads() =~= old(store).element_reads() + set_elements(
                    array,
                    old(self).buffers@.subrange(0, k as int + 1),
                ));
                assert forall|i: int| 0 <= i < self.buffers@.len() && i != k implies self.buffers@[i] == before[i] by {}
            }
            k = k + 1;
        }
        assert(old(self).buffers@.subrange(0, old(self).buffers@.len() as int) =~= old(self).buffers@);
    }

    /// Writes every element of every buffer to the store.
    pub fn flush<S: ElementStore>(&self, array: &MemArray, store: &mut S)
        requires
            array.wf(),
            self.wf(array),
        ensures
            forall|k: int, c: nat|
                0 <= k < self.buffers@.len() && self.buffers@[k].head_idx <= c <= self.buffers@[k].tail_idx
                    ==> #[trigger] final(store).element(array.path@, (self.start_idx + k) as nat, c, array.width as nat)
                    == self.buffers@[k].slot(array.width as nat, c),
            forall|p: Seq<char>, r: nat, c: nat, w: nat|
                !(p == array.path@ && self.start_idx <= r < self.start_idx + self.buffers@.len()
                    && self.buffers@[r - self.start_idx].head_idx <= c <= self.buffers@[r - self.start_idx].tail_idx)
                    ==> #[trigger] final(store).element(p, r, c, w) == old(store).element(p, r, c, w),
            forall|n: Seq<char>, o: nat| #[trigger] final(store).byte(n, o) == old(store).byte(n, o),
            final(store).element_writes() == old(store).element_writes() + set_elements(array, self.buffers@),
            final(store).byte_writes() == old(store).byte_writes(),
            final(store).element_reads() == old(store).element_reads(),
            final(store).byte_reads() == old(store).byte_reads(),
    {
        let ghost w = array.width as nat;
        let ghost st = self.start_idx as nat;
        let mut k: usize = 0;
        while k < self.buffers.len()
            invariant
                array.wf(),
                self.wf(array),
                w == array.width,
                st == self.start_idx,
                0 <= k <= self.buffers@.len(),
                forall|i: int, c: nat|
                    0 <= i < k && self.buffers@[i].head_idx <= c <= self.buffers@[i].tail_idx
                        ==> #[trigger] store.element(array.path@, (st + i) as nat, c, w)
                        == self.buffers@[i].slot(w, c),
                forall|p: Seq<char>, r: nat, c: nat, w2: nat|
                    !(p == array.path@ && st <= r < st + k
                        && self.buffers@[r - st].head_idx <= c <= self.buffers@[r - st].tail_idx)
                        ==> #[trigger] store.element(p, r, c, w2) == old(store).element(p, r, c, w2),
                forall|n: Seq<char>, o: nat| #[trigger] store.byte(n, o) == old(store).byte(n, o),
                store.element_writes() == old(store).element_writes() + set_elements(array, self.buffers@.subrange(0, k as int)),
                store.byte_writes() == old(store).byte_writes(),
                store.element_reads() == old(store).element_reads(),
                store.byte_reads() == old(store).byte_reads(),
            decreases self.buffers@.len() - k,
        {
            proof {
                let sub = self.buffers@.subrange(0, k as int + 1);
                assert(sub.drop_last() =~= self.buffers@.subrange(0, k as int));
                assert(sub.last() == self.buffers@[k as int]);
            }
            self.buffers[k].flush(array, store);
            proof {
                let b = self.buffers@[k as int];
                assert(b.row == st + k);
                assert forall|i: int, c: nat|
                    0 <= i < k + 1 && self.buffers@[i].head_idx <= c <= self.buffers@[i].tail_idx
                        implies #[trigger] store.element(array.path@, (st + i) as nat, c, w)
                        == self.buffers@[i].slot(w, c) by {
                    assert(self.buffers@[i].row == st + i);
                }
            }
            proof {
                assert(set_elements(array, self.buffers@.subrange(0, k as int + 1)) == set_elements(
                    array,
                    self.buffers@.subrange(0, k as int),
                ) + row_elements(self.buffers@[k as int], array));
                assert(store.element_writes() =~= old(store).element_writes() + set_elements(
                    array,
                    self.buffers@.subrange(0, k as int + 1),
                ));
            }
            k = k + 1;
        }
        assert(self.buffers@.subrange(0, self.buffers@.len() as int) =~= self.buffers@);
    }
}

} // verus!
