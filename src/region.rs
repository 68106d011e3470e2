//! Regions: the flat, byte-addressed surfaces that read and write requests reach.
use crate::buffer::{last_offset, row_plan, RowBufferSet};
use crate::coverage::{global_offset, lemma_compose, lemma_decompose, lemma_primed, lemma_window};
use crate::banked::{banked_bytes, banked_written, DPIBankedShareMem};
use crate::config::InitMethod;
use crate::error::ConfigError;
use crate::geometry::{lemma_join, ArrayDim, MemArray};
use crate::store::{same_contents, ElementStore};
use vstd::prelude::*;
use vstd::slice::slice_subrange;

verus! {

/// An element of `width` bytes that started at byte `start` and held `old`, after
/// `data` was written at byte `offset`: the bytes that the write covers come from
/// `data`, the others from `old`.
pub open spec fn overlay(old: Seq<u8>, width: nat, start: nat, offset: nat, data: Seq<u8>) -> Seq<u8> {
    Seq::new(
        width,
        |j: int|
            if offset <= start + j < offset + data.len() {
                data[start + j - offset]
            } else {
                old[j]
            },
    )
}

/// The element at `(row, col)` holds a byte of the `len` bytes at `offset`.
pub open spec fn touched(a: &MemArray, offset: nat, len: nat, row: nat, col: nat) -> bool {
    &&& len >= 1
    &&& col < a.dim.cols
    &&& a.elem_of(offset) <= row * (a.dim.cols as nat) + col <= a.elem_of(last_offset(offset, len))
}

/// `after` is `before` with `data` written at byte `offset` of array `a`: each element
/// of `a` that holds a byte of `data` is overlaid with the bytes of `data` that fall
/// in it, and nothing else changes.
pub open spec fn array_written<S: ElementStore>(
    before: S,
    after: S,
    a: &MemArray,
    offset: nat,
    data: Seq<u8>,
) -> bool {
    let w = a.width as nat;
    &&& forall|r: nat, c: nat|
        r < a.dim.rows && touched(a, offset, data.len(), r, c) ==> #[trigger] after.element(a.path@, r, c, w)
            == overlay(before.element(a.path@, r, c, w), w, (r * (a.dim.cols as nat) + c) * w, offset, data)
    &&& forall|p: Seq<char>, r: nat, c: nat, w2: nat|
        !(p == a.path@ && touched(a, offset, data.len(), r, c)) ==> #[trigger] after.element(
            p,
            r,
            c,
            w2,
        ) == before.element(p, r, c, w2)
    &&& forall|n: Seq<char>, o: nat| #[trigger] after.byte(n, o) == before.byte(n, o)
}

/// The `len` bytes at byte `offset` of array `a`, as the store holds them.
pub open spec fn array_bytes<S: ElementStore>(s: S, a: &MemArray, offset: nat, len: nat) -> Seq<u8> {
    Seq::new(
        len,
        |i: int|
            s.element(a.path@, a.row_of((offset + i) as nat), a.col_of((offset + i) as nat), a.width as nat)[a.byte_of(
                (offset + i) as nat,
            ) as int],
    )
}

/// Writing nothing changes nothing.
pub proof fn lemma_nothing_written<S: ElementStore>(s: S, a: &MemArray, offset: nat, data: Seq<u8>)
    requires
        data.len() == 0,
    ensures
        array_written(s, s, a, offset, data),
{
}

/// The planned row buffers span windows of consecutive rows of the array.
pub proof fn lemma_plan_wf(a: &MemArray, b: RowBufferSet, offset: nat, len: nat)
    requires
        a.wf(),
        len >= 1,
        offset + len <= a.size_spec(),
        b.plans(a, offset, len),
    ensures
        b.wf(a),
{
    crate::buffer::lemma_in_array(a, last_offset(offset, len));
    assert forall|k: int| 0 <= k < b.buffers@.len() implies (#[trigger] b.buffers@[k]).wf(a)
        && b.buffers@[k].row == b.start_idx + k by {
        assert(row_plan(a, offset, len, (b.start_idx + k) as nat, b.buffers@[k]));
    }
}

/// Flushing row buffers that hold the overlaid elements of a transaction leaves the
/// store as written.
pub proof fn lemma_flushed<S: ElementStore>(
    a: &MemArray,
    s0: S,
    s1: S,
    b: RowBufferSet,
    offset: nat,
    data: Seq<u8>,
)
    requires
        a.wf(),
        a.pow2_width(),
        data.len() >= 1,
        offset + data.len() <= a.size_spec(),
        b.plans(a, offset, data.len()),
        b.wf(a),
        forall|k: int, c: nat|
            0 <= k < b.buffers@.len() && b.buffers@[k].head_idx <= c <= b.buffers@[k].tail_idx
                ==> #[trigger] b.buffers@[k].slot(a.width as nat, c) == overlay(
                s0.element(a.path@, (b.start_idx + k) as nat, c, a.width as nat),
                a.width as nat,
                (((b.start_idx + k) * (a.dim.cols as nat) + c) * (a.width as nat)) as nat,
                offset,
                data,
            ),
        forall|k: int, c: nat|
            0 <= k < b.buffers@.len() && b.buffers@[k].head_idx <= c <= b.buffers@[k].tail_idx
                ==> #[trigger] s1.element(a.path@, (b.start_idx + k) as nat, c, a.width as nat)
                == b.buffers@[k].slot(a.width as nat, c),
        forall|p: Seq<char>, r: nat, c: nat, w: nat|
            !(p == a.path@ && b.start_idx <= r < b.start_idx + b.buffers@.len()
                && b.buffers@[r - b.start_idx].head_idx <= c <= b.buffers@[r - b.start_idx].tail_idx)
                ==> #[trigger] s1.element(p, r, c, w) == s0.element(p, r, c, w),
        forall|n: Seq<char>, o: nat| #[trigger] s1.byte(n, o) == s0.byte(n, o),
    ensures
        array_written(s0, s1, a, offset, data),
{
    let w = a.width as nat;
    let cols = a.dim.cols as nat;
    let n = data.len();
    let st = b.start_idx as nat;
    let end = last_offset(offset, n);
    let es = a.elem_of(offset);
    let ee = a.elem_of(end);
    assert forall|r: nat, c: nat| r < a.dim.rows && touched(a, offset, n, r, c) implies #[trigger] s1.element(
        a.path@,
        r,
        c,
        w,
    ) == overlay(s0.element(a.path@, r, c, w), w, (r * cols + c) * w, offset, data) by {
        let e = r * cols + c;
        lemma_join(e, cols, r, c);
        crate::geometry::lemma_div_le(es, e, cols);
        crate::geometry::lemma_div_le(e, ee, cols);
        let k = r - st;
        lemma_window(a, offset, n, b.buffers@[k], r, c);
        assert(b.buffers@[k].head_idx <= c <= b.buffers@[k].tail_idx);
    }
    assert forall|p: Seq<char>, r: nat, c: nat, w2: nat|
        !(p == a.path@ && touched(a, offset, n, r, c)) implies #[trigger] s1.element(p, r, c, w2)
        == s0.element(p, r, c, w2) by {
        if p == a.path@ && st <= r < st + b.buffers@.len() && b.buffers@[r - st].head_idx <= c
            <= b.buffers@[r - st].tail_idx {
            lemma_window(a, offset, n, b.buffers@[r - st], r, c);
        }
    }
}

/// The element writes of a transaction that covers elements `first ..= last` of `a`:
/// each element once, in order of rows and then columns.
pub open spec fn element_run(a: &MemArray, first: nat, last: nat) -> Seq<(Seq<char>, nat, nat)> {
    Seq::new(
        (last + 1 - first) as nat,
        |i: int| (a.path@, ((first + i) / (a.dim.cols as int)) as nat, ((first + i) % (a.dim.cols as int)) as nat),
    )
}

/// The elements that `len` bytes at byte `offset` of `a` touch, each once and in
/// order: what writing them writes, and what reading them reads.
pub open spec fn direct_elements(a: &MemArray, offset: nat, len: nat) -> Seq<(Seq<char>, nat, nat)> {
    if len == 0 {
        Seq::empty()
    } else {
        element_run(a, a.elem_of(offset), a.elem_of(last_offset(offset, len)))
    }
}

/// The priming reads of writing `len` bytes at byte `offset` of `a`: the first
/// element when the range starts inside it, then the last element when the range ends
/// inside it and it is not that same first element.
pub open spec fn direct_primes(a: &MemArray, offset: nat, len: nat) -> Seq<(Seq<char>, nat, nat)> {
    let end = last_offset(offset, len);
    let head = a.byte_of(offset) != 0;
    let tail = a.byte_of(end) != a.width - 1 && !(head && a.elem_of(offset) == a.elem_of(end));
    if len == 0 {
        Seq::empty()
    } else {
        (if head {
            seq![(a.path@, a.row_of(offset), a.col_of(offset))]
        } else {
            Seq::empty()
        }) + (if tail {
            seq![(a.path@, a.row_of(end), a.col_of(end))]
        } else {
            Seq::empty()
        })
    }
}

/// The first `k` row buffers of a transaction prime its first element when its head
/// is unaligned, and the last buffer primes its last element when its tail is.
proof fn lemma_primes_prefix(a: &MemArray, b: RowBufferSet, offset: nat, len: nat, k: int)
    requires
        a.wf(),
        len >= 1,
        offset + len <= a.size_spec(),
        b.plans(a, offset, len),
        1 <= k <= b.buffers@.len(),
    ensures
        crate::buffer::set_primes(a, b.buffers@.subrange(0, k)) == crate::buffer::row_primes(b.buffers@[0], a)
            + (if k > 1 {
            crate::buffer::row_primes(b.buffers@[k - 1], a)
        } else {
            Seq::empty()
        }),
    decreases k,
{
    let st = b.start_idx as nat;
    let sub = b.buffers@.subrange(0, k);
    assert(sub.drop_last() =~= b.buffers@.subrange(0, k - 1));
    assert(sub.last() == b.buffers@[k - 1]);
    assert(row_plan(a, offset, len, (st + k - 1) as nat, b.buffers@[k - 1]));
    assert(crate::buffer::set_primes(a, sub) == crate::buffer::set_primes(a, sub.drop_last())
        + crate::buffer::row_primes(b.buffers@[k - 1], a));
    if k == 1 {
        assert(b.buffers@.subrange(0, 0) =~= Seq::<crate::buffer::RowBuffer>::empty());
        assert(crate::buffer::set_primes(a, Seq::<crate::buffer::RowBuffer>::empty()) == Seq::<(Seq<char>, nat, nat)>::empty());
        assert(crate::buffer::set_primes(a, sub) =~= crate::buffer::row_primes(b.buffers@[0], a));
    } else {
        lemma_primes_prefix(a, b, offset, len, k - 1);
        if k > 2 {
            assert(row_plan(a, offset, len, (st + k - 2) as nat, b.buffers@[k - 2]));
            assert(crate::buffer::row_primes(b.buffers@[k - 2], a) =~= Seq::empty());
        }
        assert(crate::buffer::set_primes(a, sub) =~= crate::buffer::row_primes(b.buffers@[0], a)
            + crate::buffer::row_primes(b.buffers@[k - 1], a));
    }
}

/// The planned row buffers prime exactly the reads that `direct_primes` gives.
pub proof fn lemma_set_primes(a: &MemArray, b: RowBufferSet, offset: nat, len: nat)
    requires
        a.wf(),
        len >= 1,
        offset + len <= a.size_spec(),
        b.plans(a, offset, len),
    ensures
        crate::buffer::set_primes(a, b.buffers@) == direct_primes(a, offset, len),
{
    let w = a.width as nat;
    let end = last_offset(offset, len);
    crate::geometry::lemma_div_le(offset, end, w);
    crate::geometry::lemma_div_le(a.elem_of(offset), a.elem_of(end), a.dim.cols as nat);
    crate::buffer::lemma_in_array(a, offset);
    crate::buffer::lemma_in_array(a, end);
    let l = b.buffers@.len() as int;
    lemma_primes_prefix(a, b, offset, len, l);
    assert(b.buffers@.subrange(0, l) =~= b.buffers@);
    let st = b.start_idx as nat;
    let b0 = b.buffers@[0];
    let bl = b.buffers@[l - 1];
    assert(row_plan(a, offset, len, st, b0));
    assert(row_plan(a, offset, len, (st + l - 1) as nat, bl));
    if l == 1 {
        if b0.head_idx == b0.tail_idx {
            lemma_join(a.elem_of(offset), a.dim.cols as nat, st, b0.head_idx as nat);
            lemma_join(a.elem_of(end), a.dim.cols as nat, st, b0.tail_idx as nat);
        }
        if a.elem_of(offset) == a.elem_of(end) {
            assert(b0.head_idx == b0.tail_idx);
        }
        assert(crate::buffer::row_primes(b0, a) =~= direct_primes(a, offset, len));
        assert(crate::buffer::set_primes(a, b.buffers@) =~= direct_primes(a, offset, len));
    } else {
        if a.elem_of(offset) == a.elem_of(end) {
            assert(a.row_of(offset) == a.row_of(end));
        }
        assert(crate::buffer::row_primes(b0, a) + crate::buffer::row_primes(bl, a) =~= direct_primes(a, offset, len));
    }
}

/// Writing to a store with the same contents writes the same.
pub proof fn lemma_written_same<S: ElementStore>(a: &MemArray, s0: S, s1: S, s2: S, offset: nat, data: Seq<u8>)
    requires
        same_contents(s1, s0),
        array_written(s1, s2, a, offset, data),
    ensures
        array_written(s0, s2, a, offset, data),
{
    let w = a.width as nat;
    assert forall|r: nat, c: nat| r < a.dim.rows && touched(a, offset, data.len(), r, c) implies #[trigger] s2.element(
        a.path@,
        r,
        c,
        w,
    ) == overlay(s0.element(a.path@, r, c, w), w, (r * (a.dim.cols as nat) + c) * w, offset, data) by {
        assert(s1.element(a.path@, r, c, w) == s0.element(a.path@, r, c, w));
    }
    assert forall|p: Seq<char>, r: nat, c: nat, w2: nat|
        !(p == a.path@ && touched(a, offset, data.len(), r, c)) implies #[trigger] s2.element(p, r, c, w2)
        == s0.element(p, r, c, w2) by {
        assert(s1.element(p, r, c, w2) == s0.element(p, r, c, w2));
    }
    assert forall|n: Seq<char>, o: nat| #[trigger] s2.byte(n, o) == s0.byte(n, o) by {
        assert(s1.byte(n, o) == s0.byte(n, o));
    }
}

/// The first `k` row buffers of a transaction write its elements from the first up to
/// the last column of row buffer `k - 1`, each once and in order.
pub proof fn lemma_run_prefix(a: &MemArray, b: RowBufferSet, offset: nat, len: nat, k: int)
    requires
        a.wf(),
        len >= 1,
        offset + len <= a.size_spec(),
        b.plans(a, offset, len),
        1 <= k <= b.buffers@.len(),
    ensures
        crate::buffer::set_elements(a, b.buffers@.subrange(0, k)) == element_run(
            a,
            a.elem_of(offset),
            ((b.start_idx + k - 1) * (a.dim.cols as nat) + b.buffers@[k - 1].tail_idx) as nat,
        ),
    decreases k,
{
    let c = a.dim.cols as nat;
    let st = b.start_idx as nat;
    let es = a.elem_of(offset);
    let sub = b.buffers@.subrange(0, k);
    let bk = b.buffers@[k - 1];
    assert(row_plan(a, offset, len, (st + k - 1) as nat, bk));
    assert(sub.drop_last() =~= b.buffers@.subrange(0, k - 1));
    assert(sub.last() == bk);
    crate::geometry::lemma_split(es, c);
    let last = ((st + k - 1) * c + bk.tail_idx) as nat;
    assert(crate::buffer::set_elements(a, sub) == crate::buffer::set_elements(a, sub.drop_last())
        + crate::buffer::row_elements(bk, a));
    if k == 1 {
        assert(b.buffers@.subrange(0, 0) =~= Seq::<crate::buffer::RowBuffer>::empty());
        assert(crate::buffer::set_elements(a, Seq::<crate::buffer::RowBuffer>::empty()) == Seq::<(Seq<char>, nat, nat)>::empty());
        assert(bk.head_idx == es % c);
        assert(st == es / c);
        assert forall|i: int| 0 <= i < bk.tail_idx - bk.head_idx + 1 implies #[trigger] crate::buffer::row_elements(bk, a)[i]
            == element_run(a, es, last)[i] by {
            lemma_join((es + i) as nat, c, st, (bk.head_idx + i) as nat);
        }
        assert(crate::buffer::set_elements(a, sub) =~= element_run(a, es, last));
    } else {
        lemma_run_prefix(a, b, offset, len, k - 1);
        let prev = b.buffers@[k - 2];
        assert(row_plan(a, offset, len, (st + k - 2) as nat, prev));
        let plast = ((st + k - 2) * c + prev.tail_idx) as nat;
        assert(plast + 1 == (st + k - 1) * c) by (nonlinear_arith)
            requires
                plast == (st + k - 2) * c + prev.tail_idx,
                prev.tail_idx == c - 1,
                k >= 2,
        ;
        let left = element_run(a, es, plast);
        let right = crate::buffer::row_elements(bk, a);
        let base = ((st + k - 1) * c) as nat;
        assert(bk.head_idx == 0);
        assert(st * c + c <= (st + k - 1) * c) by (nonlinear_arith)
            requires
                k >= 2,
        ;
        assert(es == st * c + es % c);
        assert(es <= base);
        assert(left.len() == base - es);
        assert(element_run(a, es, last).len() == left.len() + right.len());
        assert forall|i: int| 0 <= i < left.len() + right.len() implies #[trigger] (left + right)[i]
            == element_run(a, es, last)[i] by {
            if i >= left.len() {
                let x = i - left.len();
                assert(es + i == base + x);
                lemma_join((es + i) as nat, c, (st + k - 1) as nat, x as nat);
            }
        }
        assert(crate::buffer::set_elements(a, sub) =~= element_run(a, es, last));
    }
}

/// Flushing the row buffers of a transaction writes its elements from the first to the
/// last, each once and in order.
pub proof fn lemma_set_elements_run(a: &MemArray, b: RowBufferSet, offset: nat, len: nat)
    requires
        a.wf(),
        len >= 1,
        offset + len <= a.size_spec(),
        b.plans(a, offset, len),
    ensures
        crate::buffer::set_elements(a, b.buffers@) == direct_elements(a, offset, len),
{
    let w = a.width as nat;
    crate::geometry::lemma_div_le(offset, last_offset(offset, len), w);
    crate::geometry::lemma_div_le(a.elem_of(offset), a.elem_of(last_offset(offset, len)), a.dim.cols as nat);
    lemma_run_prefix(a, b, offset, len, b.buffers@.len() as int);
    assert(b.buffers@.subrange(0, b.buffers@.len() as int) =~= b.buffers@);
    let lastb = b.buffers@[b.buffers@.len() - 1];
    assert(row_plan(a, offset, len, (b.start_idx + b.buffers@.len() - 1) as nat, lastb));
    crate::geometry::lemma_split(a.elem_of(last_offset(offset, len)), a.dim.cols as nat);
}

/// Buffers of the same windows make the same writes.
pub proof fn lemma_same_elements(a: &MemArray, x: Seq<crate::buffer::RowBuffer>, y: Seq<crate::buffer::RowBuffer>)
    requires
        x.len() == y.len(),
        forall|k: int| 0 <= k < x.len() ==> (#[trigger] x[k]).same_shape(y[k]),
    ensures
        crate::buffer::set_elements(a, x) == crate::buffer::set_elements(a, y),
    decreases x.len(),
{
    if x.len() > 0 {
        lemma_same_elements(a, x.drop_last(), y.drop_last());
        assert(crate::buffer::row_elements(x.last(), a) =~= crate::buffer::row_elements(y.last(), a));
    }
}

/// A region backed by one array, addressed from `base`.
#[derive(Debug)]
pub struct DPIDirectShareMem {
    pub name: String,
    pub base: u64,
    pub size: usize,
    pub array: MemArray,
    /// How the array is initialised.
    pub init: InitMethod,
}

impl DPIDirectShareMem {
    /// The array is addressable and exactly as large as the region.
    pub open spec fn wf(&self) -> bool {
        &&& self.array.wf()
        &&& self.size == self.array.size_spec()
        &&& self.base + self.size <= u64::MAX + 1
    }

    /// Reads and writes place every byte: the element width is a power of two.
    pub open spec fn supported(&self) -> bool {
        self.array.pow2_width()
    }

    /// Builds the region over the array at `path` of elements `width` bits wide, of
    /// `array` dimensions (one row spanning the region by default).
    pub fn new(
        name: String,
        path: String,
        width: usize,
        base: u64,
        size: usize,
        array: Option<ArrayDim>,
    ) -> (r: DPIDirectShareMem)
        requires
            width / 8 > 0,
        ensures
            r.name@ == name@,
            r.base == base,
            r.size == size,
            r.array.path@ == path@,
            r.array.width == width / 8,
            r.array.dim == (match array {
                Some(d) => d,
                None => ArrayDim { rows: 1, cols: size / (width / 8) },
            }),
    {
        let dim = match array {
            Some(d) => d,
            None => ArrayDim { rows: 1, cols: size / (width / 8) },
        };
        DPIDirectShareMem { name, base, size, array: MemArray::new(path, dim, width / 8), init: InitMethod::NoInit }
    }

    /// Checks that the array is exactly as large as the region.
    pub fn check(&self) -> (r: Result<(), ConfigError>)
        ensures
            r is Ok <==> self.size == self.array.size_spec(),
            r is Err ==> (r matches Err(ConfigError::SizeMismatch { region, size, rows, cols, width })
                && region@ == self.name@ && size == self.size && rows == self.array.dim.rows && cols
                == self.array.dim.cols && width == self.array.width),
    {
        match self.array.size() {
            Some(s) => {
                if s == self.size {
                    return Ok(());
                }
            },
            None => {},
        }
        Err(
            ConfigError::SizeMismatch {
                region: self.name.clone(),
                size: self.size,
                rows: self.array.dim.rows,
                cols: self.array.dim.cols,
                width: self.array.width,
            },
        )
    }

    /// The region's local offset of `addr`.
    pub fn offset(&self, addr: u64) -> (r: usize)
        requires
            self.base <= addr,
            addr - self.base <= self.size,
        ensures
            r == addr - self.base,
    {
        (addr - self.base) as usize
    }

    /// Reads and writes of the region place every byte (widths above 2^31 bytes are
    /// refused).
    pub fn is_supported(&self) -> (r: bool)
        ensures
            r == (self.array.width <= 0x8000_0000 && self.supported()),
    {
        crate::banked::is_pow2_small(self.array.width)
    }

    /// Writes `data` at `addr`, which with all of `data` lies in the region, through
    /// the store: the elements that hold an unaligned end of the range are read first,
    /// then every touched element is written back.
    pub fn write<S: ElementStore>(&self, store: &mut S, addr: u64, data: &[u8]) -> (r: usize)
        requires
            self.wf(),
            self.supported(),
            self.base <= addr,
            addr - self.base + data@.len() <= self.size,
        ensures
            r == data@.len(),
            array_written(*old(store), *final(store), &self.array, (addr - self.base) as nat, data@),
            data@.len() == 0 ==> *final(store) == *old(store),
            final(store).element_writes() == old(store).element_writes() + direct_elements(
                &self.array,
                (addr - self.base) as nat,
                data@.len(),
            ),
            final(store).byte_writes() == old(store).byte_writes(),
            final(store).element_reads() == old(store).element_reads() + direct_primes(
                &self.array,
                (addr - self.base) as nat,
                data@.len(),
            ),
            final(store).byte_reads() == old(store).byte_reads(),
    {
        let ghost s0 = *store;
        if data.len() == 0 {
            proof {
                lemma_nothing_written(s0, &self.array, (addr - self.base) as nat, data@);
                assert(old(store).element_writes() + direct_elements(&self.array, (addr - self.base) as nat, 0)
                    =~= old(store).element_writes());
                assert(old(store).element_reads() + direct_primes(&self.array, (addr - self.base) as nat, 0)
                    =~= old(store).element_reads());
            }
            return 0;
        }
        let offset = self.offset(addr);
        let a = &self.array;
        let mut buffers = RowBufferSet::new(a, offset, data.len());
        let ghost n = data@.len();
        let ghost w = a.width as nat;
        let ghost st = buffers.start_idx as nat;
        proof {
            lemma_plan_wf(&self.array, buffers, offset as nat, n);
        }
        let ghost planned = buffers;
        buffers.sync_partial(a, store);
        let ghost synced = buffers;
        let ghost s1 = *store;
        let mut i: usize = 0;
        while i < data.len()
            invariant
                self.wf(),
                self.supported(),
                a == &self.array,
                n == data@.len(),
                n >= 1,
                w == a.width,
                offset + n <= a.size_spec(),
                buffers.plans(a, offset as nat, n),
                buffers.wf(a),
                buffers.same_shape(synced),
                synced.plans(a, offset as nat, n),
                st == buffers.start_idx,
                0 <= i <= n,
                forall|k: int, c: nat, j: nat|
                    0 <= k < buffers.buffers@.len() && buffers.buffers@[k].head_idx <= c
                        <= buffers.buffers@[k].tail_idx && j < w ==> #[trigger] buffers.buffers@[k].staged(w, c, j)
                        == if offset <= global_offset(a, (st + k) as nat, c, j) < offset + i {
                        data@[global_offset(a, (st + k) as nat, c, j) - offset]
                    } else {
                        synced.buffers@[k].staged(w, c, j)
                    },
            decreases n - i,
        {
            let o = offset + i;
            let ghost before = buffers;
            let ghost ko = a.row_of(o as nat) - st;
            proof {
                lemma_decompose(a, o as nat);
                crate::buffer::lemma_in_array(a, o as nat);
                crate::geometry::lemma_div_le(offset as nat, o as nat, w);
                crate::geometry::lemma_div_le(o as nat, last_offset(offset as nat, n), w);
                crate::geometry::lemma_div_le(a.elem_of(offset as nat), a.elem_of(o as nat), a.dim.cols as nat);
                crate::geometry::lemma_div_le(a.elem_of(o as nat), a.elem_of(last_offset(offset as nat, n)), a.dim.cols as nat);
                lemma_window(a, offset as nat, n, buffers.buffers@[ko], a.row_of(o as nat), a.col_of(o as nat));
            }
            let k = a.row(o) - buffers.start_idx;
            buffers.buffers[k].set_data(a, o, data[i]);
            proof {
                assert forall|k2: int, c: nat, j: nat|
                    0 <= k2 < buffers.buffers@.len() && buffers.buffers@[k2].head_idx <= c
                        <= buffers.buffers@[k2].tail_idx && j < w implies #[trigger] buffers.buffers@[k2].staged(w, c, j)
                        == if offset <= global_offset(a, (st + k2) as nat, c, j) < offset + i + 1 {
                        data@[global_offset(a, (st + k2) as nat, c, j) - offset]
                    } else {
                        synced.buffers@[k2].staged(w, c, j)
                    } by {
                    let g = global_offset(a, (st + k2) as nat, c, j);
                    lemma_compose(a, (st + k2) as nat, c, j);
                    let bb = before.buffers@[k2];
                    let nb = buffers.buffers@[k2];
                    let h = bb.head_idx as nat;
                    assert(nb.head_idx == bb.head_idx);
                    let p1 = ((c - h) * w + j) as nat;
                    crate::buffer::lemma_pos_bound(h, c, bb.tail_idx as nat, j, w);
                    assert(nb.staged(w, c, j) == nb.buffer@[p1 as int]);
                    assert(bb.staged(w, c, j) == bb.buffer@[p1 as int]);
                    if k2 == k {
                        let co = a.col_of(o as nat);
                        let jo = a.byte_of(o as nat);
                        let p2 = ((co - h) * w + jo) as nat;
                        crate::buffer::lemma_pos_bound(h, co, bb.tail_idx as nat, jo, w);
                        assert(nb.buffer@ == bb.buffer@.update(p2 as int, data@[i as int]));
                        if p1 == p2 {
                            lemma_join(p1, w, (c - h) as nat, j);
                            lemma_join(p1, w, (co - h) as nat, jo);
                            assert(c == co && j == jo);
                            assert(g == o);
                        } else if g == o {
                            assert(c == co && j == jo);
                        }
                    } else {
                        assert(nb == bb);
                        if g == o {
                            assert(a.row_of(o as nat) == st + k2);
                        }
                    }
                }
            }
            i = i + 1;
        }
        proof {
            assert forall|k: int, c: nat|
                0 <= k < buffers.buffers@.len() && buffers.buffers@[k].head_idx <= c
                    <= buffers.buffers@[k].tail_idx implies #[trigger] buffers.buffers@[k].slot(w, c)
                    == overlay(
                    s0.element(a.path@, (st + k) as nat, c, w),
                    w,
                    (((st + k) * (a.dim.cols as nat) + c) * w) as nat,
                    offset as nat,
                    data@,
                ) by {
                let b = buffers.buffers@[k];
                let h = b.head_idx as nat;
                assert forall|j: int| 0 <= j < w implies #[trigger] b.slot(w, c)[j] == overlay(
                    s0.element(a.path@, (st + k) as nat, c, w),
                    w,
                    (((st + k) * (a.dim.cols as nat) + c) * w) as nat,
                    offset as nat,
                    data@,
                )[j] by {
                    crate::buffer::lemma_slot_index(b, w, c, j as nat);
                    if !(offset <= global_offset(a, (st + k) as nat, c, j as nat) < offset + n) {
                        lemma_primed(a, offset as nat, n, synced.buffers@[k], (st + k) as nat, c, j as nat);
                    }
                }
                crate::buffer::lemma_slot_index(b, w, c, 0);
                assert(b.slot(w, c) =~= overlay(
                    s0.element(a.path@, (st + k) as nat, c, w),
                    w,
                    (((st + k) * (a.dim.cols as nat) + c) * w) as nat,
                    offset as nat,
                    data@,
                ));
            }
        }
        buffers.flush(a, store);
        proof {
            lemma_flushed(a, s1, *store, buffers, offset as nat, data@);
            lemma_written_same(a, s0, s1, *store, offset as nat, data@);
            lemma_set_primes(a, planned, offset as nat, n);
            lemma_plan_wf(a, buffers, offset as nat, n);
            crate::geometry::lemma_div_le(offset as nat, last_offset(offset as nat, n), w);
            crate::geometry::lemma_div_le(a.elem_of(offset as nat), a.elem_of(last_offset(offset as nat, n)), a.dim.cols as nat);
            lemma_run_prefix(a, buffers, offset as nat, n, buffers.buffers@.len() as int);
            assert(buffers.buffers@.subrange(0, buffers.buffers@.len() as int) =~= buffers.buffers@);
            let lastb = buffers.buffers@[buffers.buffers@.len() - 1];
            assert(row_plan(a, offset as nat, n, (st + buffers.buffers@.len() - 1) as nat, lastb));
            crate::geometry::lemma_split(a.elem_of(last_offset(offset as nat, n)), a.dim.cols as nat);
        }
        data.len()
    }

    /// Reads the bytes at `addr`, which with all of `data` lies in the region, into
    /// `data`: every touched element is read from the store.
    pub fn read<S: ElementStore>(&self, store: &mut S, addr: u64, data: &mut [u8]) -> (r: usize)
        requires
            self.wf(),
            self.supported(),
            self.base <= addr,
            addr - self.base + old(data)@.len() <= self.size,
        ensures
            r == old(data)@.len(),
            final(data)@ == array_bytes(*old(store), &self.array, (addr - self.base) as nat, old(data)@.len()),
            same_contents(*final(store), *old(store)),
            final(store).element_reads() == old(store).element_reads() + direct_elements(
                &self.array,
                (addr - self.base) as nat,
                old(data)@.len(),
            ),
            crate::buffer::other_logs_kept(*final(store), *old(store)),
    {
        let ghost s0 = *store;
        if data.len() == 0 {
            assert(data@ =~= array_bytes(*store, &self.array, (addr - self.base) as nat, 0));
            assert(old(store).element_reads() + direct_elements(&self.array, (addr - self.base) as nat, 0)
                =~= old(store).element_reads());
            return 0;
        }
        let offset = self.offset(addr);
        let a = &self.array;
        let mut buffers = RowBufferSet::new(a, offset, data.len());
        let ghost n = data@.len();
        let ghost w = a.width as nat;
        let ghost st = buffers.start_idx as nat;
        proof {
            lemma_plan_wf(&self.array, buffers, offset as nat, n);
        }
        let ghost planned = buffers;
        buffers.sync_all(a, store);
        proof {
            lemma_set_elements_run(a, planned, offset as nat, n);
        }
        let mut i: usize = 0;
        while i < data.len()
            invariant
                self.wf(),
                self.supported(),
                a == &self.array,
                n == data@.len(),
                n >= 1,
                w == a.width,
                offset + n <= a.size_spec(),
                buffers.plans(a, offset as nat, n),
                buffers.wf(a),
                st == buffers.start_idx,
                0 <= i <= n,
                forall|k: int, c: nat, j: nat|
                    0 <= k < buffers.buffers@.len() && buffers.buffers@[k].head_idx <= c
                        <= buffers.buffers@[k].tail_idx && j < w ==> #[trigger] buffers.buffers@[k].staged(w, c, j)
                        == s0.element(a.path@, (st + k) as nat, c, w)[j as int],
                forall|x: int| 0 <= x < i ==> #[trigger] data@[x] == array_bytes(s0, a, offset as nat, n)[x],
            decreases n - i,
        {
            let o = offset + i;
            let ghost ko = a.row_of(o as nat) - st;
            proof {
                lemma_decompose(a, o as nat);
                crate::buffer::lemma_in_array(a, o as nat);
                crate::geometry::lemma_div_le(offset as nat, o as nat, w);
                crate::geometry::lemma_div_le(o as nat, last_offset(offset as nat, n), w);
                crate::geometry::lemma_div_le(a.elem_of(offset as nat), a.elem_of(o as nat), a.dim.cols as nat);
                crate::geometry::lemma_div_le(a.elem_of(o as nat), a.elem_of(last_offset(offset as nat, n)), a.dim.cols as nat);
                lemma_window(a, offset as nat, n, buffers.buffers@[ko], a.row_of(o as nat), a.col_of(o as nat));
            }
            let buffer = buffers.get_buffer(a, o);
            data[i] = buffer.get_data(a, o);
            i = i + 1;
        }
        assert(data@ =~= array_bytes(s0, a, offset as nat, n));
        data.len()
    }
}


/// `after` is `before` with `data` written at byte `offset` of the black box `name`.
pub open spec fn box_written<S: ElementStore>(
    before: S,
    after: S,
    name: Seq<char>,
    offset: nat,
    data: Seq<u8>,
) -> bool {
    &&& forall|n: Seq<char>, o: nat| #[trigger]
        after.byte(n, o) == if n == name && offset <= o < offset + data.len() {
            data[o - offset]
        } else {
            before.byte(n, o)
        }
    &&& forall|p: Seq<char>, r: nat, c: nat, w: nat| #[trigger]
        after.element(p, r, c, w) == before.element(p, r, c, w)
}

/// The byte writes that writing `len` bytes at byte `offset` of the black box `name`
/// makes: each byte once, in order.
pub open spec fn box_run(name: Seq<char>, offset: nat, len: nat) -> Seq<(Seq<char>, nat)> {
    Seq::new(len, |i: int| (name, (offset + i) as nat))
}

/// The `len` bytes at byte `offset` of the black box `name`.
pub open spec fn box_bytes<S: ElementStore>(s: S, name: Seq<char>, offset: nat, len: nat) -> Seq<u8> {
    Seq::new(len, |i: int| s.byte(name, (offset + i) as nat))
}

/// A region with no arrays of its own: each byte goes to the black box `name`.
#[derive(Debug)]
pub struct DPIBlackBoxShareMem {
    pub name: String,
    pub base: u64,
    pub size: usize,
    /// How the black box is initialised.
    pub init: InitMethod,
}

impl DPIBlackBoxShareMem {
    pub open spec fn wf(&self) -> bool {
        self.base + self.size <= u64::MAX + 1
    }

    pub fn new(name: String, base: u64, size: usize) -> (r: DPIBlackBoxShareMem)
        ensures
            r.name@ == name@,
            r.base == base,
            r.size == size,
    {
        DPIBlackBoxShareMem { name, base, size, init: InitMethod::NoInit }
    }

    /// The region's local offset of `addr`.
    pub fn offset(&self, addr: u64) -> (r: usize)
        requires
            self.base <= addr,
            addr - self.base <= self.size,
        ensures
            r == addr - self.base,
    {
        (addr - self.base) as usize
    }

    /// Writes `data` at `addr`, which with all of `data` lies in the region, one byte
    /// at a time.
    pub fn write<S: ElementStore>(&self, store: &mut S, addr: u64, data: &[u8]) -> (r: usize)
        requires
            self.base <= addr,
            addr - self.base + data@.len() <= self.size,
        ensures
            r == data@.len(),
            box_written(*old(store), *final(store), self.name@, (addr - self.base) as nat, data@),
            data@.len() == 0 ==> *final(store) == *old(store),
            final(store).byte_writes() == old(store).byte_writes() + box_run(self.name@, (addr - self.base) as nat, data@.len()),
            final(store).element_writes() == old(store).element_writes(),
    {
        let offset = self.offset(addr);
        let mut i: usize = 0;
        while i < data.len()
            invariant
                offset + data@.len() <= self.size,
                i <= data@.len(),
                i == 0 ==> *store == *old(store),
                forall|n: Seq<char>, o: nat| #[trigger]
                    store.byte(n, o) == if n == self.name@ && offset <= o < offset + i {
                        data@[o - offset]
                    } else {
                        old(store).byte(n, o)
                    },
                forall|p: Seq<char>, r: nat, c: nat, w: nat| #[trigger]
                    store.element(p, r, c, w) == old(store).element(p, r, c, w),
                store.byte_writes() == old(store).byte_writes() + box_run(self.name@, offset as nat, i as nat),
                store.element_writes() == old(store).element_writes(),
            decreases data@.len() - i,
        {
            store.write_byte(self.name.as_str(), offset + i, data[i]);
            proof {
                assert(box_run(self.name@, offset as nat, (i + 1) as nat) =~= box_run(self.name@, offset as nat, i as nat).push(
                    (self.name@, (offset + i) as nat),
                ));
                assert(store.byte_writes() =~= old(store).byte_writes() + box_run(self.name@, offset as nat, (i + 1) as nat));
            }
            i = i + 1;
        }
        proof {
            if data@.len() == 0 {
                assert(old(store).byte_writes() + box_run(self.name@, offset as nat, 0) =~= old(store).byte_writes());
            }
        }
        data.len()
    }

    /// Reads the bytes at `addr`, which with all of `data` lies in the region, into
    /// `data`, one byte at a time.
    pub fn read<S: ElementStore>(&self, store: &mut S, addr: u64, data: &mut [u8]) -> (r: usize)
        requires
            self.base <= addr,
            addr - self.base + old(data)@.len() <= self.size,
        ensures
            r == old(data)@.len(),
            final(data)@ == box_bytes(*old(store), self.name@, (addr - self.base) as nat, old(data)@.len()),
            same_contents(*final(store), *old(store)),
            final(store).byte_reads() == old(store).byte_reads() + box_run(self.name@, (addr - self.base) as nat, old(data)@.len()),
            final(store).element_reads() == old(store).element_reads(),
            final(store).element_writes() == old(store).element_writes(),
            final(store).byte_writes() == old(store).byte_writes(),
    {
        let offset = self.offset(addr);
        let ghost s0 = *store;
        let mut i: usize = 0;
        while i < data.len()
            invariant
                offset + data@.len() <= self.size,
                i <= data@.len(),
                data@.len() == old(data)@.len(),
                s0 == *old(store),
                forall|x: int| 0 <= x < i ==> #[trigger] data@[x] == s0.byte(self.name@, (offset + x) as nat),
                same_contents(*store, s0),
                store.byte_reads() == s0.byte_reads() + box_run(self.name@, offset as nat, i as nat),
                store.element_reads() == s0.element_reads(),
                store.element_writes() == s0.element_writes(),
                store.byte_writes() == s0.byte_writes(),
            decreases data@.len() - i,
        {
            let ghost pre = *store;
            data[i] = store.read_byte(self.name.as_str(), offset + i);
            proof {
                crate::store::lemma_same_contents_trans(*store, pre, s0);
                assert(box_run(self.name@, offset as nat, (i + 1) as nat) =~= box_run(self.name@, offset as nat, i as nat).push(
                    (self.name@, (offset + i) as nat),
                ));
            }
            i = i + 1;
        }
        assert(data@ =~= box_bytes(s0, self.name@, offset as nat, data@.len()));
        assert(store.byte_reads() =~= s0.byte_reads() + box_run(self.name@, offset as nat, data@.len()));
        data.len()
    }
}

/// How many of `len` bytes at `addr` a region of `size` bytes at `base` takes: all of
/// them when they fit, else those up to the region's last byte.
pub open spec fn fit_len(base: nat, size: nat, addr: nat, len: nat) -> nat {
    if len == 0 {
        0
    } else if addr + len - 1 <= base + size - 1 {
        len
    } else {
        (base + size - addr) as nat
    }
}

/// A region of the memory space.
#[derive(Debug)]
pub enum DPIShareMem {
    BlackBox(DPIBlackBoxShareMem),
    Direct(DPIDirectShareMem),
    Banked(DPIBankedShareMem),
}

impl DPIShareMem {
    pub open spec fn base_spec(&self) -> nat {
        match self {
            DPIShareMem::BlackBox(m) => m.base as nat,
            DPIShareMem::Direct(m) => m.base as nat,
            DPIShareMem::Banked(m) => m.base as nat,
        }
    }

    pub open spec fn size_spec(&self) -> nat {
        match self {
            DPIShareMem::BlackBox(m) => m.size as nat,
            DPIShareMem::Direct(m) => m.size as nat,
            DPIShareMem::Banked(m) => m.size as nat,
        }
    }

    /// The region is consistent: what a validated configuration guarantees.
    pub open spec fn wf(&self) -> bool {
        match self {
            DPIShareMem::BlackBox(m) => m.wf(),
            DPIShareMem::Direct(m) => m.wf(),
            DPIShareMem::Banked(m) => m.wf(),
        }
    }

    /// Reads and writes of the region place every byte.
    pub open spec fn supported(&self) -> bool {
        match self {
            DPIShareMem::BlackBox(m) => true,
            DPIShareMem::Direct(m) => m.supported(),
            DPIShareMem::Banked(m) => m.supported(),
        }
    }

    /// `addr` is a byte of the region.
    pub open spec fn in_range_spec(&self, addr: nat) -> bool {
        self.base_spec() <= addr < self.base_spec() + self.size_spec()
    }

    pub fn base(&self) -> (r: u64)
        ensures
            r == self.base_spec(),
    {
        match self {
            DPIShareMem::BlackBox(m) => m.base,
            DPIShareMem::Direct(m) => m.base,
            DPIShareMem::Banked(m) => m.base,
        }
    }

    pub fn size(&self) -> (r: usize)
        ensures
            r == self.size_spec(),
    {
        match self {
            DPIShareMem::BlackBox(m) => m.size,
            DPIShareMem::Direct(m) => m.size,
            DPIShareMem::Banked(m) => m.size,
        }
    }

    /// The region with its init method set to `method`.
    pub open spec fn with_init(self, method: InitMethod) -> DPIShareMem {
        match self {
            DPIShareMem::BlackBox(m) => DPIShareMem::BlackBox(DPIBlackBoxShareMem { init: method, ..m }),
            DPIShareMem::Direct(m) => DPIShareMem::Direct(DPIDirectShareMem { init: method, ..m }),
            DPIShareMem::Banked(m) => DPIShareMem::Banked(DPIBankedShareMem { init: method, ..m }),
        }
    }

    /// The region's init method.
    pub open spec fn init_spec(&self) -> InitMethod {
        match self {
            DPIShareMem::BlackBox(m) => m.init,
            DPIShareMem::Direct(m) => m.init,
            DPIShareMem::Banked(m) => m.init,
        }
    }

    /// Attaches the init method that governs the one-time initialisation of the
    /// region's backing store.
    pub fn init(&mut self, method: InitMethod)
        ensures
            *final(self) == old(self).with_init(method),
    {
        match self {
            DPIShareMem::BlackBox(m) => {
                m.init = method;
            },
            DPIShareMem::Direct(m) => {
                m.init = method;
            },
            DPIShareMem::Banked(m) => {
                m.init = method;
            },
        }
    }

    /// Reads and writes of the region place every byte (widths and bank counts above
    /// 2^31 are refused).
    pub fn is_supported(&self) -> (r: bool)
        requires
            self.wf(),
        ensures
            r ==> self.supported(),
            r == match self {
                DPIShareMem::BlackBox(m) => true,
                DPIShareMem::Direct(m) => m.array.width <= 0x8000_0000 && m.supported(),
                DPIShareMem::Banked(m) => m.supported() && m.width <= 0x8000_0000 && m.bank_width
                    <= 0x8000_0000 && m.cols_spec() <= 0x8000_0000,
            },
    {
        match self {
            DPIShareMem::BlackBox(m) => true,
            DPIShareMem::Direct(m) => m.is_supported(),
            DPIShareMem::Banked(m) => m.is_supported(),
        }
    }

    /// The address of the region's last byte.
    pub fn end_addr(&self) -> (r: u64)
        requires
            self.wf(),
            self.size_spec() >= 1,
        ensures
            r == self.base_spec() + self.size_spec() - 1,
    {
        (self.base() as u128 + self.size() as u128 - 1) as u64
    }

    /// `addr` is a byte of the region.
    pub fn in_range(&self, addr: u64) -> (r: bool)
        requires
            self.wf(),
        ensures
            r == self.in_range_spec(addr as nat),
    {
        let base = self.base();
        base <= addr && (addr - base) < self.size() as u64
    }

    /// How many of `len` bytes at `addr` the region takes.
    fn fit(&self, addr: u64, len: usize) -> (r: usize)
        requires
            self.wf(),
            self.in_range_spec(addr as nat),
        ensures
            r == fit_len(self.base_spec(), self.size_spec(), addr as nat, len as nat),
            r <= len,
            addr - self.base_spec() + r <= self.size_spec(),
    {
        if len == 0 {
            return 0;
        }
        let room = self.end_addr() - addr;
        if (len - 1) as u64 <= room {
            len
        } else {
            (room + 1) as usize
        }
    }

    /// Writes `data` at `addr`, a byte of the region; bytes past the region's end are
    /// dropped. Returns the number of bytes written.
    pub fn write<S: ElementStore>(&self, store: &mut S, addr: u64, data: &[u8]) -> (r: usize)
        requires
            self.wf(),
            self.supported(),
            data@.len() > 0 ==> self.in_range_spec(addr as nat),
        ensures
            r == fit_len(self.base_spec(), self.size_spec(), addr as nat, data@.len()),
            r == 0 ==> *final(store) == *old(store),
            match self {
                DPIShareMem::BlackBox(m) => box_written(
                    *old(store),
                    *final(store),
                    m.name@,
                    (addr - m.base) as nat,
                    data@.subrange(0, r as int),
                ),
                DPIShareMem::Direct(m) => array_written(
                    *old(store),
                    *final(store),
                    &m.array,
                    (addr - m.base) as nat,
                    data@.subrange(0, r as int),
                ),
                DPIShareMem::Banked(m) => banked_written(
                    *old(store),
                    *final(store),
                    m,
                    (addr - m.base) as nat,
                    data@.subrange(0, r as int),
                ),
            },
            match self {
                DPIShareMem::BlackBox(m) => final(store).byte_writes() == old(store).byte_writes() + box_run(
                    m.name@,
                    (addr - m.base) as nat,
                    r as nat,
                ) && final(store).element_writes() == old(store).element_writes(),
                DPIShareMem::Direct(m) => final(store).element_writes() == old(store).element_writes()
                    + direct_elements(&m.array, (addr - m.base) as nat, r as nat) && final(store).byte_writes()
                    == old(store).byte_writes(),
                DPIShareMem::Banked(m) => final(store).element_writes() == old(store).element_writes()
                    + crate::banked::banked_elements(m, (addr - m.base) as nat, r as nat) && final(store).byte_writes()
                    == old(store).byte_writes(),
            },
    {
        if data.len() == 0 {
            proof {
                self.lemma_no_change(*store, addr as nat);
                assert(data@.subrange(0, 0) =~= Seq::<u8>::empty());
                match self {
                    DPIShareMem::BlackBox(m) => {
                        assert(old(store).byte_writes() + box_run(m.name@, (addr - m.base) as nat, 0)
                            =~= old(store).byte_writes());
                    },
                    DPIShareMem::Direct(m) => {
                        assert(old(store).element_writes() + direct_elements(&m.array, (addr - m.base) as nat, 0)
                            =~= old(store).element_writes());
                    },
                    DPIShareMem::Banked(m) => {
                        assert(old(store).element_writes() + crate::banked::banked_elements(m, (addr - m.base) as nat, 0)
                            =~= old(store).element_writes());
                    },
                }
            }
            return 0;
        }
        let len = self.fit(addr, data.len());
        let part = slice_subrange(data, 0, len);
        match self {
            DPIShareMem::BlackBox(m) => m.write(store, addr, part),
            DPIShareMem::Direct(m) => m.write(store, addr, part),
            DPIShareMem::Banked(m) => m.write(store, addr, part),
        }
    }

    /// Reads the bytes at `addr`, a byte of the region, into `data`; bytes of `data`
    /// past the region's end are left as they were. Returns the number of bytes read.
    pub fn read<S: ElementStore>(&self, store: &mut S, addr: u64, data: &mut [u8]) -> (r: usize)
        requires
            self.wf(),
            self.supported(),
            old(data)@.len() > 0 ==> self.in_range_spec(addr as nat),
        ensures
            r == fit_len(self.base_spec(), self.size_spec(), addr as nat, old(data)@.len()),
            final(data)@.len() == old(data)@.len(),
            final(data)@.subrange(r as int, final(data)@.len() as int) == old(data)@.subrange(
                r as int,
                old(data)@.len() as int,
            ),
            final(data)@.subrange(0, r as int) == match self {
                DPIShareMem::BlackBox(m) => box_bytes(*old(store), m.name@, (addr - m.base) as nat, r as nat),
                DPIShareMem::Direct(m) => array_bytes(*old(store), &m.array, (addr - m.base) as nat, r as nat),
                DPIShareMem::Banked(m) => banked_bytes(*old(store), m, (addr - m.base) as nat, r as nat),
            },
            same_contents(*final(store), *old(store)),
            final(store).element_writes() == old(store).element_writes(),
            final(store).byte_writes() == old(store).byte_writes(),
            match self {
                DPIShareMem::BlackBox(m) => final(store).byte_reads() == old(store).byte_reads() + box_run(
                    m.name@,
                    (addr - m.base) as nat,
                    r as nat,
                ) && final(store).element_reads() == old(store).element_reads(),
                DPIShareMem::Direct(m) => final(store).element_reads() == old(store).element_reads()
                    + direct_elements(&m.array, (addr - m.base) as nat, r as nat) && final(store).byte_reads()
                    == old(store).byte_reads(),
                DPIShareMem::Banked(m) => final(store).element_reads() == old(store).element_reads()
                    + crate::banked::banked_elements(m, (addr - m.base) as nat, r as nat) && final(store).byte_reads()
                    == old(store).byte_reads(),
            },
    {
        if data.len() == 0 {
            assert(data@.subrange(0, 0) =~= Seq::<u8>::empty());
            assert(data@.subrange(0, data@.len() as int) =~= data@);
            proof {
                match self {
                    DPIShareMem::BlackBox(m) => {
                        assert(box_bytes(*store, m.name@, (addr - m.base) as nat, 0) =~= Seq::<u8>::empty());
                    },
                    DPIShareMem::Direct(m) => {
                        assert(array_bytes(*store, &m.array, (addr - m.base) as nat, 0) =~= Seq::<u8>::empty());
                    },
                    DPIShareMem::Banked(m) => {
                        assert(banked_bytes(*store, m, (addr - m.base) as nat, 0) =~= Seq::<u8>::empty());
                    },
                }
                match self {
                    DPIShareMem::BlackBox(m) => {
                        assert(old(store).byte_reads() + box_run(m.name@, (addr - m.base) as nat, 0) =~= old(store).byte_reads());
                    },
                    DPIShareMem::Direct(m) => {
                        assert(old(store).element_reads() + direct_elements(&m.array, (addr - m.base) as nat, 0)
                            =~= old(store).element_reads());
                    },
                    DPIShareMem::Banked(m) => {
                        assert(old(store).element_reads() + crate::banked::banked_elements(m, (addr - m.base) as nat, 0)
                            =~= old(store).element_reads());
                    },
                }
            }
            return 0;
        }
        let len = self.fit(addr, data.len());
        let mut part: Vec<u8> = Vec::new();
        while part.len() < len
            invariant
                part@.len() <= len,
            decreases len - part@.len(),
        {
            part.push(0);
        }
        let n = match self {
            DPIShareMem::BlackBox(m) => m.read(store, addr, part.as_mut_slice()),
            DPIShareMem::Direct(m) => m.read(store, addr, part.as_mut_slice()),
            DPIShareMem::Banked(m) => m.read(store, addr, part.as_mut_slice()),
        };
        let mut i: usize = 0;
        while i < n
            invariant
                n == part@.len(),
                n <= data@.len(),
                i <= n,
                data@.len() == old(data)@.len(),
                forall|x: int| 0 <= x < i ==> #[trigger] data@[x] == part@[x],
                forall|x: int| n <= x < data@.len() ==> #[trigger] data@[x] == old(data)@[x],
            decreases n - i,
        {
            data[i] = part[i];
            i = i + 1;
        }
        assert(data@.subrange(0, n as int) =~= part@);
        assert(data@.subrange(n as int, data@.len() as int) =~= old(data)@.subrange(n as int, old(data)@.len() as int));
        n
    }

    /// With nothing written, each kind of region is as written.
    proof fn lemma_no_change<S: ElementStore>(&self, s: S, addr: nat)
        ensures
            match self {
                DPIShareMem::BlackBox(m) => box_written(s, s, m.name@, (addr - m.base) as nat, Seq::<u8>::empty()),
                DPIShareMem::Direct(m) => array_written(s, s, &m.array, (addr - m.base) as nat, Seq::<u8>::empty()),
                DPIShareMem::Banked(m) => banked_written(s, s, m, (addr - m.base) as nat, Seq::<u8>::empty()),
            },
    {
        match self {
            DPIShareMem::BlackBox(m) => {},
            DPIShareMem::Direct(m) => {
                lemma_nothing_written(s, &m.array, (addr - m.base) as nat, Seq::<u8>::empty());
            },
            DPIShareMem::Banked(m) => {},
        }
    }
}

} // verus!
