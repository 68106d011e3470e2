//! Facts about reads and writes that hold for every region and every store.
use crate::banked::{bank_touched, banked_bytes, banked_written, DPIBankedShareMem};
use crate::buffer::last_offset;
use crate::coverage::lemma_decompose;
use crate::region::{array_bytes, array_written, fit_len, DPIDirectShareMem};
use crate::store::ElementStore;
use vstd::prelude::*;

verus! {

/// Reading back the bytes just written to a Direct region returns them: if `after` is
/// `before` with `data` written at `addr`, the bytes at `addr` in `after` are `data`.
pub proof fn lemma_direct_round_trip<S: ElementStore>(
    m: &DPIDirectShareMem,
    before: S,
    after: S,
    addr: nat,
    data: Seq<u8>,
)
    requires
        m.wf(),
        m.supported(),
        m.base <= addr,
        addr - m.base + data.len() <= m.size,
        array_written(before, after, &m.array, (addr - m.base) as nat, data),
    ensures
        array_bytes(after, &m.array, (addr - m.base) as nat, data.len()) == data,
{
    let a = &m.array;
    let offset = (addr - m.base) as nat;
    let w = a.width as nat;
    assert forall|i: int| 0 <= i < data.len() implies #[trigger] array_bytes(after, a, offset, data.len())[i]
        == data[i] by {
        let o = (offset + i) as nat;
        lemma_decompose(a, o);
        crate::buffer::lemma_in_array(a, o);
        crate::geometry::lemma_div_le(offset, o, w);
        crate::geometry::lemma_div_le(o, last_offset(offset, data.len()), w);
    }
    assert(array_bytes(after, a, offset, data.len()) =~= data);
}

/// Writing part of an element keeps the bytes of the element that the part does not
/// cover: after the element at index `e` is written with `pattern` and then `data` is
/// written at `addr`, each byte of the element outside `data` still holds `pattern`.
pub proof fn lemma_direct_boundary<S: ElementStore>(
    m: &DPIDirectShareMem,
    s0: S,
    s1: S,
    s2: S,
    e: nat,
    pattern: Seq<u8>,
    addr: nat,
    data: Seq<u8>,
)
    requires
        m.wf(),
        m.supported(),
        pattern.len() == m.array.width,
        e < m.array.depth_spec(),
        array_written(s0, s1, &m.array, e * (m.array.width as nat), pattern),
        m.base <= addr,
        addr - m.base + data.len() <= m.size,
        array_written(s1, s2, &m.array, (addr - m.base) as nat, data),
    ensures
        forall|j: int|
            0 <= j < pattern.len() && !((addr - m.base) <= e * (m.array.width as nat) + j < (addr
                - m.base) + data.len()) ==> #[trigger] array_bytes(
                s2,
                &m.array,
                e * (m.array.width as nat),
                pattern.len(),
            )[j] == pattern[j],
{
    let a = &m.array;
    let w = a.width as nat;
    let start = e * w;
    let offset = (addr - m.base) as nat;
    assert(start + w <= a.size_spec()) by (nonlinear_arith)
        requires
            e < a.depth_spec(),
            a.size_spec() == a.depth_spec() * w,
            start == e * w,
    ;
    assert forall|j: int|
        0 <= j < pattern.len() && !(offset <= start + j < offset + data.len()) implies #[trigger] array_bytes(
            s2,
            a,
            start,
            pattern.len(),
        )[j] == pattern[j] by {
        let o = (start + j) as nat;
        lemma_decompose(a, o);
        crate::buffer::lemma_in_array(a, o);
        crate::geometry::lemma_join(o, w, e, j as nat);
        crate::geometry::lemma_join(start, w, e, 0);
        crate::geometry::lemma_join((start + w - 1) as nat, w, e, (w - 1) as nat);
        let r = a.row_of(o);
        let c = a.col_of(o);
        assert(a.elem_of(o) == e);
        assert(e == r * (a.dim.cols as nat) + c);
        assert(crate::region::touched(a, start, w, r, c));
        let s1e = s1.element(a.path@, r, c, w);
        assert(s1e[j] == pattern[j]);
        if crate::region::touched(a, offset, data.len(), r, c) {
            assert(s2.element(a.path@, r, c, w)[j] == s1e[j]);
        } else {
            assert(s2.element(a.path@, r, c, w) == s1e);
        }
    }
}

/// A write that starts two bytes before a region's last byte takes three bytes of ten.
pub proof fn lemma_truncation_at_end(base: nat, size: nat)
    requires
        size >= 3,
    ensures
        fit_len(base, size, (base + size - 3) as nat, 10) == 3,
{
}

/// Reading back the bytes just written to a Banked region returns them: if `after` is
/// `before` with `data` written at `addr`, the bytes at `addr` in `after` are `data`.
pub proof fn lemma_banked_round_trip<S: ElementStore>(
    m: &DPIBankedShareMem,
    before: S,
    after: S,
    addr: nat,
    data: Seq<u8>,
)
    requires
        m.wf(),
        m.supported(),
        m.base <= addr,
        addr - m.base + data.len() <= m.size,
        banked_written(before, after, m, (addr - m.base) as nat, data),
    ensures
        banked_bytes(after, m, (addr - m.base) as nat, data.len()) == data,
{
    let offset = (addr - m.base) as nat;
    let bw = m.bank_width as nat;
    assert forall|i: int| 0 <= i < data.len() implies #[trigger] banked_bytes(after, m, offset, data.len())[i]
        == data[i] by {
        let o = (offset + i) as nat;
        m.lemma_decompose(o);
        let r = m.row_of(o);
        let c = m.col_of(o);
        let k = (o / m.width as nat) % (m.bank_depth as nat);
        let j = o % bw;
        let b = m.banks@[r as int]@[c as int];
        m.lemma_in_bank(&b, k, j);
        crate::buffer::lemma_in_array(&b, k * bw + j);
        let rb = b.row_of(k * bw + j);
        let cb = b.col_of(k * bw + j);
        assert(rb * (b.dim.cols as nat) + cb == k);
        assert(bank_touched(m, offset, data.len(), r, k, c));
    }
    assert(banked_bytes(after, m, offset, data.len()) =~= data);
}

} // verus!
