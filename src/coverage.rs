//! Which elements the row buffers of a transaction cover, and which of them are
//! primed from the store before being overwritten.
use crate::buffer::{last_offset, row_plan, RowBuffer};
use crate::geometry::{lemma_join, lemma_split, MemArray};
use vstd::prelude::*;

verus! {

/// The byte offset of byte `j` of the element at `(row, col)`.
pub open spec fn global_offset(a: &MemArray, row: nat, col: nat, j: nat) -> nat {
    (row * (a.dim.cols as nat) + col) * (a.width as nat) + j
}

/// A byte offset is the offset of its byte within its element at its row and column.
pub proof fn lemma_decompose(a: &MemArray, o: nat)
    requires
        a.wf(),
        a.pow2_width(),
    ensures
        o == global_offset(a, a.row_of(o), a.col_of(o), a.byte_of(o)),
        a.byte_of(o) < a.width,
        a.col_of(o) < a.dim.cols,
        a.elem_of(o) == a.row_of(o) * (a.dim.cols as nat) + a.col_of(o),
{
    lemma_split(o, a.width as nat);
    lemma_split(a.elem_of(o), a.dim.cols as nat);
}

/// The row, column and byte of the offset of byte `j` at `(row, col)` are those.
pub proof fn lemma_compose(a: &MemArray, row: nat, col: nat, j: nat)
    requires
        a.wf(),
        a.pow2_width(),
        col < a.dim.cols,
        j < a.width,
    ensures
        a.elem_of(global_offset(a, row, col, j)) == row * (a.dim.cols as nat) + col,
        a.row_of(global_offset(a, row, col, j)) == row,
        a.col_of(global_offset(a, row, col, j)) == col,
        a.byte_of(global_offset(a, row, col, j)) == j,
{
    let e = row * (a.dim.cols as nat) + col;
    lemma_join(global_offset(a, row, col, j), a.width as nat, e, j);
    lemma_join(e, a.dim.cols as nat, row, col);
}

/// The element of a byte is below an element `e` exactly when the byte is below the
/// start of `e`; it is above `e` exactly when the byte is past its end.
pub proof fn lemma_elem_order(a: &MemArray, o: nat, e: nat)
    requires
        a.wf(),
    ensures
        a.elem_of(o) < e <==> o < e * (a.width as nat),
        a.elem_of(o) > e <==> o >= (e + 1) * (a.width as nat),
{
    let w = a.width as nat;
    lemma_split(o, w);
    let q = a.elem_of(o);
    if q < e {
        assert(q * w + w <= e * w) by (nonlinear_arith)
            requires
                q < e,
        ;
    } else {
        assert(e * w <= q * w) by (nonlinear_arith)
            requires
                e <= q,
        ;
    }
    if q > e {
        assert((e + 1) * w <= q * w) by (nonlinear_arith)
            requires
                e < q,
        ;
    } else {
        assert(q * w + w <= (e + 1) * w) by (nonlinear_arith)
            requires
                q <= e,
        ;
    }
}

/// The row buffers of a transaction cover exactly the elements from the element of
/// its first byte to the element of its last byte.
pub proof fn lemma_window(a: &MemArray, offset: nat, len: nat, b: RowBuffer, row: nat, col: nat)
    requires
        a.wf(),
        len >= 1,
        a.row_of(offset) <= row <= a.row_of(last_offset(offset, len)),
        row_plan(a, offset, len, row, b),
        col < a.dim.cols,
    ensures
        (b.head_idx <= col <= b.tail_idx) <==> (a.elem_of(offset) <= row * (a.dim.cols as nat) + col
            <= a.elem_of(last_offset(offset, len))),
{
    let c = a.dim.cols as nat;
    let es = a.elem_of(offset);
    let ee = a.elem_of(last_offset(offset, len));
    let e = row * c + col;
    lemma_split(es, c);
    lemma_split(ee, c);
    let sr = a.row_of(offset);
    let er = a.row_of(last_offset(offset, len));
    if row > sr {
        assert(row * c >= sr * c + c) by (nonlinear_arith)
            requires
                row >= sr + 1,
        ;
    }
    if row < er {
        assert(row * c + c <= er * c) by (nonlinear_arith)
            requires
                row + 1 <= er,
        ;
    }
}

/// A byte of a covered element that the transaction does not write lies in an
/// element that is primed from the store.
pub proof fn lemma_primed(a: &MemArray, offset: nat, len: nat, b: RowBuffer, row: nat, col: nat, j: nat)
    requires
        a.wf(),
        a.pow2_width(),
        len >= 1,
        a.row_of(offset) <= row <= a.row_of(last_offset(offset, len)),
        row_plan(a, offset, len, row, b),
        b.head_idx <= col <= b.tail_idx,
        j < a.width,
        !(offset <= global_offset(a, row, col, j) < offset + len),
    ensures
        b.primed(col),
{
    let c = a.dim.cols as nat;
    let w = a.width as nat;
    let end = last_offset(offset, len);
    let e = row * c + col;
    let g = global_offset(a, row, col, j);
    lemma_window(a, offset, len, b, row, col);
    lemma_decompose(a, offset);
    lemma_decompose(a, end);
    lemma_compose(a, row, col, j);
    lemma_elem_order(a, offset, e);
    lemma_elem_order(a, end, e);
    if g < offset {
        // The element of `g` is the element of `offset`.
        lemma_elem_order(a, g, a.elem_of(offset));
        lemma_join(e, c, a.row_of(offset), a.col_of(offset));
    } else {
        lemma_elem_order(a, g, a.elem_of(end));
        lemma_join(e, c, a.row_of(end), a.col_of(end));
    }
}

} // verus!
