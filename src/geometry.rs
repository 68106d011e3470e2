//! Geometry of one simulated memory array: rows of columns of fixed-width elements.
use vstd::arithmetic::div_mod::{lemma_fundamental_div_mod, lemma_fundamental_div_mod_converse};
use vstd::prelude::*;

verus! {

/// The smallest power of two, counting up from `p` by doubling, that is at least `n`.
pub open spec fn pow2_from(n: nat, p: nat) -> nat
    decreases (if p >= n { 0 } else { n - p }),
{
    if p == 0 || p >= n {
        p
    } else {
        pow2_from(n, 2 * p)
    }
}

/// `n` rounded up to the next power of two (1 for 0 and 1).
pub open spec fn round_up_pow2(n: nat) -> nat {
    pow2_from(n, 1)
}

/// `n` is a power of two.
pub open spec fn is_pow2(n: nat) -> bool {
    n >= 1 && round_up_pow2(n) == n
}

/// Rounds `n` up to the next power of two.
pub fn next_pow2(n: usize) -> (r: usize)
    requires
        n <= 0x8000_0000,
    ensures
        r as nat == round_up_pow2(n as nat),
        r >= n,
        r >= 1,
{
    let mut p: usize = 1;
    while p < n
        invariant
            1 <= p <= 2 * n + 1,
            n <= 0x8000_0000,
            pow2_from(n as nat, p as nat) == round_up_pow2(n as nat),
        decreases 2 * n + 1 - p,
    {
        p = p * 2;
    }
    p
}

/// A power of two is its own rounding.
pub proof fn lemma_pow2_round(n: nat)
    requires
        is_pow2(n),
    ensures
        round_up_pow2(n) == n,
{
}

/// An offset is its element's start plus its byte within the element.
pub proof fn lemma_split(x: nat, d: nat)
    requires
        d > 0,
    ensures
        x == (x / d) * d + x % d,
        x % d < d,
        (x / d) * d <= x,
{
    lemma_fundamental_div_mod(x as int, d as int);
    assert((x / d) * d == d * (x / d)) by (nonlinear_arith);
}

/// Quotient and remainder are unique.
pub proof fn lemma_join(x: nat, d: nat, q: nat, r: nat)
    requires
        d > 0,
        r < d,
        x == q * d + r,
    ensures
        x / d == q,
        x % d == r,
{
    lemma_fundamental_div_mod_converse(x as int, d as int, q as int, r as int);
}

/// Division is monotonic.
pub proof fn lemma_div_le(x: nat, y: nat, d: nat)
    requires
        d > 0,
        x <= y,
    ensures
        x / d <= y / d,
{
    vstd::arithmetic::div_mod::lemma_div_is_ordered(x as int, y as int, d as int);
}

/// Rows and columns of an array, in elements.
#[derive(Clone, Copy, Debug, PartialEq, Eq, Structural)]
pub struct ArrayDim {
    pub rows: usize,
    pub cols: usize,
}

impl ArrayDim {
    /// Number of elements.
    pub open spec fn depth_spec(self) -> nat {
        self.rows as nat * self.cols as nat
    }

    /// The row of element `idx`.
    pub fn row(&self, idx: usize) -> (r: usize)
        requires
            self.cols > 0,
        ensures
            r == idx / self.cols,
    {
        idx / self.cols
    }

    /// The column of element `idx`.
    pub fn col(&self, idx: usize) -> (r: usize)
        requires
            self.cols > 0,
        ensures
            r == idx % self.cols,
    {
        idx % self.cols
    }

    /// Number of elements, or `None` when it does not fit in `usize`.
    pub fn depth(&self) -> (r: Option<usize>)
        ensures
            r == (if self.depth_spec() <= usize::MAX {
                Some(self.depth_spec() as usize)
            } else {
                None::<usize>
            }),
    {
        self.rows.checked_mul(self.cols)
    }
}

/// One simulated memory array: a hierarchical path, its dimensions and the byte
/// width of each element.
#[derive(Debug)]
pub struct MemArray {
    pub path: String,
    pub dim: ArrayDim,
    pub width: usize,
}

impl MemArray {
    /// Elements are addressable: no dimension is zero and the array size fits in `usize`.
    pub open spec fn wf(&self) -> bool {
        &&& self.dim.rows > 0
        &&& self.dim.cols > 0
        &&& self.width > 0
        &&& self.size_spec() <= usize::MAX
    }

    /// The element width is a power of two, so that the byte of an element is its
    /// offset masked by the width.
    pub open spec fn pow2_width(&self) -> bool {
        is_pow2(self.width as nat)
    }

    pub open spec fn rows_spec(&self) -> nat {
        self.dim.rows as nat
    }

    pub open spec fn cols_spec(&self) -> nat {
        self.dim.cols as nat
    }

    pub open spec fn width_spec(&self) -> nat {
        self.width as nat
    }

    /// Number of elements.
    pub open spec fn depth_spec(&self) -> nat {
        self.dim.depth_spec()
    }

    /// Size in bytes.
    pub open spec fn size_spec(&self) -> nat {
        self.depth_spec() * self.width as nat
    }

    /// The element that holds byte `offset`.
    pub open spec fn elem_of(&self, offset: nat) -> nat {
        offset / self.width as nat
    }

    /// The row of the element that holds byte `offset`.
    pub open spec fn row_of(&self, offset: nat) -> nat {
        self.elem_of(offset) / self.dim.cols as nat
    }

    /// The column of the element that holds byte `offset`.
    pub open spec fn col_of(&self, offset: nat) -> nat {
        self.elem_of(offset) % self.dim.cols as nat
    }

    /// The byte within its element of byte `offset`: the offset masked by the width
    /// rounded up to a power of two.
    pub open spec fn byte_of(&self, offset: nat) -> nat {
        offset % round_up_pow2(self.width as nat)
    }

    /// Index of the element that holds byte `offset`.
    pub fn idx_array(&self, offset: usize) -> (r: usize)
        requires
            self.width > 0,
        ensures
            r as nat == self.elem_of(offset as nat),
    {
        offset / self.width
    }

    /// The byte within its element of byte `offset`.
    pub fn idx_byte(&self, offset: usize) -> (r: usize)
        requires
            self.pow2_width(),
        ensures
            r as nat == self.byte_of(offset as nat),
            r < self.width,
    {
        offset % self.width
    }

    /// The row of the element that holds byte `offset`.
    pub fn row(&self, offset: usize) -> (r: usize)
        requires
            self.wf(),
        ensures
            r as nat == self.row_of(offset as nat),
    {
        self.dim.row(self.idx_array(offset))
    }

    /// The column of the element that holds byte `offset`.
    pub fn col(&self, offset: usize) -> (r: usize)
        requires
            self.wf(),
        ensures
            r as nat == self.col_of(offset as nat),
            r < self.dim.cols,
    {
        self.dim.col(self.idx_array(offset))
    }

    /// Number of elements.
    pub fn depth(&self) -> (r: usize)
        requires
            self.wf(),
        ensures
            r as nat == self.depth_spec(),
    {
        proof {
            assert(self.depth_spec() <= self.size_spec()) by (nonlinear_arith)
                requires
                    self.size_spec() == self.depth_spec() * self.width as nat,
                    self.width > 0,
            ;
        }
        self.dim.rows * self.dim.cols
    }

    pub fn new(path: String, dim: ArrayDim, width: usize) -> (r: MemArray)
        ensures
            r.path@ == path@,
            r.dim == dim,
            r.width == width,
    {
        MemArray { path, dim, width }
    }

    /// Size in bytes, or `None` when it does not fit in `usize`.
    pub fn size(&self) -> (r: Option<usize>)
        ensures
            r == (if self.size_spec() <= usize::MAX {
                Some(self.size_spec() as usize)
            } else {
                None::<usize>
            }),
    {
        if self.width == 0 {
            return Some(0);
        }
        match self.dim.depth() {
            Some(d) => d.checked_mul(self.width),
            None => {
                proof {
                    assert(self.size_spec() > usize::MAX) by (nonlinear_arith)
                        requires
                            self.depth_spec() > usize::MAX,
                            self.size_spec() == self.depth_spec() * self.width as nat,
                            self.width > 0,
                    ;
                }
                None
            },
        }
    }
}

} // verus!
