//! Banked regions: storage split over a grid of arrays ("banks"), by rows of elements
//! (vertically) and by slices of each element (horizontally).
use crate::buffer::{last_offset, RowBufferSet};
use crate::config::InitMethod;
use crate::error::ConfigError;
use crate::region::overlay;
use crate::store::{lemma_same_contents_trans, same_contents, ElementStore};
use crate::geometry::{
    is_pow2, lemma_join, lemma_pow2_round, lemma_split, pow2_from, round_up_pow2, ArrayDim, MemArray,
};
use vstd::prelude::*;

verus! {

/// A region backed by a grid of banks. Bank row `r` holds the elements
/// `r * bank_depth ..` of the region; bank column `c` holds bytes
/// `c * bank_width ..` of each of them.
#[derive(Debug)]
pub struct DPIBankedShareMem {
    pub name: String,
    pub path: String,
    pub width: usize,
    pub base: u64,
    pub size: usize,
    pub bank_width: usize,
    pub bank_depth: usize,
    pub banks: Vec<Vec<MemArray>>,
    /// How the banks are initialised.
    pub init: InitMethod,
}

/// The hierarchical path of the bank named `suffix` under `path`.
pub open spec fn bank_path(path: Seq<char>, suffix: Seq<char>) -> Seq<char> {
    path + "."@ + suffix
}

impl DPIBankedShareMem {
    /// Number of elements of the region.
    pub open spec fn depth_spec(&self) -> nat {
        self.size as nat / self.width as nat
    }

    /// Number of bank columns.
    pub open spec fn cols_spec(&self) -> nat {
        self.width as nat / self.bank_width as nat
    }

    /// Number of bank rows.
    pub open spec fn rows_spec(&self) -> nat {
        self.depth_spec() / self.bank_depth as nat
    }

    /// The bank row of byte `offset`.
    pub open spec fn row_of(&self, offset: nat) -> nat {
        (offset / (self.width as nat * self.bank_depth as nat)) % round_up_pow2(self.rows_spec())
    }

    /// The bank column of byte `offset`.
    pub open spec fn col_of(&self, offset: nat) -> nat {
        (offset / self.bank_width as nat) % round_up_pow2(self.cols_spec())
    }

    /// The offset within its bank of byte `offset`.
    pub open spec fn bank_offset_of(&self, offset: nat) -> nat {
        ((offset / self.width as nat) % self.bank_depth as nat) * round_up_pow2(self.bank_width as nat)
            + offset % round_up_pow2(self.bank_width as nat)
    }

    /// The geometry that a validated configuration guarantees: the bank grid has the
    /// shape that the widths and depths give, and every bank is an addressable array of
    /// `bank_depth` elements of `bank_width` bytes.
    pub open spec fn wf(&self) -> bool {
        &&& self.width > 0
        &&& self.bank_width > 0
        &&& self.bank_depth > 0
        &&& self.base + self.size <= u64::MAX + 1
        &&& self.banks@.len() == self.rows_spec()
        &&& self.rows_spec() >= 1
        &&& self.cols_spec() >= 1
        &&& forall|r: int|
            0 <= r < self.banks@.len() ==> (#[trigger] self.banks@[r])@.len() == self.cols_spec()
        &&& forall|r: int, c: int|
            0 <= r < self.banks@.len() && 0 <= c < self.cols_spec() ==> {
                let b = #[trigger] self.banks@[r]@[c];
                &&& b.wf()
                &&& b.width == self.bank_width
                &&& b.depth_spec() == self.bank_depth
            }
    }

    /// Reads and writes place every byte: widths and the number of bank columns are
    /// powers of two, the banks tile the region exactly, and no two banks share a path.
    pub open spec fn supported(&self) -> bool {
        &&& is_pow2(self.width as nat)
        &&& is_pow2(self.bank_width as nat)
        &&& is_pow2(self.cols_spec())
        &&& self.width % self.bank_width == 0
        &&& self.size == self.rows_spec() * self.bank_depth * self.width
        &&& forall|r1: int, c1: int, r2: int, c2: int|
            0 <= r1 < self.banks@.len() && 0 <= c1 < self.cols_spec() && 0 <= r2
                < self.banks@.len() && 0 <= c2 < self.cols_spec() && (r1 != r2 || c1 != c2)
                ==> #[trigger] self.banks@[r1]@[c1].path@ != #[trigger] self.banks@[r2]@[c2].path@
    }

    /// Builds the region from widths in bits and the names of its banks, each bank
    /// an array of `array` dimensions (one row of `bank_depth` elements by default).
    pub fn new(
        name: String,
        path: String,
        width: usize,
        base: u64,
        size: usize,
        bank_width: usize,
        bank_depth: usize,
        banks: Vec<Vec<String>>,
        array: Option<ArrayDim>,
    ) -> (r: DPIBankedShareMem)
        ensures
            r.name@ == name@,
            r.path@ == path@,
            r.width == width / 8,
            r.base == base,
            r.size == size,
            r.bank_width == bank_width / 8,
            r.bank_depth == bank_depth,
            r.banks@.len() == banks@.len(),
            forall|i: int| 0 <= i < banks@.len() ==> (#[trigger] r.banks@[i])@.len() == banks@[i]@.len(),
            forall|i: int, j: int|
                0 <= i < banks@.len() && 0 <= j < banks@[i]@.len() ==> {
                    let b = #[trigger] r.banks@[i]@[j];
                    &&& b.path@ == bank_path(path@, banks@[i]@[j]@)
                    &&& b.dim == (match array {
                        Some(d) => d,
                        None => ArrayDim { rows: 1, cols: bank_depth },
                    })
                    &&& b.width == bank_width / 8
                },
    {
        let dim = match array {
            Some(d) => d,
            None => ArrayDim { rows: 1, cols: bank_depth },
        };
        let width = width / 8;
        let bank_width = bank_width / 8;
        let mut grid: Vec<Vec<MemArray>> = Vec::new();
        let mut i: usize = 0;
        while i < banks.len()
            invariant
                i <= banks@.len(),
                grid@.len() == i,
                forall|x: int| 0 <= x < i ==> (#[trigger] grid@[x])@.len() == banks@[x]@.len(),
                forall|x: int, y: int|
                    0 <= x < i && 0 <= y < banks@[x]@.len() ==> {
                        let b = #[trigger] grid@[x]@[y];
                        &&& b.path@ == bank_path(path@, banks@[x]@[y]@)
                        &&& b.dim == dim
                        &&& b.width == bank_width
                    },
            decreases banks@.len() - i,
        {
            let row = &banks[i];
            let mut line: Vec<MemArray> = Vec::new();
            let mut j: usize = 0;
            while j < row.len()
                invariant
                    j <= row@.len(),
                    line@.len() == j,
                    forall|y: int|
                        0 <= y < j ==> {
                            let b = #[trigger] line@[y];
                            &&& b.path@ == bank_path(path@, row@[y]@)
                            &&& b.dim == dim
                            &&& b.width == bank_width
                        },
                decreases row@.len() - j,
            {
                let mut p = path.clone();
                p.append(".");
                p.append(row[j].as_str());
                line.push(MemArray::new(p, dim, bank_width));
                j = j + 1;
            }
            grid.push(line);
            i = i + 1;
        }
        DPIBankedShareMem {
            name,
            path,
            width,
            base,
            size,
            bank_width,
            bank_depth,
            banks: grid,
            init: InitMethod::NoInit,
        }
    }

    /// The banks are as `new` builds them: each of one dimension and `bank_width` wide.
    pub open spec fn uniform(&self, dim: ArrayDim) -> bool {
        forall|r: int, c: int|
            0 <= r < self.banks@.len() && 0 <= c < self.banks@[r]@.len() ==> {
                let b = #[trigger] self.banks@[r]@[c];
                &&& b.dim == dim
                &&& b.width == self.bank_width
            }
    }

    /// The bank grid has the shape that the geometry gives, and its first bank the
    /// depth `bank_depth`.
    pub open spec fn shape_ok(&self) -> bool {
        &&& self.banks@.len() == self.rows_spec()
        &&& forall|r: int| 0 <= r < self.banks@.len() ==> (#[trigger] self.banks@[r])@.len() == self.cols_spec()
        &&& self.banks@.len() >= 1
        &&& self.banks@[0]@.len() >= 1
        &&& self.banks@[0]@[0].depth_spec() == self.bank_depth
    }

    pub fn depth(&self) -> (r: usize)
        requires
            self.width > 0,
        ensures
            r == self.depth_spec(),
    {
        self.size / self.width
    }

    pub fn cols(&self) -> (r: usize)
        requires
            self.bank_width > 0,
        ensures
            r == self.cols_spec(),
    {
        self.width / self.bank_width
    }

    pub fn rows(&self) -> (r: usize)
        requires
            self.width > 0,
            self.bank_depth > 0,
        ensures
            r == self.rows_spec(),
    {
        self.depth() / self.bank_depth
    }

    /// Checks the bank grid against the geometry: its number of rows, the number of
    /// banks in each row, and the depth of the first bank.
    pub fn check(&self, dim: ArrayDim) -> (r: Result<(), ConfigError>)
        requires
            self.width > 0,
            self.bank_width > 0,
            self.bank_depth > 0,
            self.base + self.size <= u64::MAX + 1,
            self.uniform(dim),
        ensures
            r is Ok <==> self.shape_ok(),
            r is Ok ==> self.wf(),
            self.banks@.len() != self.rows_spec() ==> (r matches Err(
                ConfigError::BankRowsMismatch { region, rows, expected },
            ) && region@ == self.name@ && rows == self.banks@.len() && expected == self.rows_spec()),
            r matches Err(ConfigError::BankColsMismatch { region, row, cols, expected }) ==> (
            region@ == self.name@ && self.banks@.len() == self.rows_spec() && row < self.banks@.len()
                && cols == self.banks@[row as int]@.len() && expected == self.cols_spec() && cols
                != expected && forall|x: int|
                0 <= x < row ==> (#[trigger] self.banks@[x])@.len() == self.cols_spec()),
            r matches Err(ConfigError::BankDepthMismatch { region, depth, bank_depth }) ==> (
            region@ == self.name@ && self.shape_ok() == false && bank_depth == self.bank_depth && (
            self.banks@[0]@[0].depth_spec() <= usize::MAX ==> depth == self.banks@[0]@[0].depth_spec())),
            r is Err ==> (r matches Err(ConfigError::BankRowsMismatch { .. }) || r matches Err(
                ConfigError::BankColsMismatch { .. },
            ) || r matches Err(ConfigError::NoBanks { .. }) || r matches Err(
                ConfigError::BankDepthMismatch { .. },
            )),
            r matches Err(ConfigError::NoBanks { region }) ==> region@ == self.name@,
            r matches Err(e) ==> e.region_spec() == self.name@,
    {
        let rows = self.rows();
        let cols = self.cols();
        if rows != self.banks.len() {
            return Err(
                ConfigError::BankRowsMismatch {
                    region: self.name.clone(),
                    rows: self.banks.len(),
                    expected: rows,
                },
            );
        }
        let mut i: usize = 0;
        while i < self.banks.len()
            invariant
                i <= self.banks@.len(),
                cols == self.cols_spec(),
                self.banks@.len() == self.rows_spec(),
                forall|x: int| 0 <= x < i ==> (#[trigger] self.banks@[x])@.len() == self.cols_spec(),
            decreases self.banks@.len() - i,
        {
            if self.banks[i].len() != cols {
                return Err(
                    ConfigError::BankColsMismatch {
                        region: self.name.clone(),
                        row: i,
                        cols: self.banks[i].len(),
                        expected: cols,
                    },
                );
            }
            i = i + 1;
        }
        if self.banks.len() == 0 || self.banks[0].len() == 0 {
            return Err(ConfigError::NoBanks { region: self.name.clone() });
        }
        let first = &self.banks[0][0];
        match first.dim.depth() {
            Some(d) => {
                if d == self.bank_depth {
                    proof {
                        self.lemma_wf(dim);
                    }
                    return Ok(());
                }
                Err(
                    ConfigError::BankDepthMismatch {
                        region: self.name.clone(),
                        depth: d,
                        bank_depth: self.bank_depth,
                    },
                )
            },
            None => {
                Err(
                    ConfigError::BankDepthMismatch {
                        region: self.name.clone(),
                        depth: usize::MAX,
                        bank_depth: self.bank_depth,
                    },
                )
            },
        }
    }

    /// A uniform bank grid of the right shape is well formed.
    proof fn lemma_wf(&self, dim: ArrayDim)
        requires
            self.width > 0,
            self.bank_width > 0,
            self.bank_depth > 0,
            self.base + self.size <= u64::MAX + 1,
            self.uniform(dim),
            self.shape_ok(),
        ensures
            self.wf(),
    {
        let b0 = self.banks@[0]@[0];
        assert(b0.dim == dim);
        let w = self.width as nat;
        let bw = self.bank_width as nat;
        let bd = self.bank_depth as nat;
        assert(bd * bw <= self.size) by (nonlinear_arith)
            requires
                (self.size as nat / w) / bd >= 1,
                w / bw >= 1,
                w > 0,
                bw > 0,
                bd > 0,
        {
            assert(self.size as nat / w >= bd) by (nonlinear_arith)
                requires
                    (self.size as nat / w) / bd >= 1,
                    bd > 0,
            ;
            crate::geometry::lemma_split(self.size as nat, w);
            assert(w >= bw) by (nonlinear_arith)
                requires
                    w / bw >= 1,
                    bw > 0,
            ;
            assert((self.size as nat / w) * w >= bd * bw) by (nonlinear_arith)
                requires
                    self.size as nat / w >= bd,
                    w >= bw,
                    bw > 0,
                    bd > 0,
            ;
        }
        assert(dim.rows > 0 && dim.cols > 0) by (nonlinear_arith)
            requires
                dim.rows as nat * dim.cols as nat == bd,
                bd > 0,
        ;
    }
}


/// Rounding up never goes below.
pub proof fn lemma_round_up_ge(n: nat, p: nat)
    requires
        p >= 1,
    ensures
        pow2_from(n, p) >= n,
        pow2_from(n, p) >= p,
    decreases (if p >= n { 0 } else { n - p }),
{
    if p < n {
        lemma_round_up_ge(n, 2 * p);
    }
}

impl DPIBankedShareMem {
    /// The byte offset of byte `j` of element `k` of the bank at `(r, c)`.
    pub open spec fn global_offset(&self, r: nat, k: nat, c: nat, j: nat) -> nat {
        (r * (self.bank_depth as nat) + k) * (self.width as nat) + c * (self.bank_width as nat) + j
    }

    /// A byte of the region lies at its bank row and column, in the element of the bank
    /// and at the byte that its bank offset gives.
    pub proof fn lemma_decompose(&self, o: nat)
        requires
            self.wf(),
            self.supported(),
            o < self.size,
        ensures
            self.row_of(o) < self.rows_spec(),
            self.col_of(o) < self.cols_spec(),
            (o / self.width as nat) % (self.bank_depth as nat) < self.bank_depth,
            o % (self.bank_width as nat) < self.bank_width,
            o == self.global_offset(
                self.row_of(o),
                (o / self.width as nat) % (self.bank_depth as nat),
                self.col_of(o),
                o % (self.bank_width as nat),
            ),
            self.bank_offset_of(o) == ((o / self.width as nat) % (self.bank_depth as nat)) * (
            self.bank_width as nat) + o % (self.bank_width as nat),
            self.row_of(o) == (o / self.width as nat) / (self.bank_depth as nat),
    {
        let w = self.width as nat;
        let bw = self.bank_width as nat;
        let bd = self.bank_depth as nat;
        let cols = self.cols_spec();
        let rows = self.rows_spec();
        let e = o / w;
        let rem = o % w;
        lemma_split(o, w);
        lemma_split(w, bw);
        assert(w == cols * bw);
        lemma_split(rem, bw);
        let q = rem / bw;
        let jb = rem % bw;
        assert(q < cols) by (nonlinear_arith)
            requires
                rem == q * bw + jb,
                rem < w,
                w == cols * bw,
                bw > 0,
        ;
        assert(o == (e * cols + q) * bw + jb) by (nonlinear_arith)
            requires
                o == e * w + rem,
                w == cols * bw,
                rem == q * bw + jb,
        ;
        lemma_join(o, bw, e * cols + q, jb);
        lemma_join(e * cols + q, cols, e, q);
        lemma_pow2_round(cols);
        lemma_pow2_round(bw);
        lemma_split(e, bd);
        vstd::arithmetic::div_mod::lemma_div_denominator(o as int, w as int, bd as int);
        assert(e < rows * bd) by (nonlinear_arith)
            requires
                o == e * w + rem,
                o < self.size,
                self.size == rows * bd * w,
                w > 0,
        ;
        assert(e / bd < rows) by (nonlinear_arith)
            requires
                e < rows * bd,
                e == (e / bd) * bd + e % bd,
                bd > 0,
        ;
        lemma_round_up_ge(rows, 1);
        vstd::arithmetic::div_mod::lemma_small_mod(e / bd, round_up_pow2(rows));
        assert(o == (((e / bd) * bd + e % bd) * w) + q * bw + jb) by (nonlinear_arith)
            requires
                o == e * w + rem,
                rem == q * bw + jb,
                e == (e / bd) * bd + e % bd,
        ;
    }

    /// The byte `j` of element `k` of the bank at `(r, c)` has that bank row, bank
    /// column and bank offset.
    pub proof fn lemma_compose(&self, r: nat, k: nat, c: nat, j: nat)
        requires
            self.wf(),
            self.supported(),
            r < self.rows_spec(),
            k < self.bank_depth,
            c < self.cols_spec(),
            j < self.bank_width,
        ensures
            self.global_offset(r, k, c, j) < self.size,
            self.row_of(self.global_offset(r, k, c, j)) == r,
            self.col_of(self.global_offset(r, k, c, j)) == c,
            (self.global_offset(r, k, c, j) / self.width as nat) % (self.bank_depth as nat) == k,
            self.global_offset(r, k, c, j) % (self.bank_width as nat) == j,
            self.global_offset(r, k, c, j) / (self.width as nat) == r * (self.bank_depth as nat) + k,
    {
        let w = self.width as nat;
        let bw = self.bank_width as nat;
        let bd = self.bank_depth as nat;
        let cols = self.cols_spec();
        let rows = self.rows_spec();
        let g = self.global_offset(r, k, c, j);
        lemma_split(w, bw);
        assert(w == cols * bw);
        assert(c * bw + j < w) by (nonlinear_arith)
            requires
                c < cols,
                j < bw,
                w == cols * bw,
        ;
        lemma_join(g, w, r * bd + k, c * bw + j);
        assert(g < self.size) by (nonlinear_arith)
            requires
                g == (r * bd + k) * w + (c * bw + j),
                c * bw + j < w,
                r < rows,
                k < bd,
                self.size == rows * bd * w,
        ;
        lemma_join(r * bd + k, bd, r, k);
        self.lemma_decompose(g);
        let e = r * bd + k;
        assert(g == (e * cols + c) * bw + j) by (nonlinear_arith)
            requires
                g == e * w + (c * bw + j),
                w == cols * bw,
        ;
        lemma_join(g, bw, e * cols + c, j);
        lemma_join(e * cols + c, cols, e, c);
        lemma_pow2_round(cols);
    }
}


/// The element `k` of the bank at `(r, c)` holds a byte of the `len` bytes at `offset`.
pub open spec fn bank_touched(m: &DPIBankedShareMem, offset: nat, len: nat, r: nat, k: nat, c: nat) -> bool {
    let g0 = m.global_offset(r, k, c, 0);
    &&& len >= 1
    &&& g0 < offset + len
    &&& offset < g0 + m.bank_width
}

/// `after` is `before` with `data` written at byte `offset` of the Banked region `m`:
/// each element of each bank, read as `bank_width` bytes, that holds a byte of `data`
/// is overlaid with the bytes of `data` that fall in it; the other elements of the
/// banks, and arrays other than the banks, do not change.
pub open spec fn banked_written<S: ElementStore>(
    before: S,
    after: S,
    m: &DPIBankedShareMem,
    offset: nat,
    data: Seq<u8>,
) -> bool {
    let bw = m.bank_width as nat;
    &&& forall|r: int, c: int, rb: nat, cb: nat|
        0 <= r < m.banks@.len() && 0 <= c < m.cols_spec() && rb < m.banks@[r]@[c].dim.rows && cb
            < m.banks@[r]@[c].dim.cols ==> #[trigger] after.element(m.banks@[r]@[c].path@, rb, cb, bw)
            == if bank_touched(m, offset, data.len(), r as nat, rb * (m.banks@[r]@[c].dim.cols as nat) + cb, c as nat) {
            overlay(
                before.element(m.banks@[r]@[c].path@, rb, cb, bw),
                bw,
                m.global_offset(r as nat, rb * (m.banks@[r]@[c].dim.cols as nat) + cb, c as nat, 0),
                offset,
                data,
            )
        } else {
            before.element(m.banks@[r]@[c].path@, rb, cb, bw)
        }
    &&& forall|p: Seq<char>, r: nat, c: nat, w: nat|
        !m.is_bank_path(p) ==> #[trigger] after.element(p, r, c, w) == before.element(p, r, c, w)
    &&& forall|n: Seq<char>, o: nat| #[trigger] after.byte(n, o) == before.byte(n, o)
}

/// The `len` bytes at byte `offset` of the Banked region `m`, as the store holds them.
pub open spec fn banked_bytes<S: ElementStore>(s: S, m: &DPIBankedShareMem, offset: nat, len: nat) -> Seq<u8> {
    Seq::new(
        len,
        |i: int|
            {
                let o = (offset + i) as nat;
                let b = m.banks@[m.row_of(o) as int]@[m.col_of(o) as int];
                let bo = m.bank_offset_of(o);
                s.element(b.path@, b.row_of(bo), b.col_of(bo), m.bank_width as nat)[b.byte_of(bo) as int]
            },
    )
}

impl DPIBankedShareMem {
    /// `p` is the path of one of the banks.
    pub open spec fn is_bank_path(&self, p: Seq<char>) -> bool {
        exists|r: int, c: int|
            0 <= r < self.banks@.len() && 0 <= c < self.cols_spec() && #[trigger] self.banks@[r]@[c].path@ == p
    }

    /// The first element, within its bank, that a transaction touches in bank row `r`.
    pub open spec fn window_first(&self, offset: nat, len: nat, r: nat) -> nat {
        if r == self.row_of(offset) {
            (offset / self.width as nat) % (self.bank_depth as nat)
        } else {
            0
        }
    }

    /// The last element, within its bank, that a transaction touches in bank row `r`.
    pub open spec fn window_last(&self, offset: nat, len: nat, r: nat) -> nat {
        if r == self.row_of(last_offset(offset, len)) {
            (last_offset(offset, len) / self.width as nat) % (self.bank_depth as nat)
        } else {
            (self.bank_depth - 1) as nat
        }
    }

    /// The region's local offset of `addr`.
    pub fn offset(&self, addr: u64) -> (r: usize)
        requires
            self.base <= addr,
            addr - self.base <= self.size,
        ensures
            r == addr - self.base,
    {
        (addr - self.base) as usize
    }

    /// The bank row of byte `offset`.
    pub fn row(&self, offset: usize) -> (r: usize)
        requires
            self.wf(),
            self.supported(),
            offset < self.size,
        ensures
            r == self.row_of(offset as nat),
    {
        proof {
            self.lemma_decompose(offset as nat);
            vstd::arithmetic::div_mod::lemma_div_denominator(offset as int, self.width as int, self.bank_depth as int);
            assert(self.width * self.bank_depth <= self.size) by (nonlinear_arith)
                requires
                    self.size == self.rows_spec() * self.bank_depth * self.width,
                    self.rows_spec() >= 1,
            ;
        }
        offset / (self.width * self.bank_depth)
    }

    /// The bank column of byte `offset`.
    pub fn col(&self, offset: usize) -> (r: usize)
        requires
            self.wf(),
            self.supported(),
            offset < self.size,
        ensures
            r == self.col_of(offset as nat),
    {
        proof {
            lemma_pow2_round(self.cols_spec());
        }
        (offset / self.bank_width) % self.cols()
    }

    /// The offset within its bank of byte `offset`.
    pub fn bank_offset(&self, offset: usize) -> (r: usize)
        requires
            self.wf(),
            self.supported(),
            offset < self.size,
        ensures
            r == self.bank_offset_of(offset as nat),
            r < self.bank_depth * self.bank_width,
    {
        proof {
            self.lemma_decompose(offset as nat);
            self.lemma_bank_size();
            let k = (offset as nat / self.width as nat) % (self.bank_depth as nat);
            let j = offset as nat % (self.bank_width as nat);
            assert(k * self.bank_width + j < self.bank_depth * self.bank_width) by (nonlinear_arith)
                requires
                    k < self.bank_depth,
                    j < self.bank_width,
            ;
        }
        ((offset / self.width) % self.bank_depth) * self.bank_width + offset % self.bank_width
    }

    /// A bank is no larger than the region.
    pub proof fn lemma_bank_size(&self)
        requires
            self.wf(),
            self.supported(),
        ensures
            self.bank_depth * self.bank_width <= self.size,
            self.bank_width <= self.width,
    {
        lemma_split(self.width as nat, self.bank_width as nat);
        assert(self.bank_depth * self.bank_width <= self.size) by (nonlinear_arith)
            requires
                self.size == self.rows_spec() * self.bank_depth * self.width,
                self.rows_spec() >= 1,
                self.width == self.cols_spec() * self.bank_width,
                self.cols_spec() >= 1,
        ;
        assert(self.bank_width <= self.width) by (nonlinear_arith)
            requires
                self.width == self.cols_spec() * self.bank_width,
                self.cols_spec() >= 1,
        ;
    }
}


/// The element writes of the first `n` banks of bank row `r` when each writes its
/// elements `first ..= last`: bank by bank, each element once and in order.
pub open spec fn bank_row_elements(m: &DPIBankedShareMem, first: nat, last: nat, r: int, n: int) -> Seq<(Seq<char>, nat, nat)>
    decreases n,
{
    if n <= 0 {
        Seq::empty()
    } else {
        bank_row_elements(m, first, last, r, n - 1) + crate::region::element_run(&m.banks@[r]@[n - 1], first, last)
    }
}

/// The element writes of the first `nr` touched bank rows of a transaction of `len`
/// bytes at `offset`.
pub open spec fn banked_rows_elements(m: &DPIBankedShareMem, offset: nat, len: nat, nr: int) -> Seq<(Seq<char>, nat, nat)>
    decreases nr,
{
    if nr <= 0 {
        Seq::empty()
    } else {
        let r = m.row_of(offset) + nr - 1;
        banked_rows_elements(m, offset, len, nr - 1) + bank_row_elements(
            m,
            m.window_first(offset, len, r as nat),
            m.window_last(offset, len, r as nat),
            r,
            m.cols_spec() as int,
        )
    }
}

/// The element writes that writing `len` bytes at byte `offset` of a Banked region
/// makes: bank row by bank row, bank by bank, the elements of each bank's window.
pub open spec fn banked_elements(m: &DPIBankedShareMem, offset: nat, len: nat) -> Seq<(Seq<char>, nat, nat)> {
    if len == 0 {
        Seq::empty()
    } else {
        banked_rows_elements(m, offset, len, m.row_of(last_offset(offset, len)) - m.row_of(offset) + 1)
    }
}

/// The row buffers of one transaction against a Banked region: for each touched bank
/// row, from `start_row`, one row buffer set per bank column.
#[derive(Debug)]
pub struct DPIBankedMemHDLBuffers {
    pub start_row: usize,
    pub buffers: Vec<Vec<RowBufferSet>>,
}

/// The buffers of `set` hold the element at `(row, col)` of its array.
pub open spec fn covers(set: RowBufferSet, row: nat, col: nat) -> bool {
    &&& set.start_idx <= row < set.start_idx + set.buffers@.len()
    &&& set.buffers@[row - set.start_idx].head_idx <= col <= set.buffers@[row - set.start_idx].tail_idx
}

impl DPIBankedMemHDLBuffers {
    /// One set per bank of each touched bank row, each covering the elements of its
    /// bank from `window_first` to `window_last`.
    pub open spec fn plans(&self, m: &DPIBankedShareMem, offset: nat, len: nat) -> bool {
        let sr = m.row_of(offset);
        let er = m.row_of(last_offset(offset, len));
        let bw = m.bank_width as nat;
        &&& self.start_row == sr
        &&& sr <= er < m.rows_spec()
        &&& self.buffers@.len() == er - sr + 1
        &&& forall|ri: int| 0 <= ri < self.buffers@.len() ==> (#[trigger] self.buffers@[ri])@.len() == m.cols_spec()
        &&& forall|ri: int, c: int|
            0 <= ri < self.buffers@.len() && 0 <= c < m.cols_spec() ==> {
                let first = m.window_first(offset, len, (sr + ri) as nat);
                let last = m.window_last(offset, len, (sr + ri) as nat);
                &&& first <= last < m.bank_depth
                &&& (#[trigger] self.buffers@[ri]@[c]).plans(
                    &m.banks@[sr + ri]@[c],
                    first * bw,
                    ((last - first + 1) * bw) as nat,
                )
                &&& self.buffers@[ri]@[c].wf(&m.banks@[sr + ri]@[c])
            }
    }

    /// Builds the zeroed buffers of the transaction of `len` bytes at `offset`. Each
    /// bank's window covers whole elements: every element in it is read in full.
    pub fn new(mem: &DPIBankedShareMem, offset: usize, len: usize) -> (r: DPIBankedMemHDLBuffers)
        requires
            mem.wf(),
            mem.supported(),
            len >= 1,
            offset + len <= mem.size,
        ensures
            r.plans(mem, offset as nat, len as nat),
    {
        let offset_end = offset + len - 1;
        let start_row = mem.row(offset);
        let end_row = mem.row(offset_end);
        let cols = mem.cols();
        let ghost w = mem.width as nat;
        let ghost bd = mem.bank_depth as nat;
        proof {
            mem.lemma_decompose(offset as nat);
            mem.lemma_decompose(offset_end as nat);
            mem.lemma_bank_size();
            crate::geometry::lemma_div_le(offset as nat, offset_end as nat, w);
            crate::geometry::lemma_div_le(offset as nat / w, offset_end as nat / w, bd);
            lemma_split(offset as nat / w, bd);
            lemma_split(offset_end as nat / w, bd);
        }
        let mut row_buffers: Vec<Vec<RowBufferSet>> = Vec::new();
        let mut r = start_row;
        while r <= end_row
            invariant
                mem.wf(),
                mem.supported(),
                len >= 1,
                offset_end == offset + len - 1,
                offset_end < mem.size,
                w == mem.width,
                bd == mem.bank_depth,
                cols == mem.cols_spec(),
                start_row == mem.row_of(offset as nat),
                end_row == mem.row_of(offset_end as nat),
                start_row <= r <= end_row + 1,
                end_row < mem.rows_spec(),
                mem.bank_depth * mem.bank_width <= mem.size,
                start_row == (offset as nat / w) / bd,
                end_row == (offset_end as nat / w) / bd,
                offset as nat / w <= offset_end as nat / w,
                offset as nat / w == start_row * bd + (offset as nat / w) % bd,
                offset_end as nat / w == end_row * bd + (offset_end as nat / w) % bd,
                row_buffers@.len() == r - start_row,
                forall|ri: int| 0 <= ri < row_buffers@.len() ==> (#[trigger] row_buffers@[ri])@.len() == cols,
                forall|ri: int, c: int|
                    0 <= ri < row_buffers@.len() && 0 <= c < cols ==> {
                        let first = mem.window_first(offset as nat, len as nat, (start_row + ri) as nat);
                        let last = mem.window_last(offset as nat, len as nat, (start_row + ri) as nat);
                        &&& first <= last < mem.bank_depth
                        &&& (#[trigger] row_buffers@[ri]@[c]).plans(
                            &mem.banks@[start_row + ri]@[c],
                            first * (mem.bank_width as nat),
                            ((last - first + 1) * (mem.bank_width as nat)) as nat,
                        )
                        &&& row_buffers@[ri]@[c].wf(&mem.banks@[start_row + ri]@[c])
                    },
            decreases end_row + 1 - r,
        {
            let first = if r == start_row {
                (offset / mem.width) % mem.bank_depth
            } else {
                0
            };
            let last = if r == end_row {
                (offset_end / mem.width) % mem.bank_depth
            } else {
                mem.bank_depth - 1
            };
            proof {
                assert(first * mem.bank_width + (last - first + 1) * mem.bank_width == (last + 1) * mem.bank_width) by (nonlinear_arith)
                    requires
                        first <= last,
                ;
                assert((last + 1) * mem.bank_width <= mem.bank_depth * mem.bank_width) by (nonlinear_arith)
                    requires
                        last < mem.bank_depth,
                ;
                assert(1 <= (last - first + 1) * mem.bank_width) by (nonlinear_arith)
                    requires
                        first <= last,
                        mem.bank_width >= 1,
                ;
            }
            let start_bank_col = first * mem.bank_width;
            let col_len = (last - first + 1) * mem.bank_width;
            let row = &mem.banks[r];
            let mut line: Vec<RowBufferSet> = Vec::new();
            let mut c: usize = 0;
            while c < cols
                invariant
                    mem.wf(),
                    mem.supported(),
                    cols == mem.cols_spec(),
                    start_row <= r <= end_row,
                    end_row < mem.rows_spec(),
                    row == mem.banks@[r as int],
                    col_len >= 1,
                    start_bank_col + col_len <= mem.bank_depth * mem.bank_width,
                    c <= cols,
                    line@.len() == c,
                    forall|x: int|
                        0 <= x < c ==> (#[trigger] line@[x]).plans(&row@[x], start_bank_col as nat, col_len as nat)
                            && line@[x].wf(&row@[x]),
                decreases cols - c,
            {
                let bank = &row[c];
                let set = RowBufferSet::new(bank, start_bank_col, col_len);
                proof {
                    crate::region::lemma_plan_wf(bank, set, start_bank_col as nat, col_len as nat);
                }
                line.push(set);
                c = c + 1;
            }
            row_buffers.push(line);
            r = r + 1;
        }
        DPIBankedMemHDLBuffers { start_row, buffers: row_buffers }
    }

    /// Every set of the grid spans windows of its bank, bank rows counting up from
    /// `start_row`.
    pub open spec fn grid_wf(&self, m: &DPIBankedShareMem) -> bool {
        &&& self.start_row + self.buffers@.len() <= m.banks@.len()
        &&& forall|ri: int| 0 <= ri < self.buffers@.len() ==> (#[trigger] self.buffers@[ri])@.len() == m.cols_spec()
        &&& forall|ri: int, c: int|
            0 <= ri < self.buffers@.len() && 0 <= c < m.cols_spec() ==> (#[trigger] self.buffers@[ri]@[c]).wf(
                &m.banks@[self.start_row + ri]@[c],
            )
    }

    /// Same sets, windows and flags as `other`.
    pub open spec fn same_grid(&self, other: DPIBankedMemHDLBuffers) -> bool {
        &&& self.start_row == other.start_row
        &&& self.buffers@.len() == other.buffers@.len()
        &&& forall|ri: int| 0 <= ri < self.buffers@.len() ==> (#[trigger] self.buffers@[ri])@.len() == other.buffers@[ri]@.len()
        &&& forall|ri: int, c: int|
            0 <= ri < self.buffers@.len() && 0 <= c < self.buffers@[ri]@.len() ==> (#[trigger] self.buffers@[ri]@[c]).same_shape(
                other.buffers@[ri]@[c],
            )
    }

    /// Byte `j` of the element at `(row, col)` of the bank in column `c` of grid row
    /// `ri`, as staged.
    pub open spec fn staged(&self, ri: int, c: int, row: nat, col: nat, w: nat, j: nat) -> u8 {
        let set = self.buffers@[ri]@[c];
        set.buffers@[row - set.start_idx].staged(w, col, j)
    }

    /// Reads every element of every window from the store.
    pub fn sync<S: ElementStore>(&mut self, mem: &DPIBankedShareMem, store: &mut S)
        requires
            mem.wf(),
            old(self).grid_wf(mem),
        ensures
            final(self).same_grid(*old(self)),
            final(self).grid_wf(mem),
            forall|ri: int, c: int, row: nat, col: nat, j: nat|
                0 <= ri < old(self).buffers@.len() && 0 <= c < mem.cols_spec() && covers(
                    old(self).buffers@[ri]@[c],
                    row,
                    col,
                ) && j < mem.bank_width ==> #[trigger] final(self).staged(ri, c, row, col, mem.bank_width as nat, j)
                    == old(store).element(
                    mem.banks@[old(self).start_row + ri]@[c].path@,
                    row,
                    col,
                    mem.bank_width as nat,
                )[j as int],
            forall|ri: int, c: int, row: nat, col: nat|
                0 <= ri < old(self).buffers@.len() && 0 <= c < mem.cols_spec() && covers(
                    old(self).buffers@[ri]@[c],
                    row,
                    col,
                ) ==> (#[trigger] old(store).element(mem.banks@[old(self).start_row + ri]@[c].path@, row, col, mem.bank_width as nat)).len()
                    == mem.bank_width,
            same_contents(*final(store), *old(store)),
            final(store).element_reads() == old(store).element_reads() + old(self).grid_log(mem, old(self).buffers@.len() as int),
            crate::buffer::other_logs_kept(*final(store), *old(store)),
    {
        let ghost bw = mem.bank_width as nat;
        let mut ri: usize = 0;
        while ri < self.buffers.len()
            invariant
                mem.wf(),
                bw == mem.bank_width,
                old(self).grid_wf(mem),
                ri <= self.buffers@.len(),
                self.same_grid(*old(self)),
                self.grid_wf(mem),
                forall|x: int| ri <= x < self.buffers@.len() ==> self.buffers@[x] == old(self).buffers@[x],
                forall|x: int, c: int, row: nat, col: nat, j: nat|
                    0 <= x < ri && 0 <= c < mem.cols_spec() && covers(old(self).buffers@[x]@[c], row, col)
                        && j < bw ==> #[trigger] self.staged(x, c, row, col, bw, j) == old(store).element(
                        mem.banks@[old(self).start_row + x]@[c].path@,
                        row,
                        col,
                        bw,
                    )[j as int],
                forall|x: int, c: int, row: nat, col: nat|
                    0 <= x < ri && 0 <= c < mem.cols_spec() && covers(old(self).buffers@[x]@[c], row, col)
                        ==> (#[trigger] old(store).element(mem.banks@[old(self).start_row + x]@[c].path@, row, col, bw)).len() == bw,
                same_contents(*store, *old(store)),
                store.element_reads() == old(store).element_reads() + old(self).grid_log(mem, ri as int),
                crate::buffer::other_logs_kept(*store, *old(store)),
            decreases old(self).buffers@.len() - ri,
        {
            let ghost before = self.buffers@;
            let ghost before_self = *self;
            let mut c: usize = 0;
            while c < self.buffers[ri].len()
                invariant
                    mem.wf(),
                    bw == mem.bank_width,
                    old(self).grid_wf(mem),
                    ri < self.buffers@.len(),
                    c <= self.buffers@[ri as int]@.len(),
                    self.buffers@.len() == before.len(),
                    self.same_grid(*old(self)),
                    self.grid_wf(mem),
                    forall|x: int| 0 <= x < self.buffers@.len() && x != ri ==> self.buffers@[x] == before[x],
                    forall|y: int| c <= y < self.buffers@[ri as int]@.len() ==> self.buffers@[ri as int]@[y] == before[ri as int]@[y],
                    before[ri as int] == old(self).buffers@[ri as int],
                    forall|y: int, row: nat, col: nat, j: nat|
                        0 <= y < c && covers(old(self).buffers@[ri as int]@[y], row, col) && j < bw
                            ==> #[trigger] self.staged(ri as int, y, row, col, bw, j) == old(store).element(
                            mem.banks@[old(self).start_row + ri]@[y].path@,
                            row,
                            col,
                            bw,
                        )[j as int],
                    forall|x: int, y: int, row: nat, col: nat|
                        0 <= x < ri && 0 <= y < mem.cols_spec() && covers(old(self).buffers@[x]@[y], row, col)
                            ==> (#[trigger] old(store).element(mem.banks@[old(self).start_row + x]@[y].path@, row, col, bw)).len() == bw,
                    forall|y: int, row: nat, col: nat|
                        0 <= y < c && covers(old(self).buffers@[ri as int]@[y], row, col)
                            ==> (#[trigger] old(store).element(mem.banks@[old(self).start_row + ri]@[y].path@, row, col, bw)).len() == bw,
                    same_contents(*store, *old(store)),
                    store.element_reads() == old(store).element_reads() + old(self).grid_log(mem, ri as int) + old(self).row_log(
                        mem,
                        ri as int,
                        c as int,
                    ),
                    crate::buffer::other_logs_kept(*store, *old(store)),
                    c <= mem.cols_spec(),
                decreases self.buffers@[ri as int]@.len() - c,
            {
                let bank = &mem.banks[self.start_row + ri][c];
                let ghost b4 = self.buffers@;
                let ghost b4_self = *self;
                let ghost pre = *store;
                self.buffers[ri][c].sync_all(bank, store);
                proof {
                    lemma_same_contents_trans(*store, pre, *old(store));
                    assert(b4[ri as int]@[c as int] == old(self).buffers@[ri as int]@[c as int]);
                    assert(store.element_reads() =~= old(store).element_reads() + old(self).grid_log(mem, ri as int) + old(self).row_log(
                        mem,
                        ri as int,
                        c + 1,
                    ));
                    assert forall|x: int| 0 <= x < self.buffers@.len() && x != ri implies self.buffers@[x] == before[x] by {
                        assert(self.buffers@[x] == b4[x]);
                    }
                    assert forall|y: int, row: nat, col: nat, j: nat|
                        0 <= y < c + 1 && covers(old(self).buffers@[ri as int]@[y], row, col) && j < bw
                            implies #[trigger] self.staged(ri as int, y, row, col, bw, j) == old(store).element(
                            mem.banks@[old(self).start_row + ri]@[y].path@,
                            row,
                            col,
                            bw,
                        )[j as int] by {
                        if y < c {
                            assert(self.buffers@[ri as int]@[y] == b4[ri as int]@[y]);
                            assert(b4_self.staged(ri as int, y, row, col, bw, j) == self.staged(ri as int, y, row, col, bw, j));
                        } else {
                            let set0 = old(self).buffers@[ri as int]@[y];
                            assert(b4[ri as int]@[y] == set0);
                            assert(set0.wf(&mem.banks@[old(self).start_row + ri]@[y]));
                            let k = row - set0.start_idx;
                            assert(set0.buffers@[k].row == row);
                            let set1 = self.buffers@[ri as int]@[y];
                            assert(*bank == mem.banks@[old(self).start_row + ri]@[y]);
                            assert(set1.buffers@[k].staged(bw, col, j) == pre.element(bank.path@, row, col, bw)[j as int]);
                            assert(self.staged(ri as int, y, row, col, bw, j) == set1.buffers@[k].staged(bw, col, j));
                        }
                    }
                }
                c = c + 1;
            }
            proof {
                assert(store.element_reads() =~= old(store).element_reads() + old(self).grid_log(mem, ri + 1));
                assert forall|x: int, c: int, row: nat, col: nat, j: nat|
                    0 <= x < ri + 1 && 0 <= c < mem.cols_spec() && covers(old(self).buffers@[x]@[c], row, col)
                        && j < bw implies #[trigger] self.staged(x, c, row, col, bw, j) == old(store).element(
                        mem.banks@[old(self).start_row + x]@[c].path@,
                        row,
                        col,
                        bw,
                    )[j as int] by {
                    if x < ri {
                        assert(self.buffers@[x] == before[x]);
                        assert(before_self.staged(x, c, row, col, bw, j) == self.staged(x, c, row, col, bw, j));
                    }
                }
            }
            ri = ri + 1;
        }
    }

    /// The writes that flushing the first `c` sets of grid row `ri` makes.
    pub open spec fn row_log(&self, m: &DPIBankedShareMem, ri: int, c: int) -> Seq<(Seq<char>, nat, nat)>
        decreases c,
    {
        if c <= 0 {
            Seq::empty()
        } else {
            self.row_log(m, ri, c - 1) + crate::buffer::set_elements(
                &m.banks@[self.start_row + ri]@[c - 1],
                self.buffers@[ri]@[c - 1].buffers@,
            )
        }
    }

    /// The writes that flushing the first `ri` grid rows makes.
    pub open spec fn grid_log(&self, m: &DPIBankedShareMem, ri: int) -> Seq<(Seq<char>, nat, nat)>
        decreases ri,
    {
        if ri <= 0 {
            Seq::empty()
        } else {
            self.grid_log(m, ri - 1) + self.row_log(m, ri - 1, m.cols_spec() as int)
        }
    }

    /// Some set of the grid before `(ri, c)` in row order holds the element at
    /// `(row, col)` of the bank at `p`.
    pub open spec fn covered_before(&self, m: &DPIBankedShareMem, p: Seq<char>, row: nat, col: nat, ri: int, c: int) -> bool {
        exists|x: int, y: int|
            0 <= x < self.buffers@.len() && 0 <= y < m.cols_spec() && (x < ri || (x == ri && y < c))
                && p == m.banks@[self.start_row + x]@[y].path@ && #[trigger] covers(
                self.buffers@[x]@[y],
                row,
                col,
            )
    }

    /// Writes every element of every window to the store.
    pub fn flush<S: ElementStore>(&self, mem: &DPIBankedShareMem, store: &mut S)
        requires
            mem.wf(),
            mem.supported(),
            self.grid_wf(mem),
        ensures
            forall|ri: int, c: int, row: nat, col: nat|
                0 <= ri < self.buffers@.len() && 0 <= c < mem.cols_spec() && covers(self.buffers@[ri]@[c], row, col)
                    ==> #[trigger] final(store).element(mem.banks@[self.start_row + ri]@[c].path@, row, col, mem.bank_width as nat)
                    == self.buffers@[ri]@[c].buffers@[row - self.buffers@[ri]@[c].start_idx].slot(mem.bank_width as nat, col),
            forall|p: Seq<char>, r: nat, col: nat, w: nat|
                !self.covered_before(mem, p, r, col, self.buffers@.len() as int, 0) ==> #[trigger] final(store).element(p, r, col, w)
                    == old(store).element(p, r, col, w),
            forall|n: Seq<char>, o: nat| #[trigger] final(store).byte(n, o) == old(store).byte(n, o),
            final(store).byte_writes() == old(store).byte_writes(),
            final(store).element_writes() == old(store).element_writes() + self.grid_log(mem, self.buffers@.len() as int),
            final(store).element_reads() == old(store).element_reads(),
            final(store).byte_reads() == old(store).byte_reads(),
    {
        let ghost bw = mem.bank_width as nat;
        let ghost sr = self.start_row as int;
        let mut ri: usize = 0;
        while ri < self.buffers.len()
            invariant
                mem.wf(),
                mem.supported(),
                self.grid_wf(mem),
                bw == mem.bank_width,
                sr == self.start_row,
                ri <= self.buffers@.len(),
                forall|x: int, y: int, row: nat, col: nat|
                    0 <= x < ri && 0 <= y < mem.cols_spec() && covers(self.buffers@[x]@[y], row, col)
                        ==> #[trigger] store.element(mem.banks@[sr + x]@[y].path@, row, col, bw)
                        == self.buffers@[x]@[y].buffers@[row - self.buffers@[x]@[y].start_idx].slot(bw, col),
                forall|p: Seq<char>, r: nat, col: nat, w: nat|
                    !self.covered_before(mem, p, r, col, ri as int, 0) ==> #[trigger] store.element(p, r, col, w)
                        == old(store).element(p, r, col, w),
                forall|n: Seq<char>, o: nat| #[trigger] store.byte(n, o) == old(store).byte(n, o),
                store.byte_writes() == old(store).byte_writes(),
                store.element_writes() == old(store).element_writes() + self.grid_log(mem, ri as int),
                store.element_reads() == old(store).element_reads(),
                store.byte_reads() == old(store).byte_reads(),
            decreases self.buffers@.len() - ri,
        {
            let mut c: usize = 0;
            while c < self.buffers[ri].len()
                invariant
                    mem.wf(),
                    mem.supported(),
                    self.grid_wf(mem),
                    bw == mem.bank_width,
                    sr == self.start_row,
                    ri < self.buffers@.len(),
                    c <= mem.cols_spec(),
                    self.buffers@[ri as int]@.len() == mem.cols_spec(),
                    forall|x: int, y: int, row: nat, col: nat|
                        0 <= x < self.buffers@.len() && 0 <= y < mem.cols_spec() && (x < ri || (x == ri && y < c))
                            && covers(self.buffers@[x]@[y], row, col) ==> #[trigger] store.element(
                            mem.banks@[sr + x]@[y].path@,
                            row,
                            col,
                            bw,
                        ) == self.buffers@[x]@[y].buffers@[row - self.buffers@[x]@[y].start_idx].slot(bw, col),
                    forall|p: Seq<char>, r: nat, col: nat, w: nat|
                        !self.covered_before(mem, p, r, col, ri as int, c as int) ==> #[trigger] store.element(p, r, col, w)
                            == old(store).element(p, r, col, w),
                    forall|n: Seq<char>, o: nat| #[trigger] store.byte(n, o) == old(store).byte(n, o),
                    store.byte_writes() == old(store).byte_writes(),
                    store.element_writes() == old(store).element_writes() + self.grid_log(mem, ri as int) + self.row_log(
                        mem,
                        ri as int,
                        c as int,
                    ),
                    store.element_reads() == old(store).element_reads(),
                    store.byte_reads() == old(store).byte_reads(),
                decreases mem.cols_spec() - c,
            {
                let bank = &mem.banks[self.start_row + ri][c];
                let set = &self.buffers[ri][c];
                let ghost s_before = *store;
                set.flush(bank, store);
                proof {
                    assert(store.element_writes() =~= old(store).element_writes() + self.grid_log(mem, ri as int) + self.row_log(
                        mem,
                        ri as int,
                        c + 1,
                    ));
                    let cur = self.buffers@[ri as int]@[c as int];
                    assert forall|x: int, y: int, row: nat, col: nat|
                        0 <= x < self.buffers@.len() && 0 <= y < mem.cols_spec() && (x < ri || (x == ri && y < c + 1))
                            && covers(self.buffers@[x]@[y], row, col) implies #[trigger] store.element(
                            mem.banks@[sr + x]@[y].path@,
                            row,
                            col,
                            bw,
                        ) == self.buffers@[x]@[y].buffers@[row - self.buffers@[x]@[y].start_idx].slot(bw, col) by {
                        if x == ri && y == c {
                            let k = row - cur.start_idx;
                            assert(cur.buffers@[k].head_idx <= col <= cur.buffers@[k].tail_idx);
                            assert(*bank == mem.banks@[sr + x]@[y]);
                            assert(store.element(bank.path@, (cur.start_idx + k) as nat, col, bank.width as nat) == cur.buffers@[k].slot(bank.width as nat, col));
                        } else {
                            assert(mem.banks@[sr + x]@[y].path@ != bank.path@);
                            assert(store.element(mem.banks@[sr + x]@[y].path@, row, col, bw) == s_before.element(mem.banks@[sr + x]@[y].path@, row, col, bw));
                        }
                    }
                    assert forall|p: Seq<char>, r: nat, col: nat, w: nat|
                        !self.covered_before(mem, p, r, col, ri as int, c + 1) implies #[trigger] store.element(p, r, col, w)
                            == old(store).element(p, r, col, w) by {
                        if self.covered_before(mem, p, r, col, ri as int, c as int) {
                            let (x, y) = choose|x: int, y: int|
                                0 <= x < self.buffers@.len() && 0 <= y < mem.cols_spec() && (x < ri || (x == ri && y < c))
                                    && p == mem.banks@[self.start_row + x]@[y].path@ && #[trigger] covers(
                                    self.buffers@[x]@[y],
                                    r,
                                    col,
                                );
                            assert(covers(self.buffers@[x]@[y], r, col));
                        }
                        if p == bank.path@ && covers(cur, r, col) {
                            assert(covers(self.buffers@[ri as int]@[c as int], r, col));
                        }
                    }
                }
                c = c + 1;
            }
            proof {
                assert(store.element_writes() =~= old(store).element_writes() + self.grid_log(mem, ri + 1));
                assert forall|p: Seq<char>, r: nat, col: nat, w: nat|
                    !self.covered_before(mem, p, r, col, ri + 1, 0) implies #[trigger] store.element(p, r, col, w)
                        == old(store).element(p, r, col, w) by {
                    if self.covered_before(mem, p, r, col, ri as int, c as int) {
                        let (x, y) = choose|x: int, y: int|
                            0 <= x < self.buffers@.len() && 0 <= y < mem.cols_spec() && (x < ri || (x == ri && y < c))
                                && p == mem.banks@[self.start_row + x]@[y].path@ && #[trigger] covers(
                                self.buffers@[x]@[y],
                                r,
                                col,
                            );
                        assert(covers(self.buffers@[x]@[y], r, col));
                    }
                }
            }
            ri = ri + 1;
        }
    }
}


impl DPIBankedShareMem {
    /// Within a bank, the bank offset of byte `j` of element `k` lies at the row, column
    /// and byte of that element.
    pub proof fn lemma_in_bank(&self, b: &MemArray, k: nat, j: nat)
        requires
            self.wf(),
            self.supported(),
            b.wf(),
            b.width == self.bank_width,
            b.depth_spec() == self.bank_depth,
            k < self.bank_depth,
            j < self.bank_width,
        ensures
            b.pow2_width(),
            k * (self.bank_width as nat) + j < b.size_spec(),
            b.row_of(k * (self.bank_width as nat) + j) == k / (b.dim.cols as nat),
            b.col_of(k * (self.bank_width as nat) + j) == k % (b.dim.cols as nat),
            b.byte_of(k * (self.bank_width as nat) + j) == j,
            b.elem_of(k * (self.bank_width as nat) + j) == k,
            k == (k / (b.dim.cols as nat)) * (b.dim.cols as nat) + k % (b.dim.cols as nat),
    {
        let bw = self.bank_width as nat;
        lemma_split(k, b.dim.cols as nat);
        crate::coverage::lemma_compose(b, k / (b.dim.cols as nat), k % (b.dim.cols as nat), j);
        assert(k * bw + j < b.size_spec()) by (nonlinear_arith)
            requires
                k < self.bank_depth,
                j < bw,
                b.size_spec() == b.depth_spec() * bw,
                b.depth_spec() == self.bank_depth,
        ;
    }

    /// The set of a bank covers an element of the bank exactly when the element lies in
    /// the window of the bank row.
    pub proof fn lemma_bank_window(&self, b: &MemArray, set: RowBufferSet, first: nat, last: nat, k: nat)
        requires
            self.wf(),
            self.supported(),
            b.wf(),
            b.width == self.bank_width,
            b.depth_spec() == self.bank_depth,
            first <= last < self.bank_depth,
            k < self.bank_depth,
            set.plans(b, first * (self.bank_width as nat), ((last - first + 1) * (self.bank_width as nat)) as nat),
        ensures
            (first <= k <= last) <==> covers(set, k / (b.dim.cols as nat), k % (b.dim.cols as nat)),
    {
        let bw = self.bank_width as nat;
        let cb = b.dim.cols as nat;
        let sb = first * bw;
        let lb = ((last - first + 1) * bw) as nat;
        assert(sb + lb - 1 == last * bw + (bw - 1)) by (nonlinear_arith)
            requires
                sb == first * bw,
                lb == (last - first + 1) * bw,
                first <= last,
                bw >= 1,
        ;
        self.lemma_in_bank(b, first, 0);
        self.lemma_in_bank(b, last, (bw - 1) as nat);
        self.lemma_in_bank(b, k, 0);
        assert(first * bw + 0 == sb);
        let rb = k / cb;
        if first <= k <= last {
            crate::geometry::lemma_div_le(first, k, cb);
            crate::geometry::lemma_div_le(k, last, cb);
        }
        assert(lb >= 1) by (nonlinear_arith)
            requires
                lb == (last - first + 1) * bw,
                first <= last,
                bw >= 1,
        ;
        if set.start_idx <= rb < set.start_idx + set.buffers@.len() {
            let bf = set.buffers@[rb - set.start_idx];
            assert(crate::buffer::row_plan(b, sb, lb, rb, bf));
            crate::coverage::lemma_window(b, sb, lb, bf, rb, k % cb);
        }
    }

    /// Writes `data` at `addr`, which with all of `data` lies in the region: every
    /// touched element of every touched bank is read, overlaid and written back.
    pub fn write<S: ElementStore>(&self, store: &mut S, addr: u64, data: &[u8]) -> (r: usize)
        requires
            self.wf(),
            self.supported(),
            self.base <= addr,
            addr - self.base + data@.len() <= self.size,
        ensures
            r == data@.len(),
            banked_written(*old(store), *final(store), self, (addr - self.base) as nat, data@),
            data@.len() == 0 ==> *final(store) == *old(store),
            final(store).byte_writes() == old(store).byte_writes(),
            final(store).element_writes() == old(store).element_writes() + banked_elements(
                self,
                (addr - self.base) as nat,
                data@.len(),
            ),
            final(store).element_reads() == old(store).element_reads() + banked_elements(
                self,
                (addr - self.base) as nat,
                data@.len(),
            ),
            final(store).byte_reads() == old(store).byte_reads(),
    {
        let ghost s0 = *store;
        let ghost bw = self.bank_width as nat;
        if data.len() == 0 {
            assert(old(store).element_reads() + banked_elements(self, (addr - self.base) as nat, 0)
                =~= old(store).element_reads());
            return 0;
        }
        let offset = self.offset(addr);
        let ghost n = data@.len();
        let mut buffers = DPIBankedMemHDLBuffers::new(self, offset, data.len());
        let ghost sr = buffers.start_row as int;
        let ghost synced = buffers;
        buffers.sync(self, store);
        let ghost s1 = *store;
        proof {
            self.lemma_grid_log(synced, synced, offset as nat, n, synced.buffers@.len() as int);
        }
        let mut i: usize = 0;
        while i < data.len()
            invariant
                self.wf(),
                self.supported(),
                bw == self.bank_width,
                n == data@.len(),
                n >= 1,
                offset + n <= self.size,
                *store == s1,
                synced.plans(self, offset as nat, n),
                synced.grid_wf(self),
                buffers.same_grid(synced),
                buffers.grid_wf(self),
                sr == synced.start_row,
                0 <= i <= n,
                forall|ri: int, c: int, row: nat, col: nat, j: nat|
                    0 <= ri < synced.buffers@.len() && 0 <= c < self.cols_spec() && covers(synced.buffers@[ri]@[c], row, col)
                        && j < bw ==> #[trigger] buffers.staged(ri, c, row, col, bw, j) == if offset <= self.global_offset(
                        (sr + ri) as nat,
                        row * (self.banks@[sr + ri]@[c].dim.cols as nat) + col,
                        c as nat,
                        j,
                    ) < offset + i {
                        data@[self.global_offset(
                            (sr + ri) as nat,
                            row * (self.banks@[sr + ri]@[c].dim.cols as nat) + col,
                            c as nat,
                            j,
                        ) - offset]
                    } else {
                        s0.element(self.banks@[sr + ri]@[c].path@, row, col, bw)[j as int]
                    },
            decreases n - i,
        {
            let o = offset + i;
            let ghost before = buffers;
            proof {
                self.lemma_decompose(o as nat);
            }
            let r = self.row(o);
            let c = self.col(o);
            let bo = self.bank_offset(o);
            let bank = &self.banks[r][c];
            let ghost kb = (o as nat / self.width as nat) % (self.bank_depth as nat);
            let ghost jb = o as nat % bw;
            let ghost ri = r - sr;
            proof {
                self.lemma_decompose(o as nat);
                self.lemma_in_bank(bank, kb, jb);
                self.lemma_row_window(offset as nat, n, o as nat);
                let set = synced.buffers@[ri]@[c as int];
                self.lemma_bank_window(
                    bank,
                    set,
                    self.window_first(offset as nat, n, r as nat),
                    self.window_last(offset as nat, n, r as nat),
                    kb,
                );
            }
            let k = bank.row(bo) - buffers.buffers[r - buffers.start_row][c].start_idx;
            buffers.buffers[r - buffers.start_row][c].buffers[k].set_data(bank, bo, data[i]);
            proof {
                let bset = before.buffers@[ri]@[c as int];
                let kk0 = k as int;
                let co = bank.col_of(bo as nat);
                let jo = bank.byte_of(bo as nat);
                let h0 = bset.buffers@[kk0].head_idx as nat;
                crate::buffer::lemma_pos_bound(h0, co, bset.buffers@[kk0].tail_idx as nat, jo, bw);
                assert forall|ri2: int, c2: int, row: nat, col: nat, j: nat|
                    0 <= ri2 < synced.buffers@.len() && 0 <= c2 < self.cols_spec() && covers(synced.buffers@[ri2]@[c2], row, col)
                        && j < bw implies #[trigger] buffers.staged(ri2, c2, row, col, bw, j) == if offset <= self.global_offset(
                        (sr + ri2) as nat,
                        row * (self.banks@[sr + ri2]@[c2].dim.cols as nat) + col,
                        c2 as nat,
                        j,
                    ) < offset + i + 1 {
                        data@[self.global_offset(
                            (sr + ri2) as nat,
                            row * (self.banks@[sr + ri2]@[c2].dim.cols as nat) + col,
                            c2 as nat,
                            j,
                        ) - offset]
                    } else {
                        s0.element(self.banks@[sr + ri2]@[c2].path@, row, col, bw)[j as int]
                    } by {
                    let b2 = self.banks@[sr + ri2]@[c2];
                    let cb2 = b2.dim.cols as nat;
                    let sset = synced.buffers@[ri2]@[c2];
                    let kk = row - sset.start_idx;
                    assert(sset.buffers@[kk].wf(&b2));
                    assert(row < b2.dim.rows && col < cb2);
                    assert(row * cb2 + col < self.bank_depth) by (nonlinear_arith)
                        requires
                            row < b2.dim.rows,
                            col < cb2,
                            b2.dim.rows as nat * cb2 == self.bank_depth,
                    ;
                    let g = self.global_offset((sr + ri2) as nat, row * cb2 + col, c2 as nat, j);
                    self.lemma_compose((sr + ri2) as nat, row * cb2 + col, c2 as nat, j);
                    lemma_join(row * cb2 + col, cb2, row, col);
                    let bs = before.buffers@[ri2]@[c2];
                    let as_ = buffers.buffers@[ri2]@[c2];
                    assert(before.staged(ri2, c2, row, col, bw, j) == bs.buffers@[kk].staged(bw, col, j));
                    assert(buffers.staged(ri2, c2, row, col, bw, j) == as_.buffers@[kk].staged(bw, col, j));
                    if ri2 == ri && c2 == c {
                        if kk == kk0 {
                            let h = bs.buffers@[kk].head_idx as nat;
                            crate::buffer::lemma_pos_bound(h, col, bs.buffers@[kk].tail_idx as nat, j, bw);
                            let p1 = ((col - h) * bw + j) as nat;
                            let p2 = ((co - h) * bw + jo) as nat;
                            assert(as_.buffers@[kk].buffer@ == bs.buffers@[kk].buffer@.update(p2 as int, data@[i as int]));
                            if p1 == p2 {
                                lemma_join(p1, bw, (col - h) as nat, j);
                                lemma_join(p1, bw, (co - h) as nat, jo);
                                assert(g == o);
                            } else if g == o {
                                assert(col == co && j == jo);
                            }
                        } else {
                            assert(as_.buffers@[kk] == bs.buffers@[kk]);
                            if g == o {
                                assert(row == kb / cb2);
                            }
                        }
                    } else {
                        assert(as_ == bs);
                    }
                }
            }
            i = i + 1;
        }
        proof {
            assert forall|ri: int, c: int, row: nat, col: nat|
                0 <= ri < buffers.buffers@.len() && 0 <= c < self.cols_spec() && covers(buffers.buffers@[ri]@[c], row, col)
                    implies #[trigger] buffers.buffers@[ri]@[c].buffers@[row - buffers.buffers@[ri]@[c].start_idx].slot(bw, col)
                    == overlay(
                    s0.element(self.banks@[sr + ri]@[c].path@, row, col, bw),
                    bw,
                    self.global_offset((sr + ri) as nat, row * (self.banks@[sr + ri]@[c].dim.cols as nat) + col, c as nat, 0),
                    offset as nat,
                    data@,
                ) by {
                let set = buffers.buffers@[ri]@[c];
                let b = set.buffers@[row - set.start_idx];
                let old_e = s0.element(self.banks@[sr + ri]@[c].path@, row, col, bw);
                let start = self.global_offset((sr + ri) as nat, row * (self.banks@[sr + ri]@[c].dim.cols as nat) + col, c as nat, 0);
                assert(b.wf(&self.banks@[sr + ri]@[c]));
                crate::buffer::lemma_slot_index(b, bw, col, 0);
                assert forall|j: int| 0 <= j < bw implies #[trigger] b.slot(bw, col)[j] == overlay(old_e, bw, start, offset as nat, data@)[j] by {
                    crate::buffer::lemma_slot_index(b, bw, col, j as nat);
                    assert(buffers.staged(ri, c, row, col, bw, j as nat) == b.staged(bw, col, j as nat));
                }
                assert(b.slot(bw, col) =~= overlay(old_e, bw, start, offset as nat, data@));
            }
        }
        buffers.flush(self, store);
        proof {
            self.lemma_banked_flushed(buffers, synced, s0, s1, *store, offset as nat, data@);
            self.lemma_grid_log(buffers, synced, offset as nat, n, buffers.buffers@.len() as int);
        }
        data.len()
    }
}


impl DPIBankedShareMem {
    /// A byte of a transaction lies in a touched bank row, in the window of that row.
    pub proof fn lemma_row_window(&self, offset: nat, len: nat, o: nat)
        requires
            self.wf(),
            self.supported(),
            len >= 1,
            offset <= o < offset + len,
            offset + len <= self.size,
        ensures
            self.row_of(offset) <= self.row_of(o) <= self.row_of(last_offset(offset, len)),
            self.window_first(offset, len, self.row_of(o)) <= (o / self.width as nat) % (self.bank_depth as nat)
                <= self.window_last(offset, len, self.row_of(o)),
    {
        let w = self.width as nat;
        let bd = self.bank_depth as nat;
        let end = last_offset(offset, len);
        self.lemma_decompose(offset);
        self.lemma_decompose(o);
        self.lemma_decompose(end);
        crate::geometry::lemma_div_le(offset, o, w);
        crate::geometry::lemma_div_le(o, end, w);
        crate::geometry::lemma_div_le(offset / w, o / w, bd);
        crate::geometry::lemma_div_le(o / w, end / w, bd);
        lemma_split(offset / w, bd);
        lemma_split(o / w, bd);
        lemma_split(end / w, bd);
    }

    /// Flushing a grid whose slots hold the overlaid elements leaves the store as
    /// written.
    pub proof fn lemma_banked_flushed<S: ElementStore>(
        &self,
        buffers: DPIBankedMemHDLBuffers,
        synced: DPIBankedMemHDLBuffers,
        s0: S,
        sm: S,
        s1: S,
        offset: nat,
        data: Seq<u8>,
    )
        requires
            same_contents(sm, s0),
            self.wf(),
            self.supported(),
            data.len() >= 1,
            offset + data.len() <= self.size,
            synced.plans(self, offset, data.len()),
            buffers.same_grid(synced),
            buffers.grid_wf(self),
            forall|ri: int, c: int, row: nat, col: nat|
                0 <= ri < buffers.buffers@.len() && 0 <= c < self.cols_spec() && covers(buffers.buffers@[ri]@[c], row, col)
                    ==> #[trigger] buffers.buffers@[ri]@[c].buffers@[row - buffers.buffers@[ri]@[c].start_idx].slot(self.bank_width as nat, col)
                    == overlay(
                    s0.element(self.banks@[buffers.start_row + ri]@[c].path@, row, col, self.bank_width as nat),
                    self.bank_width as nat,
                    self.global_offset((buffers.start_row + ri) as nat, row * (self.banks@[buffers.start_row + ri]@[c].dim.cols as nat) + col, c as nat, 0),
                    offset,
                    data,
                ),
            forall|ri: int, c: int, row: nat, col: nat|
                0 <= ri < buffers.buffers@.len() && 0 <= c < self.cols_spec() && covers(buffers.buffers@[ri]@[c], row, col)
                    ==> (#[trigger] s0.element(self.banks@[buffers.start_row + ri]@[c].path@, row, col, self.bank_width as nat)).len()
                    == self.bank_width,
            forall|ri: int, c: int, row: nat, col: nat|
                0 <= ri < buffers.buffers@.len() && 0 <= c < self.cols_spec() && covers(buffers.buffers@[ri]@[c], row, col)
                    ==> #[trigger] s1.element(self.banks@[buffers.start_row + ri]@[c].path@, row, col, self.bank_width as nat)
                    == buffers.buffers@[ri]@[c].buffers@[row - buffers.buffers@[ri]@[c].start_idx].slot(self.bank_width as nat, col),
            forall|p: Seq<char>, r: nat, col: nat, w: nat|
                !buffers.covered_before(self, p, r, col, buffers.buffers@.len() as int, 0) ==> #[trigger] s1.element(p, r, col, w)
                    == sm.element(p, r, col, w),
            forall|n: Seq<char>, o: nat| #[trigger] s1.byte(n, o) == sm.byte(n, o),
        ensures
            banked_written(s0, s1, self, offset, data),
    {
        let bw = self.bank_width as nat;
        let w = self.width as nat;
        let bd = self.bank_depth as nat;
        let n = data.len();
        let sr = buffers.start_row as int;
        let end = last_offset(offset, n);
        assert forall|r: int, c: int, rb: nat, cb: nat|
            0 <= r < self.banks@.len() && 0 <= c < self.cols_spec() && rb < self.banks@[r]@[c].dim.rows && cb
                < self.banks@[r]@[c].dim.cols implies #[trigger] s1.element(self.banks@[r]@[c].path@, rb, cb, bw)
                == if bank_touched(self, offset, n, r as nat, rb * (self.banks@[r]@[c].dim.cols as nat) + cb, c as nat) {
                overlay(
                    s0.element(self.banks@[r]@[c].path@, rb, cb, bw),
                    bw,
                    self.global_offset(r as nat, rb * (self.banks@[r]@[c].dim.cols as nat) + cb, c as nat, 0),
                    offset,
                    data,
                )
            } else {
                s0.element(self.banks@[r]@[c].path@, rb, cb, bw)
            } by {
            let b = self.banks@[r]@[c];
            let cbs = b.dim.cols as nat;
            let k = rb * cbs + cb;
            assert(b.dim.rows as nat * cbs == bd);
            assert((rb + 1) * cbs <= b.dim.rows as nat * cbs) by (nonlinear_arith)
                requires
                    rb < b.dim.rows,
            ;
            assert(k < bd) by (nonlinear_arith)
                requires
                    cb < cbs,
                    k == rb * cbs + cb,
                    (rb + 1) * cbs <= bd,
            ;
            lemma_join(k, cbs, rb, cb);
            let ri = r - sr;
            let old_e = s0.element(b.path@, rb, cb, bw);
            let g0 = self.global_offset(r as nat, k, c as nat, 0);
            if 0 <= ri < buffers.buffers@.len() && covers(buffers.buffers@[ri]@[c], rb, cb) {
                if !bank_touched(self, offset, n, r as nat, k, c as nat) {
                    assert(old_e.len() == bw);
                    assert(old_e =~= overlay(old_e, bw, g0, offset, data));
                }
            } else {
                // Not covered: no byte of the element is written.
                if buffers.covered_before(self, self.banks@[r]@[c].path@, rb, cb, buffers.buffers@.len() as int, 0) {
                    let (x, y) = choose|x: int, y: int|
                        0 <= x < buffers.buffers@.len() && 0 <= y < self.cols_spec() && (x < buffers.buffers@.len() as int || (x == buffers.buffers@.len() as int && y < 0))
                            && self.banks@[r]@[c].path@ == self.banks@[buffers.start_row + x]@[y].path@ && #[trigger] covers(
                            buffers.buffers@[x]@[y],
                            rb,
                            cb,
                        );
                    assert(sr + x == r && y == c);
                }
                if bank_touched(self, offset, n, r as nat, k, c as nat) {
                    let j: nat = if offset > g0 { (offset - g0) as nat } else { 0 };
                    let g = self.global_offset(r as nat, k, c as nat, j);
                    assert(offset <= g < offset + n);
                    self.lemma_compose(r as nat, k, c as nat, j);
                    self.lemma_row_window(offset, n, g);
                    let set = synced.buffers@[ri]@[c];
                    self.lemma_bank_window(
                        &b,
                        set,
                        self.window_first(offset, n, r as nat),
                        self.window_last(offset, n, r as nat),
                        k,
                    );
                    assert(covers(buffers.buffers@[ri]@[c], rb, cb));
                }
            }
        }
        assert forall|p: Seq<char>, r: nat, col: nat, w2: nat|
            !self.is_bank_path(p) implies #[trigger] s1.element(p, r, col, w2) == s0.element(p, r, col, w2) by {
            if buffers.covered_before(self, p, r, col, buffers.buffers@.len() as int, 0) {
                let (x, y) = choose|x: int, y: int|
                    0 <= x < buffers.buffers@.len() && 0 <= y < self.cols_spec() && (x < buffers.buffers@.len() as int || (x == buffers.buffers@.len() as int && y < 0))
                        && p == self.banks@[buffers.start_row + x]@[y].path@ && #[trigger] covers(
                        buffers.buffers@[x]@[y],
                        r,
                        col,
                    );
                assert(self.banks@[buffers.start_row + x]@[y].path@ == p);
            }
        }
    }
}


impl DPIBankedShareMem {
    /// Reads the bytes at `addr`, which with all of `data` lies in the region, into
    /// `data`: every touched element of every touched bank is read.
    pub fn read<S: ElementStore>(&self, store: &mut S, addr: u64, data: &mut [u8]) -> (r: usize)
        requires
            self.wf(),
            self.supported(),
            self.base <= addr,
            addr - self.base + old(data)@.len() <= self.size,
        ensures
            r == old(data)@.len(),
            final(data)@ == banked_bytes(*old(store), self, (addr - self.base) as nat, old(data)@.len()),
            same_contents(*final(store), *old(store)),
            final(store).element_reads() == old(store).element_reads() + banked_elements(
                self,
                (addr - self.base) as nat,
                old(data)@.len(),
            ),
            crate::buffer::other_logs_kept(*final(store), *old(store)),
    {
        let ghost s0 = *store;
        if data.len() == 0 {
            assert(data@ =~= banked_bytes(*store, self, (addr - self.base) as nat, 0));
            assert(old(store).element_reads() + banked_elements(self, (addr - self.base) as nat, 0)
                =~= old(store).element_reads());
            return 0;
        }
        let ghost bw = self.bank_width as nat;
        let offset = self.offset(addr);
        let ghost n = data@.len();
        let mut buffers = DPIBankedMemHDLBuffers::new(self, offset, data.len());
        let ghost sr = buffers.start_row as int;
        let ghost planned = buffers;
        buffers.sync(self, store);
        proof {
            self.lemma_grid_log(planned, planned, offset as nat, n, planned.buffers@.len() as int);
        }
        let mut i: usize = 0;
        while i < data.len()
            invariant
                self.wf(),
                self.supported(),
                bw == self.bank_width,
                n == data@.len(),
                n >= 1,
                offset + n <= self.size,
                planned.plans(self, offset as nat, n),
                buffers.same_grid(planned),
                buffers.grid_wf(self),
                sr == planned.start_row,
                0 <= i <= n,
                forall|ri: int, c: int, row: nat, col: nat, j: nat|
                    0 <= ri < planned.buffers@.len() && 0 <= c < self.cols_spec() && covers(planned.buffers@[ri]@[c], row, col)
                        && j < bw ==> #[trigger] buffers.staged(ri, c, row, col, bw, j) == s0.element(
                        self.banks@[sr + ri]@[c].path@,
                        row,
                        col,
                        bw,
                    )[j as int],
                forall|x: int| 0 <= x < i ==> #[trigger] data@[x] == banked_bytes(s0, self, offset as nat, n)[x],
            decreases n - i,
        {
            let o = offset + i;
            proof {
                self.lemma_decompose(o as nat);
            }
            let r = self.row(o);
            let c = self.col(o);
            let bo = self.bank_offset(o);
            let bank = &self.banks[r][c];
            let ghost kb = (o as nat / self.width as nat) % (self.bank_depth as nat);
            let ghost jb = o as nat % bw;
            let ghost ri = r - sr;
            proof {
                self.lemma_in_bank(bank, kb, jb);
                self.lemma_row_window(offset as nat, n, o as nat);
                let set = planned.buffers@[ri]@[c as int];
                self.lemma_bank_window(
                    bank,
                    set,
                    self.window_first(offset as nat, n, r as nat),
                    self.window_last(offset as nat, n, r as nat),
                    kb,
                );
                let cur = buffers.buffers@[ri]@[c as int];
                assert(cur.wf(bank));
                assert(buffers.staged(ri, c as int, bank.row_of(bo as nat), bank.col_of(bo as nat), bw, jb)
                    == s0.element(bank.path@, bank.row_of(bo as nat), bank.col_of(bo as nat), bw)[jb as int]);
            }
            let set = &buffers.buffers[r - buffers.start_row][c];
            let buffer = set.get_buffer(bank, bo);
            data[i] = buffer.get_data(bank, bo);
            i = i + 1;
        }
        assert(data@ =~= banked_bytes(s0, self, offset as nat, n));
        data.len()
    }
}


impl DPIBankedShareMem {
    /// The path of the bank at index `x` of the grid read row by row.
    pub open spec fn flat_path(&self, x: int, cols: int) -> Seq<char> {
        self.banks@[x / cols]@[x % cols].path@
    }

    /// No two banks share a path.
    fn distinct_paths(&self) -> (r: bool)
        requires
            self.wf(),
        ensures
            r <==> forall|r1: int, c1: int, r2: int, c2: int|
                0 <= r1 < self.banks@.len() && 0 <= c1 < self.cols_spec() && 0 <= r2
                    < self.banks@.len() && 0 <= c2 < self.cols_spec() && (r1 != r2 || c1 != c2)
                    ==> #[trigger] self.banks@[r1]@[c1].path@ != #[trigger] self.banks@[r2]@[c2].path@,
    {
        let rows = self.banks.len();
        let cols = self.cols();
        proof {
            let w = self.width as nat;
            let bw = self.bank_width as nat;
            let bd = self.bank_depth as nat;
            lemma_split(self.size as nat, w);
            lemma_split(self.size as nat / w, bd);
            assert(cols <= w) by (nonlinear_arith)
                requires
                    cols == w / bw,
                    bw >= 1,
            ;
            assert(rows * bd <= self.size as nat / w) by (nonlinear_arith)
                requires
                    rows == (self.size as nat / w) / bd,
                    self.size as nat / w == ((self.size as nat / w) / bd) * bd + (self.size as nat / w) % bd,
            ;
            assert(rows * cols <= self.size) by (nonlinear_arith)
                requires
                    cols <= w,
                    bd >= 1,
                    rows * bd <= self.size as nat / w,
                    self.size as nat >= (self.size as nat / w) * w,
            ;
        }
        let mut a: usize = 0;
        while a < rows * cols
            invariant
                self.wf(),
                rows == self.banks@.len(),
                cols == self.cols_spec(),
                rows * cols <= usize::MAX,
                forall|x: int, y: int|
                    0 <= x < a && 0 <= y < rows * cols && x != y ==> #[trigger] self.flat_path(x, cols as int)
                        != #[trigger] self.flat_path(y, cols as int),
            decreases rows * cols - a,
        {
            let mut b: usize = 0;
            while b < rows * cols
                invariant
                    self.wf(),
                    rows == self.banks@.len(),
                    cols == self.cols_spec(),
                    a < rows * cols <= usize::MAX,
                    forall|x: int, y: int|
                        0 <= x < a && 0 <= y < rows * cols && x != y ==> #[trigger] self.flat_path(x, cols as int)
                            != #[trigger] self.flat_path(y, cols as int),
                    forall|y: int|
                        0 <= y < b && y != a ==> self.flat_path(a as int, cols as int)
                            != #[trigger] self.flat_path(y, cols as int),
                decreases rows * cols - b,
            {
                proof {
                    lemma_in_grid(a as nat, rows as nat, cols as nat);
                    lemma_in_grid(b as nat, rows as nat, cols as nat);
                }
                if a != b && self.banks[a / cols][a % cols].path == self.banks[b / cols][b % cols].path {
                    proof {
                        lemma_split(a as nat, cols as nat);
                        lemma_split(b as nat, cols as nat);
                        let r1 = (a / cols) as int;
                        let c1 = (a % cols) as int;
                        let r2 = (b / cols) as int;
                        let c2 = (b % cols) as int;
                        assert(self.flat_path(a as int, cols as int) == self.banks@[r1]@[c1].path@);
                        assert(self.flat_path(b as int, cols as int) == self.banks@[r2]@[c2].path@);
                        assert(r1 != r2 || c1 != c2);
                    }
                    return false;
                }
                b = b + 1;
            }
            a = a + 1;
        }
        proof {
            assert forall|r1: int, c1: int, r2: int, c2: int|
                0 <= r1 < self.banks@.len() && 0 <= c1 < self.cols_spec() && 0 <= r2
                    < self.banks@.len() && 0 <= c2 < self.cols_spec() && (r1 != r2 || c1 != c2)
                    implies #[trigger] self.banks@[r1]@[c1].path@ != #[trigger] self.banks@[r2]@[c2].path@ by {
                let x = r1 * cols + c1;
                let y = r2 * cols + c2;
                lemma_join(x as nat, cols as nat, r1 as nat, c1 as nat);
                lemma_join(y as nat, cols as nat, r2 as nat, c2 as nat);
                assert(self.flat_path(x, cols as int) == self.banks@[r1]@[c1].path@);
                assert(self.flat_path(y, cols as int) == self.banks@[r2]@[c2].path@);
                assert(x < rows * cols && y < rows * cols) by (nonlinear_arith)
                    requires
                        x == r1 * cols + c1,
                        y == r2 * cols + c2,
                        0 <= r1 < rows,
                        0 <= r2 < rows,
                        0 <= c1 < cols,
                        0 <= c2 < cols,
                ;
            }
        }
        true
    }

    /// Reads and writes of the region place every byte (widths and bank counts above
    /// 2^31 are refused).
    pub fn is_supported(&self) -> (r: bool)
        requires
            self.wf(),
        ensures
            r == (self.supported() && self.width <= 0x8000_0000 && self.bank_width <= 0x8000_0000
                && self.cols_spec() <= 0x8000_0000),
    {
        let cols = self.cols();
        if !(is_pow2_small(self.width) && is_pow2_small(self.bank_width) && is_pow2_small(cols)) {
            return false;
        }
        if self.width % self.bank_width != 0 {
            return false;
        }
        let rows = self.rows();
        let whole = match rows.checked_mul(self.bank_depth) {
            Some(d) => d.checked_mul(self.width),
            None => {
                proof {
                    assert(rows * self.bank_depth * self.width > usize::MAX) by (nonlinear_arith)
                        requires
                            rows * self.bank_depth > usize::MAX,
                            self.width >= 1,
                    ;
                }
                None
            },
        };
        match whole {
            Some(t) => {
                if t != self.size {
                    return false;
                }
            },
            None => {
                return false;
            },
        }
        self.distinct_paths()
    }
}

/// An index below `rows * cols` is a row below `rows` and a column below `cols`.
proof fn lemma_in_grid(x: nat, rows: nat, cols: nat)
    requires
        x < rows * cols,
        cols > 0,
    ensures
        x / cols < rows,
        x % cols < cols,
{
    lemma_split(x, cols);
    assert(x / cols < rows) by (nonlinear_arith)
        requires
            x < rows * cols,
            x == (x / cols) * cols + x % cols,
            cols > 0,
    ;
}

/// `n` is a power of two no larger than 2^31.
pub fn is_pow2_small(n: usize) -> (r: bool)
    ensures
        r == (1 <= n <= 0x8000_0000 && is_pow2(n as nat)),
{
    if n == 0 || n > 0x8000_0000 {
        return false;
    }
    crate::geometry::next_pow2(n) == n
}

impl DPIBankedShareMem {
    /// The sets of grid row `ri` write the window elements of their banks, bank by bank.
    proof fn lemma_row_log(
        &self,
        buffers: DPIBankedMemHDLBuffers,
        planned: DPIBankedMemHDLBuffers,
        offset: nat,
        len: nat,
        ri: int,
        c: int,
    )
        requires
            self.wf(),
            self.supported(),
            len >= 1,
            offset + len <= self.size,
            planned.plans(self, offset, len),
            buffers.same_grid(planned),
            0 <= ri < planned.buffers@.len(),
            0 <= c <= self.cols_spec(),
        ensures
            buffers.row_log(self, ri, c) == bank_row_elements(
                self,
                self.window_first(offset, len, (self.row_of(offset) + ri) as nat),
                self.window_last(offset, len, (self.row_of(offset) + ri) as nat),
                self.row_of(offset) + ri,
                c,
            ),
        decreases c,
    {
        if c > 0 {
            self.lemma_row_log(buffers, planned, offset, len, ri, c - 1);
            let r = (self.row_of(offset) + ri) as nat;
            let first = self.window_first(offset, len, r);
            let last = self.window_last(offset, len, r);
            let bw = self.bank_width as nat;
            let bank = self.banks@[r as int]@[c - 1];
            let pset = planned.buffers@[ri]@[c - 1];
            let bset = buffers.buffers@[ri]@[c - 1];
            assert(bset.same_shape(pset));
            crate::region::lemma_same_elements(&bank, bset.buffers@, pset.buffers@);
            let lb = ((last - first + 1) * bw) as nat;
            assert(lb >= 1 && first * bw + lb == (last + 1) * bw && first * bw + lb - 1 == last * bw + (bw - 1)) by (nonlinear_arith)
                requires
                    lb == (last - first + 1) * bw,
                    first <= last,
                    bw >= 1,
            ;
            self.lemma_in_bank(&bank, first, 0);
            self.lemma_in_bank(&bank, last, (bw - 1) as nat);
            crate::region::lemma_set_elements_run(&bank, pset, first * bw, lb);
        }
    }

    /// The grid's first `ri` rows write the window elements of their banks.
    proof fn lemma_grid_log(
        &self,
        buffers: DPIBankedMemHDLBuffers,
        planned: DPIBankedMemHDLBuffers,
        offset: nat,
        len: nat,
        ri: int,
    )
        requires
            self.wf(),
            self.supported(),
            len >= 1,
            offset + len <= self.size,
            planned.plans(self, offset, len),
            buffers.same_grid(planned),
            0 <= ri <= planned.buffers@.len(),
        ensures
            buffers.grid_log(self, ri) == banked_rows_elements(self, offset, len, ri),
        decreases ri,
    {
        if ri > 0 {
            self.lemma_grid_log(buffers, planned, offset, len, ri - 1);
            self.lemma_row_log(buffers, planned, offset, len, ri - 1, self.cols_spec() as int);
        }
    }
}

} // verus!
