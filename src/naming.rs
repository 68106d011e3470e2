//! Hierarchical names of arrays, rows and elements.
use crate::buffer::RowBuffer;
use crate::geometry::MemArray;
use vstd::prelude::*;

verus! {

/// The decimal digit `d`.
pub open spec fn digit(d: nat) -> char {
    if d == 0 { '0' } else if d == 1 { '1' } else if d == 2 { '2' } else if d == 3 { '3' } else if d == 4 {
        '4'
    } else if d == 5 { '5' } else if d == 6 { '6' } else if d == 7 { '7' } else if d == 8 { '8' } else {
        '9'
    }
}

/// `n` written in decimal, without leading zeros.
pub open spec fn decimal(n: nat) -> Seq<char>
    decreases n,
{
    if n < 10 {
        seq![digit(n)]
    } else {
        decimal(n / 10) + seq![digit(n % 10)]
    }
}

/// `s[i]`: `s` with the index `i` appended in brackets.
pub open spec fn indexed(s: Seq<char>, i: nat) -> Seq<char> {
    s + "["@ + decimal(i) + "]"@
}

fn digit_str(d: usize) -> (r: &'static str)
    requires
        d < 10,
    ensures
        r@ == seq![digit(d as nat)],
{
    if d == 0 {
        proof { reveal_strlit("0"); }
        "0"
    } else if d == 1 {
        proof { reveal_strlit("1"); }
        "1"
    } else if d == 2 {
        proof { reveal_strlit("2"); }
        "2"
    } else if d == 3 {
        proof { reveal_strlit("3"); }
        "3"
    } else if d == 4 {
        proof { reveal_strlit("4"); }
        "4"
    } else if d == 5 {
        proof { reveal_strlit("5"); }
        "5"
    } else if d == 6 {
        proof { reveal_strlit("6"); }
        "6"
    } else if d == 7 {
        proof { reveal_strlit("7"); }
        "7"
    } else if d == 8 {
        proof { reveal_strlit("8"); }
        "8"
    } else {
        proof { reveal_strlit("9"); }
        "9"
    }
}

/// Appends `n` in decimal to `s`.
pub fn push_decimal(s: &mut String, n: usize)
    ensures
        final(s)@ == old(s)@ + decimal(n as nat),
    decreases n,
{
    if n >= 10 {
        push_decimal(s, n / 10);
    }
    s.append(digit_str(n % 10));
    proof {
        if n < 10 {
            assert(n % 10 == n);
        }
    }
    assert(s@ =~= old(s)@ + decimal(n as nat));
}

/// Appends `[i]` to `s`.
pub fn push_index(s: &mut String, i: usize)
    ensures
        final(s)@ == indexed(old(s)@, i as nat),
{
    s.append("[");
    push_decimal(s, i);
    s.append("]");
    assert(s@ =~= indexed(old(s)@, i as nat));
}

impl MemArray {
    /// The hierarchical name of row `row`: the array's path, indexed by the row when
    /// the array has more than one.
    pub open spec fn row_path(&self, row: nat) -> Seq<char> {
        if self.dim.rows > 1 {
            indexed(self.path@, row)
        } else {
            self.path@
        }
    }

    /// The hierarchical name of row `row`.
    pub fn array_hdl_path(&self, row: usize) -> (r: String)
        ensures
            r@ == self.row_path(row as nat),
    {
        let mut s = self.path.clone();
        if self.dim.rows > 1 {
            push_index(&mut s, row);
        }
        s
    }

    /// The hierarchical name of the element at `(row, col)`: its row's name indexed by
    /// the column.
    pub fn element_path(&self, row: usize, col: usize) -> (r: String)
        ensures
            r@ == indexed(self.row_path(row as nat), col as nat),
    {
        let mut s = self.array_hdl_path(row);
        push_index(&mut s, col);
        s
    }
}

impl RowBuffer {
    /// The hierarchical name of the buffer's row.
    pub fn path(&self, array: &MemArray) -> (r: String)
        ensures
            r@ == array.row_path(self.row as nat),
    {
        array.array_hdl_path(self.row)
    }

    /// The hierarchical name of the element in column `i` of the buffer's row.
    pub fn idx_path(&self, array: &MemArray, i: usize) -> (r: String)
        ensures
            r@ == indexed(array.row_path(self.row as nat), i as nat),
    {
        array.element_path(self.row, i)
    }
}

} // verus!
