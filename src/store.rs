//! The backing store: element-granular arrays reached by hierarchical path, and
//! byte-granular black-box devices reached by name.
use crate::geometry::MemArray;
use vstd::prelude::*;

verus! {

/// `a` and `b` hold the same elements and bytes.
pub open spec fn same_contents<S: ElementStore>(a: S, b: S) -> bool {
    &&& forall|p: Seq<char>, r: nat, c: nat, w: nat|
        #![trigger a.element(p, r, c, w)]
        #![trigger b.element(p, r, c, w)]
        a.element(p, r, c, w) == b.element(p, r, c, w)
    &&& forall|n: Seq<char>, o: nat| #![trigger a.byte(n, o)] #![trigger b.byte(n, o)] a.byte(n, o) == b.byte(n, o)
}

/// Holding the same contents is transitive.
pub proof fn lemma_same_contents_trans<S: ElementStore>(a: S, b: S, c: S)
    requires
        same_contents(a, b),
        same_contents(b, c),
    ensures
        same_contents(a, c),
{
    assert forall|p: Seq<char>, r: nat, col: nat, w: nat| #[trigger] a.element(p, r, col, w) == c.element(p, r, col, w) by {
        assert(b.element(p, r, col, w) == c.element(p, r, col, w));
    }
    assert forall|n: Seq<char>, o: nat| #[trigger] a.byte(n, o) == c.byte(n, o) by {
        assert(b.byte(n, o) == c.byte(n, o));
    }
}

/// Access to simulated memory, one element (or, for a black box, one byte) per call.
///
/// The spec functions model what the store holds: `element(path, row, col, width)`
/// is the element at `(row, col)` of the array at `path`, read as `width` bytes, and
/// `byte(name, offset)` is the byte at `offset` of the black box `name`. A store that
/// states no model of its own (one that reaches a simulator) leaves them unspecified:
/// what is proved of the engine holds for every model that the methods meet.
pub trait ElementStore: Sized {
    closed spec fn element(&self, path: Seq<char>, row: nat, col: nat, width: nat) -> Seq<u8> {
        arbitrary()
    }

    closed spec fn byte(&self, name: Seq<char>, offset: nat) -> u8 {
        arbitrary()
    }

    /// The element writes made so far, in order: path, row and column of each.
    closed spec fn element_writes(&self) -> Seq<(Seq<char>, nat, nat)> {
        arbitrary()
    }

    /// The black-box byte writes made so far, in order: name and offset of each.
    closed spec fn byte_writes(&self) -> Seq<(Seq<char>, nat)> {
        arbitrary()
    }

    /// The element reads made so far, in order: path, row and column of each.
    closed spec fn element_reads(&self) -> Seq<(Seq<char>, nat, nat)> {
        arbitrary()
    }

    /// The black-box byte reads made so far, in order: name and offset of each.
    closed spec fn byte_reads(&self) -> Seq<(Seq<char>, nat)> {
        arbitrary()
    }

    /// Reads the element at `(row, col)` of `array`.
    fn read_element(&mut self, array: &MemArray, row: usize, col: usize) -> (r: Vec<u8>)
        requires
            array.wf(),
            row < array.dim.rows,
            col < array.dim.cols,
        ensures
            r@ == old(self).element(array.path@, row as nat, col as nat, array.width as nat),
            r@.len() == array.width,
            forall|p: Seq<char>, r: nat, c: nat, w: nat| #[trigger]
                final(self).element(p, r, c, w) == old(self).element(p, r, c, w),
            forall|n: Seq<char>, o: nat| #[trigger] final(self).byte(n, o) == old(self).byte(n, o),
            final(self).element_reads() == old(self).element_reads().push((array.path@, row as nat, col as nat)),
            final(self).byte_reads() == old(self).byte_reads(),
            final(self).element_writes() == old(self).element_writes(),
            final(self).byte_writes() == old(self).byte_writes(),
    ;

    /// Writes `data` to the element at `(row, col)` of `array`.
    fn write_element(&mut self, array: &MemArray, row: usize, col: usize, data: &[u8])
        requires
            array.wf(),
            row < array.dim.rows,
            col < array.dim.cols,
            data@.len() == array.width,
        ensures
            final(self).element(array.path@, row as nat, col as nat, array.width as nat)
                == data@,
            forall|p: Seq<char>, r: nat, c: nat, w: nat|
                !(p == array.path@ && r == row && c == col) ==> #[trigger] final(self).element(
                    p,
                    r,
                    c,
                    w,
                ) == old(self).element(p, r, c, w),
            forall|n: Seq<char>, o: nat| #[trigger] final(self).byte(n, o) == old(self).byte(n, o),
            final(self).element_writes() == old(self).element_writes().push(
                (array.path@, row as nat, col as nat),
            ),
            final(self).byte_writes() == old(self).byte_writes(),
            final(self).element_reads() == old(self).element_reads(),
            final(self).byte_reads() == old(self).byte_reads(),
    ;

    /// Reads the byte at `offset` of the black box `name`.
    fn read_byte(&mut self, name: &str, offset: usize) -> (r: u8)
        ensures
            r == old(self).byte(name@, offset as nat),
            forall|p: Seq<char>, r: nat, c: nat, w: nat| #[trigger]
                final(self).element(p, r, c, w) == old(self).element(p, r, c, w),
            forall|n: Seq<char>, o: nat| #[trigger] final(self).byte(n, o) == old(self).byte(n, o),
            final(self).byte_reads() == old(self).byte_reads().push((name@, offset as nat)),
            final(self).element_reads() == old(self).element_reads(),
            final(self).element_writes() == old(self).element_writes(),
            final(self).byte_writes() == old(self).byte_writes(),
    ;

    /// Writes `data` to the byte at `offset` of the black box `name`.
    fn write_byte(&mut self, name: &str, offset: usize, data: u8)
        ensures
            final(self).byte(name@, offset as nat) == data,
            forall|n: Seq<char>, o: nat|
                !(n == name@ && o == offset) ==> #[trigger] final(self).byte(n, o) == old(
                    self,
                ).byte(n, o),
            forall|p: Seq<char>, r: nat, c: nat, w: nat| #[trigger]
                final(self).element(p, r, c, w) == old(self).element(p, r, c, w),
            final(self).byte_writes() == old(self).byte_writes().push((name@, offset as nat)),
            final(self).element_writes() == old(self).element_writes(),
            final(self).element_reads() == old(self).element_reads(),
            final(self).byte_reads() == old(self).byte_reads(),
    ;
}

} // verus!
