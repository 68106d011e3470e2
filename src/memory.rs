//! An element store held in memory, for simulation without an HDL simulator.
use crate::geometry::MemArray;
use crate::store::ElementStore;
use vstd::prelude::*;

verus! {

/// One element write: the bytes written to `(row, col)` of the array at `path`.
#[derive(Debug)]
pub struct ElementWrite {
    pub path: String,
    pub row: usize,
    pub col: usize,
    pub data: Vec<u8>,
}

/// One black-box byte write.
#[derive(Debug)]
pub struct ByteWrite {
    pub name: String,
    pub offset: usize,
    pub data: u8,
}

/// One element read.
#[derive(Debug)]
pub struct ElementRead {
    pub path: String,
    pub row: usize,
    pub col: usize,
}

/// One black-box byte read.
#[derive(Debug)]
pub struct ByteRead {
    pub name: String,
    pub offset: usize,
}

/// A store that keeps every access in order; a read finds the latest write of its
/// element, and an element never written holds zeros.
#[derive(Debug)]
pub struct MemoryStore {
    pub elements: Vec<ElementWrite>,
    pub bytes: Vec<ByteWrite>,
    pub element_reads: Vec<ElementRead>,
    pub byte_reads: Vec<ByteRead>,
}

/// The latest write of element `(row, col)` of the array at `path`.
pub open spec fn latest_element(log: Seq<ElementWrite>, path: Seq<char>, row: nat, col: nat) -> Option<Seq<u8>>
    decreases log.len(),
{
    if log.len() == 0 {
        None
    } else {
        let w = log.last();
        if w.path@ == path && w.row == row && w.col == col {
            Some(w.data@)
        } else {
            latest_element(log.drop_last(), path, row, col)
        }
    }
}

/// The latest write of byte `offset` of the black box `name`.
pub open spec fn latest_byte(log: Seq<ByteWrite>, name: Seq<char>, offset: nat) -> Option<u8>
    decreases log.len(),
{
    if log.len() == 0 {
        None
    } else {
        let w = log.last();
        if w.name@ == name && w.offset == offset {
            Some(w.data)
        } else {
            latest_byte(log.drop_last(), name, offset)
        }
    }
}

impl MemoryStore {
    /// A store in which every element and byte is zero.
    pub fn new() -> (r: MemoryStore)
        ensures
            r.elements@.len() == 0,
            r.bytes@.len() == 0,
            r.element_reads@.len() == 0,
            r.byte_reads@.len() == 0,
    {
        MemoryStore { elements: Vec::new(), bytes: Vec::new(), element_reads: Vec::new(), byte_reads: Vec::new() }
    }

    /// The element stored for `(row, col)` of `array`, without recording a read.
    fn find_element(&self, array: &MemArray, row: usize, col: usize) -> (r: Vec<u8>)
        ensures
            r@ == self.element(array.path@, row as nat, col as nat, array.width as nat),
    {
        let mut i = self.elements.len();
        assert(self.elements@.subrange(0, i as int) =~= self.elements@);
        while i > 0
            invariant
                i <= self.elements@.len(),
                latest_element(self.elements@, array.path@, row as nat, col as nat) == latest_element(
                    self.elements@.subrange(0, i as int),
                    array.path@,
                    row as nat,
                    col as nat,
                ),
            decreases i,
        {
            let ghost prefix = self.elements@.subrange(0, i as int);
            assert(prefix.drop_last() =~= self.elements@.subrange(0, i - 1));
            let w = &self.elements[i - 1];
            if w.row == row && w.col == col && w.path == array.path {
                if w.data.len() == array.width {
                    return copy_bytes(w.data.as_slice());
                }
                return zeros(array.width);
            }
            i = i - 1;
        }
        zeros(array.width)
    }

    /// The byte stored at `offset` of `name`, without recording a read.
    fn find_byte(&self, name: &str, offset: usize) -> (r: u8)
        ensures
            r == self.byte(name@, offset as nat),
    {
        let key = String::from_str(name);
        let mut i = self.bytes.len();
        assert(self.bytes@.subrange(0, i as int) =~= self.bytes@);
        while i > 0
            invariant
                key@ == name@,
                i <= self.bytes@.len(),
                latest_byte(self.bytes@, name@, offset as nat) == latest_byte(
                    self.bytes@.subrange(0, i as int),
                    name@,
                    offset as nat,
                ),
            decreases i,
        {
            let ghost prefix = self.bytes@.subrange(0, i as int);
            assert(prefix.drop_last() =~= self.bytes@.subrange(0, i - 1));
            let w = &self.bytes[i - 1];
            if w.offset == offset && w.name == key {
                return w.data;
            }
            i = i - 1;
        }
        0
    }
}

fn zeros(n: usize) -> (r: Vec<u8>)
    ensures
        r@ == Seq::new(n as nat, |i: int| 0u8),
{
    let mut r: Vec<u8> = Vec::new();
    while r.len() < n
        invariant
            r@.len() <= n,
            forall|i: int| 0 <= i < r@.len() ==> r@[i] == 0u8,
        decreases n - r.len(),
    {
        r.push(0);
    }
    assert(r@ =~= Seq::new(n as nat, |i: int| 0u8));
    r
}

fn copy_bytes(data: &[u8]) -> (r: Vec<u8>)
    ensures
        r@ == data@,
{
    let mut r: Vec<u8> = Vec::new();
    let mut i: usize = 0;
    while i < data.len()
        invariant
            i <= data@.len(),
            r@ == data@.subrange(0, i as int),
        decreases data@.len() - i,
    {
        r.push(data[i]);
        i = i + 1;
        assert(r@ =~= data@.subrange(0, i as int));
    }
    assert(data@.subrange(0, data@.len() as int) =~= data@);
    r
}

impl ElementStore for MemoryStore {
    open spec fn element(&self, path: Seq<char>, row: nat, col: nat, width: nat) -> Seq<u8> {
        match latest_element(self.elements@, path, row, col) {
            Some(v) => if v.len() == width {
                v
            } else {
                Seq::new(width, |i: int| 0u8)
            },
            None => Seq::new(width, |i: int| 0u8),
        }
    }

    open spec fn byte(&self, name: Seq<char>, offset: nat) -> u8 {
        match latest_byte(self.bytes@, name, offset) {
            Some(b) => b,
            None => 0,
        }
    }

    open spec fn element_writes(&self) -> Seq<(Seq<char>, nat, nat)> {
        Seq::new(
            self.elements@.len(),
            |i: int| (self.elements@[i].path@, self.elements@[i].row as nat, self.elements@[i].col as nat),
        )
    }

    open spec fn byte_writes(&self) -> Seq<(Seq<char>, nat)> {
        Seq::new(self.bytes@.len(), |i: int| (self.bytes@[i].name@, self.bytes@[i].offset as nat))
    }

    open spec fn element_reads(&self) -> Seq<(Seq<char>, nat, nat)> {
        Seq::new(
            self.element_reads@.len(),
            |i: int| (self.element_reads@[i].path@, self.element_reads@[i].row as nat, self.element_reads@[i].col as nat),
        )
    }

    open spec fn byte_reads(&self) -> Seq<(Seq<char>, nat)> {
        Seq::new(self.byte_reads@.len(), |i: int| (self.byte_reads@[i].name@, self.byte_reads@[i].offset as nat))
    }

    fn read_element(&mut self, array: &MemArray, row: usize, col: usize) -> (r: Vec<u8>) {
        let r = self.find_element(array, row, col);
        let ghost before = self.element_reads@;
        self.element_reads.push(ElementRead { path: array.path.clone(), row, col });
        assert(self.element_reads() =~= old(self).element_reads().push((array.path@, row as nat, col as nat)));
        r
    }

    fn write_element(&mut self, array: &MemArray, row: usize, col: usize, data: &[u8]) {
        let w = ElementWrite { path: array.path.clone(), row, col, data: copy_bytes(data) };
        let ghost before = self.elements@;
        self.elements.push(w);
        assert(self.elements@.drop_last() =~= before);
        assert(self.element_writes() =~= old(self).element_writes().push((array.path@, row as nat, col as nat)));
        assert(self.byte_writes() =~= old(self).byte_writes());
    }

    fn read_byte(&mut self, name: &str, offset: usize) -> (r: u8) {
        let r = self.find_byte(name, offset);
        self.byte_reads.push(ByteRead { name: String::from_str(name), offset });
        assert(self.byte_reads() =~= old(self).byte_reads().push((name@, offset as nat)));
        r
    }

    fn write_byte(&mut self, name: &str, offset: usize, data: u8) {
        let w = ByteWrite { name: String::from_str(name), offset, data };
        let ghost before = self.bytes@;
        self.bytes.push(w);
        assert(self.bytes@.drop_last() =~= before);
        assert(self.byte_writes() =~= old(self).byte_writes().push((name@, offset as nat)));
        assert(self.element_writes() =~= old(self).element_writes());
    }
}

} // verus!
