//! The pure part of the simulator accessor that moves elements through the UVM HDL
//! interface: it moves at most 1024 bits per call, so an element is split into
//! chunks named `path[hi:lo]`, and each chunk travels as a vector value of two 32-bit
//! words (value and unknown bits) per 4 bytes.
use crate::geometry::{lemma_join, lemma_split};
use crate::naming::{decimal, push_decimal};
use vstd::prelude::*;

verus! {

/// The most bits that one access moves.
pub const UVM_HDL_MAX_WIDTH: usize = 1024;

/// The most bytes that one access moves.
pub const UVM_HDL_MAX_BYTES: usize = 128;

/// The size of the vector value that one access moves.
pub const UVM_BUFFER_SIZE: usize = 256;

/// The number of accesses that move `len` bytes.
pub open spec fn chunks_spec(len: nat) -> nat {
    (len + 127) / 128
}

/// The number of accesses that move `len` bytes.
pub fn chunk_count(len: usize) -> (r: usize)
    requires
        len <= usize::MAX - 127,
    ensures
        r == chunks_spec(len as nat),
{
    (len + (UVM_HDL_MAX_BYTES - 1)) / UVM_HDL_MAX_BYTES
}

/// The bytes `start .. end` of `len` that access `i` moves.
pub fn chunk_range(len: usize, i: usize) -> (r: (usize, usize))
    requires
        len <= usize::MAX - 127,
        i < chunks_spec(len as nat),
    ensures
        r.0 == i * 128,
        r.1 == if (i + 1) * 128 <= len { (i + 1) * 128 } else { len as int },
        r.0 < r.1 <= len,
        r.1 - r.0 <= 128,
{
    proof {
        lemma_split((len + 127) as nat, 128);
        assert(i * 128 < len) by (nonlinear_arith)
            requires
                i < (len + 127) / 128,
                (len + 127) == ((len + 127) / 128) * 128 + (len + 127) % 128,
                (len + 127) % 128 < 128,
        ;
    }
    let start = i * UVM_HDL_MAX_BYTES;
    let end = if len - start >= UVM_HDL_MAX_BYTES {
        start + UVM_HDL_MAX_BYTES
    } else {
        len
    };
    (start, end)
}

/// The name of the bits of bytes `start .. end` of the element at `path`.
pub open spec fn chunk_name(path: Seq<char>, start: nat, end: nat) -> Seq<char> {
    path + "["@ + decimal((end * 8 - 1) as nat) + ":"@ + decimal(start * 8) + "]"@
}

/// The name of the bits of bytes `start .. end` of the element at `path`.
pub fn chunk_path(path: &str, start: usize, end: usize) -> (r: String)
    requires
        start < end,
        end <= usize::MAX / 8,
    ensures
        r@ == chunk_name(path@, start as nat, end as nat),
{
    let mut s = String::from_str(path);
    s.append("[");
    push_decimal(&mut s, end * 8 - 1);
    s.append(":");
    push_decimal(&mut s, start * 8);
    s.append("]");
    assert(s@ =~= chunk_name(path@, start as nat, end as nat));
    s
}

/// Byte `k` of the vector value that carries `data`: bytes `4w .. 4w + 4` of `data`
/// are the value word `w`, at `8w`; the unknown-bits word that follows is zero.
pub open spec fn vecval_byte(data: Seq<u8>, k: nat) -> u8 {
    if k % 8 < 4 && (k / 8) * 4 + k % 8 < data.len() {
        data[((k / 8) * 4 + k % 8) as int]
    } else {
        0
    }
}

/// Where byte `b` of the data stands in the vector value.
pub open spec fn vecval_pos(b: nat) -> nat {
    (b / 4) * 8 + b % 4
}

/// The vector value that carries `data` to the simulator.
pub fn encode_vecval(data: &[u8]) -> (r: Vec<u8>)
    requires
        data@.len() <= UVM_HDL_MAX_BYTES,
    ensures
        r@.len() == UVM_BUFFER_SIZE,
        forall|k: int| 0 <= k < UVM_BUFFER_SIZE ==> #[trigger] r@[k] == vecval_byte(data@, k as nat),
{
    let mut buffer: Vec<u8> = Vec::new();
    while buffer.len() < UVM_BUFFER_SIZE
        invariant
            buffer@.len() <= UVM_BUFFER_SIZE,
            forall|k: int| 0 <= k < buffer@.len() ==> buffer@[k] == 0u8,
        decreases UVM_BUFFER_SIZE - buffer@.len(),
    {
        buffer.push(0);
    }
    let mut b: usize = 0;
    while b < data.len()
        invariant
            data@.len() <= 128,
            b <= data@.len(),
            buffer@.len() == 256,
            forall|k: int|
                0 <= k < 256 ==> #[trigger] buffer@[k] == if k % 8 < 4 && (k / 8) * 4 + k % 8 < b {
                    data@[(k / 8) * 4 + k % 8]
                } else {
                    0u8
                },
        decreases data@.len() - b,
    {
        let pos = (b / 4) * 8 + b % 4;
        proof {
            lemma_split(b as nat, 4);
            lemma_join(pos as nat, 8, (b / 4) as nat, (b % 4) as nat);
            assert(pos < 256);
        }
        buffer.set(pos, data[b]);
        proof {
            assert forall|k: int|
                0 <= k < 256 implies #[trigger] buffer@[k] == if k % 8 < 4 && (k / 8) * 4 + k % 8 < b + 1 {
                    data@[(k / 8) * 4 + k % 8]
                } else {
                    0u8
                } by {
                lemma_split(k as nat, 8);
                if k % 8 < 4 && (k / 8) * 4 + k % 8 == b {
                    lemma_join(b as nat, 4, (k / 8) as nat, (k % 8) as nat);
                }
            }
        }
        b = b + 1;
    }
    assert forall|k: int| 0 <= k < UVM_BUFFER_SIZE implies #[trigger] buffer@[k] == vecval_byte(data@, k as nat) by {}
    buffer
}

/// The `len` data bytes that the vector value `buffer` carries from the simulator.
pub fn decode_vecval(buffer: &[u8], len: usize) -> (r: Vec<u8>)
    requires
        buffer@.len() == UVM_BUFFER_SIZE,
        len <= UVM_HDL_MAX_BYTES,
    ensures
        r@.len() == len,
        forall|b: int| 0 <= b < len ==> #[trigger] r@[b] == buffer@[vecval_pos(b as nat) as int],
{
    let mut data: Vec<u8> = Vec::new();
    let mut b: usize = 0;
    while b < len
        invariant
            buffer@.len() == 256,
            len <= 128,
            b <= len,
            data@.len() == b,
            forall|x: int| 0 <= x < b ==> #[trigger] data@[x] == buffer@[vecval_pos(x as nat) as int],
        decreases len - b,
    {
        proof {
            lemma_split(b as nat, 4);
        }
        data.push(buffer[(b / 4) * 8 + b % 4]);
        b = b + 1;
    }
    data
}

/// What the simulator reads back through a vector value is what was written to it.
pub proof fn lemma_vecval_round_trip(data: Seq<u8>)
    requires
        data.len() <= UVM_HDL_MAX_BYTES,
    ensures
        forall|b: int| 0 <= b < data.len() ==> #[trigger] vecval_byte(data, vecval_pos(b as nat)) == data[b],
{
    assert forall|b: int| 0 <= b < data.len() implies #[trigger] vecval_byte(data, vecval_pos(b as nat)) == data[b] by {
        lemma_split(b as nat, 4);
        lemma_join(vecval_pos(b as nat), 8, (b / 4) as nat, (b % 4) as nat);
    }
}

} // verus!
