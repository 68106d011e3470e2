use tb_dpi::geometry::{next_pow2, ArrayDim, MemArray};
use tb_dpi::rpc::{WaitEvent, WaitPoll};
use tb_dpi::uvm::{chunk_count, chunk_path, chunk_range, decode_vecval, encode_vecval};

#[test]
fn element_paths() {
    let a = MemArray::new("top.ram".to_string(), ArrayDim { rows: 256, cols: 16 }, 16);
    assert_eq!(a.array_hdl_path(12), "top.ram[12]");
    assert_eq!(a.element_path(255, 0), "top.ram[255][0]");
    let b = MemArray::new("top.mem".to_string(), ArrayDim { rows: 1, cols: 4096 }, 16);
    assert_eq!(b.array_hdl_path(0), "top.mem");
    assert_eq!(b.element_path(0, 4095), "top.mem[4095]");
}

#[test]
fn geometry_of_offsets() {
    let a = MemArray::new("m".to_string(), ArrayDim { rows: 256, cols: 16 }, 16);
    assert_eq!(a.row(0xfa), 0);
    assert_eq!(a.col(0xfa), 15);
    assert_eq!(a.idx_byte(0xfa), 10);
    assert_eq!(a.row(506), 1);
    assert_eq!(a.col(506), 15);
    assert_eq!(a.depth(), 4096);
    assert_eq!(a.size(), Some(65536));
    assert_eq!(next_pow2(24), 32);
    assert_eq!(next_pow2(16), 16);
    assert_eq!(next_pow2(0), 1);
}

#[test]
fn uvm_chunks() {
    assert_eq!(chunk_count(16), 1);
    assert_eq!(chunk_count(128), 1);
    assert_eq!(chunk_count(129), 2);
    assert_eq!(chunk_range(300, 0), (0, 128));
    assert_eq!(chunk_range(300, 2), (256, 300));
    assert_eq!(chunk_path("top.ram[3][1]", 0, 16), "top.ram[3][1][127:0]");
    assert_eq!(chunk_path("p", 128, 256), "p[2047:1024]");
}

#[test]
fn uvm_vector_values() {
    let data: Vec<u8> = (1..=10).collect();
    let v = encode_vecval(&data);
    assert_eq!(v.len(), 256);
    assert_eq!(&v[0..8], &[1, 2, 3, 4, 0, 0, 0, 0]);
    assert_eq!(&v[8..16], &[5, 6, 7, 8, 0, 0, 0, 0]);
    assert_eq!(&v[16..20], &[9, 10, 0, 0]);
    assert!(v[20..].iter().all(|b| *b == 0));
    assert_eq!(decode_vecval(&v, 10), data);
}

#[test]
fn wait_event_polls() {
    assert!(WaitEvent.is_me(8));
    assert!(!WaitEvent.is_me(7));
    assert_eq!(WaitEvent.poll_cmd(0), WaitPoll::Pending);
    assert_eq!(WaitEvent.poll_cmd(3), WaitPoll::Ready(3));
}
