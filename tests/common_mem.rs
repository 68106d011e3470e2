use tb_dpi::config::{ConfigNode, DPIShareMemParser, InitMethod};
use tb_dpi::error::{ConfigError, Field};
use tb_dpi::geometry::ArrayDim;
use tb_dpi::memory::MemoryStore;
use tb_dpi::region::DPIShareMem;
use tb_dpi::store::ElementStore;

fn num(i: i64) -> ConfigNode {
    ConfigNode::Integer(i)
}

fn text(s: &str) -> ConfigNode {
    ConfigNode::Text(s.to_string())
}

fn table(entries: Vec<(&str, ConfigNode)>) -> ConfigNode {
    ConfigNode::Table(entries.into_iter().map(|(k, v)| (k.to_string(), v)).collect())
}

fn list(items: Vec<ConfigNode>) -> ConfigNode {
    ConfigNode::List(items)
}

fn names(rows: Vec<Vec<&str>>) -> ConfigNode {
    list(rows.into_iter().map(|r| list(r.into_iter().map(text).collect())).collect())
}

const RAM: &str = "Pc805Tb.dut.IPc805.core_0.cpu_0.radio_0.imem_0.sram_0.ram.mem_model_0.memory";
const SRAM: &str = "Pc805Tb.dut.IPc805.core_0.cpu_0.radio_0.imem_0.sram_0";

fn parse(doc: &ConfigNode) -> DPIShareMem {
    DPIShareMemParser.parse("radio_cim0", doc).unwrap()
}

fn pattern(n: usize, seed: u8) -> Vec<u8> {
    (0..n).map(|i| (i as u8).wrapping_mul(7).wrapping_add(seed)).collect()
}

/// Writes then reads back the same bytes, checking both counts and the data.
fn round_trip(mem: &DPIShareMem, store: &mut MemoryStore, addr: u64, data: &[u8]) {
    assert_eq!(data.len(), mem.write(store, addr, data));
    let mut back = vec![0u8; data.len()];
    assert_eq!(data.len(), mem.read(store, addr, &mut back));
    assert_eq!(data, &back[..]);
}

#[test]
fn direct_mem_test() {
    let doc = table(vec![
        ("path", text(RAM)),
        ("base", num(0x05000000)),
        ("width", num(128)),
        ("size", num(65536)),
    ]);
    let mem = parse(&doc);
    match &mem {
        DPIShareMem::Direct(m) => {
            assert_eq!(m.name, "radio_cim0");
            assert_eq!(m.base, 0x5000000);
            assert_eq!(m.size, 0x10000);
            assert_eq!(m.array.path, RAM);
            assert_eq!(m.array.dim, ArrayDim { rows: 0x1, cols: 0x1000 });
            assert_eq!(m.array.width, 16);
        }
        _ => panic!("expected a Direct region"),
    }
    let mut store = MemoryStore::new();
    let mut data = [5u8; 10];
    assert_eq!(10, mem.write(&mut store, 0x5000000, &data));
    assert_eq!(10, mem.write(&mut store, 0x5000005, &data));
    assert_eq!(10, mem.write(&mut store, 0x500000a, &data));
    assert_eq!(10, mem.read(&mut store, 0x5000000, &mut data));
    assert_eq!(10, mem.read(&mut store, 0x5000005, &mut data));
    assert_eq!(10, mem.read(&mut store, 0x500000a, &mut data));
    assert_eq!(data, [5u8; 10]);
}

#[test]
fn direct_mem_with_array_test() {
    let doc = table(vec![
        ("path", text(RAM)),
        ("base", num(0x05000000)),
        ("width", num(128)),
        ("size", num(65536)),
        ("array_dims", table(vec![("rows", num(256)), ("cols", num(16))])),
    ]);
    let mem = parse(&doc);
    match &mem {
        DPIShareMem::Direct(m) => {
            assert_eq!(m.name, "radio_cim0");
            assert_eq!(m.base, 0x5000000);
            assert_eq!(m.size, 0x10000);
            assert_eq!(m.array.path, RAM);
            assert_eq!(m.array.dim, ArrayDim { rows: 256, cols: 16 });
            assert_eq!(m.array.width, 16);
        }
        _ => panic!("expected a Direct region"),
    }
    let mut store = MemoryStore::new();
    let mut data = [5u8; 10];
    assert_eq!(10, mem.write(&mut store, 0x5000000, &data));
    assert_eq!(10, mem.write(&mut store, 0x5000005, &data));
    assert_eq!(10, mem.write(&mut store, 0x500000a, &data));
    assert_eq!(10, mem.read(&mut store, 0x5000000, &mut data));
    assert_eq!(10, mem.read(&mut store, 0x5000005, &mut data));
    assert_eq!(10, mem.read(&mut store, 0x500000a, &mut data));

    assert_eq!(10, mem.write(&mut store, 0x5000100, &data));
    assert_eq!(10, mem.write(&mut store, 0x5000105, &data));
    assert_eq!(10, mem.write(&mut store, 0x50000fa, &data));
    assert_eq!(10, mem.read(&mut store, 0x5000100, &mut data));
    assert_eq!(10, mem.read(&mut store, 0x5000105, &mut data));
    assert_eq!(10, mem.read(&mut store, 0x50000fa, &mut data));

    let mut data = [5u8; 10 + 256];
    assert_eq!(10 + 256, mem.write(&mut store, 0x50000fa, &data));
    assert_eq!(10 + 256, mem.read(&mut store, 0x50000fa, &mut data));
    assert_eq!(data, [5u8; 10 + 256]);
}

fn banked_4x1(size: i64, bank_depth: i64, dims: Option<(i64, i64)>) -> ConfigNode {
    let mut entries = vec![
        ("path", text(SRAM)),
        ("base", num(0x05000000)),
        ("width", num(128)),
        ("size", num(size)),
        ("bank_width", num(128)),
        ("bank_depth", num(bank_depth)),
    ];
    if let Some((rows, cols)) = dims {
        entries.push(("array_dims", table(vec![("rows", num(rows)), ("cols", num(cols))])));
    }
    entries.push((
        "banks",
        names(vec![
            vec!["gen_rows[0].ram.MEMORY"],
            vec!["gen_rows[1].ram.MEMORY"],
            vec!["gen_rows[2].ram.MEMORY"],
            vec!["gen_rows[3].ram.MEMORY"],
        ]),
    ));
    table(entries)
}

fn banked_1x4(bank_depth: i64, dims: Option<(i64, i64)>) -> ConfigNode {
    let mut entries = vec![
        ("path", text(SRAM)),
        ("base", num(0x05000000)),
        ("width", num(128)),
        ("size", num(65536)),
        ("bank_width", num(32)),
        ("bank_depth", num(bank_depth)),
    ];
    if let Some((rows, cols)) = dims {
        entries.push(("array_dims", table(vec![("rows", num(rows)), ("cols", num(cols))])));
    }
    entries.push((
        "banks",
        names(vec![vec![
            "gen_rows[0].ram.MEMORY",
            "gen_rows[1].ram.MEMORY",
            "gen_rows[2].ram.MEMORY",
            "gen_rows[3].ram.MEMORY",
        ]]),
    ));
    table(entries)
}

fn short_writes(mem: &DPIShareMem, store: &mut MemoryStore) {
    let mut data = [5u8; 10];
    assert_eq!(10, mem.write(store, 0x5000000, &data));
    assert_eq!(10, mem.write(store, 0x5000005, &data));
    assert_eq!(10, mem.write(store, 0x500000a, &data));
    assert_eq!(10, mem.read(store, 0x5000000, &mut data));
    assert_eq!(10, mem.read(store, 0x5000005, &mut data));
    assert_eq!(10, mem.read(store, 0x500000a, &mut data));
    assert_eq!(data, [5u8; 10]);
}

fn row_and_bank_crossings(mem: &DPIShareMem, store: &mut MemoryStore) {
    let mut data = [5u8; 10];
    assert_eq!(10, mem.write(store, 0x5000100, &data));
    assert_eq!(10, mem.write(store, 0x5000105, &data));
    assert_eq!(10, mem.write(store, 0x50000fa, &data));
    assert_eq!(10, mem.read(store, 0x5000100, &mut data));
    assert_eq!(10, mem.read(store, 0x5000105, &mut data));
    assert_eq!(10, mem.read(store, 0x50000fa, &mut data));

    let mut data = [5u8; 10 + 256];
    assert_eq!(10 + 256, mem.write(store, 0x50000fa, &data));
    assert_eq!(10 + 256, mem.read(store, 0x50000fa, &mut data));

    assert_eq!(10 + 256, mem.write(store, 0x5003ffa, &data));
    assert_eq!(10 + 256, mem.read(store, 0x5003ffa, &mut data));

    let mut data = [5u8; 10 + 16 * 1024];
    assert_eq!(10 + 16 * 1024, mem.write(store, 0x50000fa, &data));
    assert_eq!(10 + 16 * 1024, mem.read(store, 0x50000fa, &mut data));

    assert_eq!(10 + 16 * 1024, mem.write(store, 0x5003ffa, &data));
    assert_eq!(10 + 16 * 1024, mem.read(store, 0x5003ffa, &mut data));
    assert!(data.iter().all(|b| *b == 5));
}

#[test]
fn banked_mem1d_vet_test() {
    let mem = parse(&banked_4x1(262144, 4096, None));
    match &mem {
        DPIShareMem::Banked(m) => {
            assert_eq!(m.name, "radio_cim0");
            assert_eq!(m.path, SRAM);
            assert_eq!(m.width, 16);
            assert_eq!(m.base, 0x5000000);
            assert_eq!(m.size, 0x40000);
            assert_eq!(m.bank_width, 16);
            assert_eq!(m.bank_depth, 0x1000);
            assert_eq!(m.banks.len(), 4);
            for (i, row) in m.banks.iter().enumerate() {
                assert_eq!(row.len(), 1);
                assert_eq!(row[0].path, format!("{}.gen_rows[{}].ram.MEMORY", SRAM, i));
                assert_eq!(row[0].dim, ArrayDim { rows: 0x1, cols: 0x1000 });
                assert_eq!(row[0].width, 16);
            }
        }
        _ => panic!("expected a Banked region"),
    }
    let mut store = MemoryStore::new();
    short_writes(&mem, &mut store);
}

#[test]
fn banked_mem1d_hor_test() {
    let mem = parse(&banked_1x4(4096, None));
    let mut store = MemoryStore::new();
    short_writes(&mem, &mut store);
}

#[test]
fn banked_mem1d_vet_array_test() {
    let mem = parse(&banked_4x1(65536, 1024, Some((64, 16))));
    let mut store = MemoryStore::new();
    short_writes(&mem, &mut store);
    row_and_bank_crossings(&mem, &mut store);
}

#[test]
fn banked_mem1d_hor_array_test() {
    let mem = parse(&banked_1x4(4096, Some((64, 64))));
    let mut store = MemoryStore::new();
    short_writes(&mem, &mut store);
    row_and_bank_crossings(&mem, &mut store);
}

#[test]
fn banked_mem2d_hor_test() {
    let doc = table(vec![
        ("path", text(SRAM)),
        ("base", num(0x05000000)),
        ("width", num(128)),
        ("size", num(65536)),
        ("bank_width", num(64)),
        ("bank_depth", num(1024)),
        ("array_dims", table(vec![("rows", num(128)), ("cols", num(8))])),
        (
            "banks",
            names(vec![
                vec!["gen_rows[0].gen_col[0].ram.MEMORY", "gen_rows[0].gen_col[1].ram.MEMORY"],
                vec!["gen_rows[1].gen_col[0].ram.MEMORY", "gen_rows[1].gen_col[1].ram.MEMORY"],
                vec!["gen_rows[2].gen_col[0].ram.MEMORY", "gen_rows[2].gen_col[1].ram.MEMORY"],
                vec!["gen_rows[3].gen_col[0].ram.MEMORY", "gen_rows[3].gen_col[1].ram.MEMORY"],
            ]),
        ),
    ]);
    let mem = parse(&doc);
    let mut store = MemoryStore::new();
    short_writes(&mem, &mut store);
    row_and_bank_crossings(&mem, &mut store);
}

fn direct_doc(dims: Option<(i64, i64)>) -> ConfigNode {
    let mut entries = vec![
        ("path", text(RAM)),
        ("base", num(0x05000000)),
        ("width", num(128)),
        ("size", num(65536)),
    ];
    if let Some((rows, cols)) = dims {
        entries.push(("array_dims", table(vec![("rows", num(rows)), ("cols", num(cols))])));
    }
    table(entries)
}

#[test]
fn direct_round_trip_any_offset() {
    let mem = parse(&direct_doc(Some((256, 16))));
    let mut store = MemoryStore::new();
    for (addr, len) in [(0x5000000u64, 1usize), (0x5000003, 13), (0x5000010, 16), (0x50000ff, 2), (0x5000abc, 700)] {
        round_trip(&mem, &mut store, addr, &pattern(len, addr as u8));
    }
}

#[test]
fn direct_boundary_preserved() {
    let mem = parse(&direct_doc(None));
    let mut store = MemoryStore::new();
    let full = pattern(16, 0x40);
    assert_eq!(16, mem.write(&mut store, 0x5000020, &full));
    assert_eq!(5, mem.write(&mut store, 0x5000025, &[0xee; 5]));
    let mut back = [0u8; 16];
    assert_eq!(16, mem.read(&mut store, 0x5000020, &mut back));
    assert_eq!(&back[..5], &full[..5]);
    assert_eq!(&back[5..10], &[0xee; 5]);
    assert_eq!(&back[10..], &full[10..]);
}

#[test]
fn zero_length_is_a_no_op() {
    let mem = parse(&direct_doc(None));
    let mut store = MemoryStore::new();
    assert_eq!(0, mem.write(&mut store, 0x5000004, &[]));
    let mut empty: [u8; 0] = [];
    assert_eq!(0, mem.read(&mut store, 0x5000004, &mut empty));
    assert!(store.elements.is_empty());
    assert!(store.bytes.is_empty());
}

#[test]
fn truncated_at_region_end() {
    let mem = parse(&direct_doc(None));
    let mut store = MemoryStore::new();
    let end = 0x5000000u64 + 65536 - 1;
    let data = pattern(10, 1);
    assert_eq!(3, mem.write(&mut store, end - 2, &data));
    let mut back = [0xaau8; 10];
    assert_eq!(3, mem.read(&mut store, end - 2, &mut back));
    assert_eq!(&back[..3], &data[..3]);
    assert_eq!(&back[3..], &[0xaa; 7]);
}

#[test]
fn cross_row_write_keeps_neighbours() {
    let mem = parse(&direct_doc(Some((256, 16))));
    let mut store = MemoryStore::new();
    let before = pattern(1024, 9);
    assert_eq!(1024, mem.write(&mut store, 0x5000000, &before));
    let data = pattern(266, 0x80);
    assert_eq!(266, mem.write(&mut store, 0x50000fa, &data));
    let mut back = vec![0u8; 266];
    assert_eq!(266, mem.read(&mut store, 0x50000fa, &mut back));
    assert_eq!(back, data);
    let mut all = vec![0u8; 1024];
    assert_eq!(1024, mem.read(&mut store, 0x5000000, &mut all));
    assert_eq!(&all[..250], &before[..250]);
    assert_eq!(&all[516..], &before[516..]);
}

#[test]
fn banked_round_trip() {
    let mem = parse(&banked_4x1(262144, 4096, None));
    let mut store = MemoryStore::new();
    for addr in [0x5000000u64, 0x5000005, 0x500000a] {
        round_trip(&mem, &mut store, addr, &pattern(10, addr as u8));
    }
    let mem = parse(&banked_1x4(4096, Some((64, 64))));
    let mut store = MemoryStore::new();
    for (addr, len) in [(0x5000000u64, 10usize), (0x5000003, 2), (0x50000fa, 266), (0x5003ffa, 16394)] {
        round_trip(&mem, &mut store, addr, &pattern(len, addr as u8));
    }
}

#[test]
fn banked_bytes_land_in_their_bank() {
    let mem = parse(&banked_1x4(4096, None));
    let mut store = MemoryStore::new();
    assert_eq!(16, mem.write(&mut store, 0x5000010, &pattern(16, 0)));
    let path = format!("{}.gen_rows[2].ram.MEMORY", SRAM);
    let w = store
        .elements
        .iter()
        .rev()
        .find(|w| w.path == path && w.row == 0 && w.col == 1)
        .unwrap();
    assert_eq!(w.data, pattern(16, 0)[8..12].to_vec());
}

#[test]
fn validator_rejects_size_mismatch() {
    match DPIShareMemParser.parse("radio_cim0", &direct_doc(Some((1, 100)))) {
        Err(ConfigError::SizeMismatch { region, size, rows, cols, width }) => {
            assert_eq!(region, "radio_cim0");
            assert_eq!((size, rows, cols, width), (65536, 1, 100, 16));
        }
        other => panic!("unexpected {:?}", other),
    }
}

#[test]
fn validator_names_missing_integers() {
    let doc = table(vec![("path", text(RAM)), ("size", num(16))]);
    assert!(matches!(
        DPIShareMemParser.parse("m", &doc),
        Err(ConfigError::NotInteger { field: Field::Base, .. })
    ));
    let doc = table(vec![("base", num(0)), ("size", text("big"))]);
    assert!(matches!(
        DPIShareMemParser.parse("m", &doc),
        Err(ConfigError::NotInteger { field: Field::Size, .. })
    ));
    let doc = table(vec![("base", num(0)), ("size", num(16)), ("path", text("p"))]);
    assert!(matches!(
        DPIShareMemParser.parse("m", &doc),
        Err(ConfigError::NotInteger { field: Field::Width, .. })
    ));
    let doc = table(vec![
        ("base", num(0)),
        ("size", num(16)),
        ("array_dims", table(vec![("rows", num(1))])),
    ]);
    assert!(matches!(
        DPIShareMemParser.parse("m", &doc),
        Err(ConfigError::NotInteger { field: Field::Cols, .. })
    ));
}

#[test]
fn validator_checks_bank_grid() {
    let mut doc = banked_4x1(65536, 1024, Some((64, 16)));
    if let ConfigNode::Table(entries) = &mut doc {
        entries.retain(|(k, _)| k != "banks");
        entries.push(("banks".to_string(), names(vec![vec!["a"], vec!["b"]])));
    }
    assert!(matches!(
        DPIShareMemParser.parse("m", &doc),
        Err(ConfigError::BankRowsMismatch { rows: 2, expected: 4, .. })
    ));
    let doc = banked_4x1(65536, 512, Some((64, 16)));
    match DPIShareMemParser.parse("m", &doc) {
        Err(ConfigError::BankRowsMismatch { rows: 4, expected: 8, .. }) => {}
        other => panic!("unexpected {:?}", other),
    }
    let doc = banked_4x1(65536, 1024, Some((32, 16)));
    assert!(matches!(
        DPIShareMemParser.parse("m", &doc),
        Err(ConfigError::BankDepthMismatch { depth: 512, bank_depth: 1024, .. })
    ));
    let mut doc = banked_1x4(4096, None);
    if let ConfigNode::Table(entries) = &mut doc {
        entries.retain(|(k, _)| k != "banks");
        entries.push(("banks".to_string(), list(vec![list(vec![text("a"), num(3)])])));
    }
    assert!(matches!(DPIShareMemParser.parse("m", &doc), Err(ConfigError::BanksNotNames { .. })));
    let mut doc = banked_1x4(4096, None);
    if let ConfigNode::Table(entries) = &mut doc {
        entries.retain(|(k, _)| k != "banks");
        entries.push(("banks".to_string(), names(vec![vec!["a", "b"]])));
    }
    assert!(matches!(
        DPIShareMemParser.parse("m", &doc),
        Err(ConfigError::BankColsMismatch { row: 0, cols: 2, expected: 4, .. })
    ));
}

#[test]
fn black_box_forwards_bytes() {
    let doc = table(vec![("base", num(0x1000)), ("size", num(8))]);
    let mem = DPIShareMemParser.parse("bb", &doc).unwrap();
    assert!(matches!(mem, DPIShareMem::BlackBox(_)));
    let mut store = MemoryStore::new();
    assert_eq!(2, mem.write(&mut store, 0x1006, &[1, 2, 3, 4]));
    assert_eq!(store.read_byte("bb", 6), 1);
    assert_eq!(store.read_byte("bb", 7), 2);
    let mut back = [0u8; 2];
    assert_eq!(2, mem.read(&mut store, 0x1006, &mut back));
    assert_eq!(back, [1, 2]);
}

#[test]
fn init_methods() {
    let with_init = |init: ConfigNode| {
        table(vec![("base", num(0)), ("size", num(16)), ("init", init)])
    };
    assert!(DPIShareMemParser.parse("m", &with_init(table(vec![("method", text("random"))]))).is_ok());
    assert!(matches!(
        DPIShareMemParser.parse("m", &with_init(table(vec![("method", text("sparse"))]))),
        Err(ConfigError::UnknownInitMethod { .. })
    ));
    assert!(matches!(
        DPIShareMemParser.parse("m", &with_init(table(vec![("method", text("hex"))]))),
        Err(ConfigError::HexFileRequired { .. })
    ));
    match InitMethod::try_from(
        "m",
        Some(&table(vec![("method", text("hex")), ("file", text("/no/such/dir/image.hex"))])),
    ) {
        Err(ConfigError::HexFileMissing { path, .. }) => assert_eq!(path, "/no/such/dir/image.hex"),
        other => panic!("unexpected {:?}", other),
    }
    assert!(matches!(InitMethod::try_from("m", None), Ok(InitMethod::NoInit)));
    assert!(matches!(
        InitMethod::hex("m", Ok("x.hex".to_string()), true),
        Ok(InitMethod::Hex(p)) if p == "x.hex"
    ));
}

#[test]
fn unsupported_geometry_is_reported() {
    let doc = table(vec![
        ("path", text("p")),
        ("base", num(0)),
        ("width", num(24)),
        ("size", num(48)),
    ]);
    let mem = DPIShareMemParser.parse("m", &doc).unwrap();
    assert!(!mem.is_supported());
    assert!(parse(&direct_doc(None)).is_supported());
}

#[test]
fn hex_file_is_expanded_and_found() {
    let hex = |file: &str| table(vec![("method", text("hex")), ("file", text(file))]);
    match InitMethod::try_from("m", Some(&hex("/proc/self/status"))) {
        Ok(InitMethod::Hex(p)) => assert_eq!(p, "/proc/self/status"),
        other => panic!("unexpected {:?}", other),
    }
    match InitMethod::try_from("m", Some(&hex("$HOME/no_such_image_file.hex"))) {
        Err(ConfigError::HexFileMissing { path, .. }) => {
            assert!(!path.starts_with('$'));
            assert!(path.ends_with("/no_such_image_file.hex"));
        }
        Err(ConfigError::HexFileExpansion { .. }) => {}
        other => panic!("unexpected {:?}", other),
    }
}

fn banked_2x4_doc(suffixes: Vec<Vec<&str>>) -> ConfigNode {
    table(vec![
        ("path", text(SRAM)),
        ("base", num(0x05000000)),
        ("width", num(128)),
        ("size", num(65536)),
        ("bank_width", num(64)),
        ("bank_depth", num(1024)),
        ("array_dims", table(vec![("rows", num(128)), ("cols", num(8))])),
        ("banks", names(suffixes)),
    ])
}

#[test]
fn banked_offsets_decompose() {
    let mem = parse(&banked_2x4_doc(vec![
        vec!["r0c0", "r0c1"],
        vec!["r1c0", "r1c1"],
        vec!["r2c0", "r2c1"],
        vec!["r3c0", "r3c1"],
    ]));
    match &mem {
        DPIShareMem::Banked(m) => {
            assert_eq!((m.depth(), m.cols(), m.rows()), (4096, 2, 4));
            assert_eq!((m.row(0x4008), m.col(0x4008), m.bank_offset(0x4008)), (1, 1, 0));
            assert_eq!((m.row(0x3ffb), m.col(0x3ffb), m.bank_offset(0x3ffb)), (0, 1, 8187));
            assert_eq!((m.row(0xffff), m.col(0xffff), m.bank_offset(0xffff)), (3, 1, 8191));
        }
        _ => panic!("expected a Banked region"),
    }
    assert!(mem.is_supported());
    let dup = parse(&banked_2x4_doc(vec![
        vec!["r0c0", "r0c1"],
        vec!["r1c0", "r1c1"],
        vec!["r2c0", "r0c1"],
        vec!["r3c0", "r3c1"],
    ]));
    assert!(!dup.is_supported());
}

#[test]
fn empty_requests_anywhere_are_no_ops() {
    let mem = parse(&direct_doc(None));
    let mut store = MemoryStore::new();
    assert_eq!(0, mem.write(&mut store, 0x10, &[]));
    assert_eq!(0, mem.write(&mut store, 0x6000000, &[]));
    let mut empty: [u8; 0] = [];
    assert_eq!(0, mem.read(&mut store, 0x10, &mut empty));
    assert!(store.elements.is_empty() && store.bytes.is_empty());
}

#[test]
fn direct_write_writes_each_covered_element_once() {
    let mem = parse(&direct_doc(Some((256, 16))));
    let mut store = MemoryStore::new();
    assert_eq!(266, mem.write(&mut store, 0x50000fa, &pattern(266, 3)));
    let written: Vec<(usize, usize)> = store.elements.iter().map(|w| (w.row, w.col)).collect();
    let mut expected = vec![(0, 15)];
    expected.extend((0..16).map(|c| (1, c)));
    expected.push((2, 0));
    assert_eq!(written, expected);
    assert!(store.elements.iter().all(|w| w.path == RAM && w.data.len() == 16));
}

#[test]
fn black_box_writes_each_byte_once() {
    let doc = table(vec![("base", num(0x1000)), ("size", num(8))]);
    let mem = DPIShareMemParser.parse("bb", &doc).unwrap();
    let mut store = MemoryStore::new();
    assert_eq!(3, mem.write(&mut store, 0x1002, &[7, 8, 9]));
    let written: Vec<(String, usize, u8)> =
        store.bytes.iter().map(|w| (w.name.clone(), w.offset, w.data)).collect();
    assert_eq!(
        written,
        vec![("bb".to_string(), 2, 7), ("bb".to_string(), 3, 8), ("bb".to_string(), 4, 9)]
    );
}

#[test]
fn parsed_region_keeps_init_method() {
    let doc = table(vec![
        ("base", num(0)),
        ("size", num(16)),
        ("init", table(vec![("method", text("all_zero"))])),
    ]);
    match DPIShareMemParser.parse("m", &doc).unwrap() {
        DPIShareMem::BlackBox(m) => assert!(matches!(m.init, InitMethod::AllZero)),
        _ => panic!("expected a Black-box region"),
    }
    match parse(&direct_doc(None)) {
        DPIShareMem::Direct(m) => assert!(matches!(m.init, InitMethod::NoInit)),
        _ => panic!("expected a Direct region"),
    }
}

#[test]
fn banked_write_writes_each_window_element_once() {
    let mem = parse(&banked_2x4_doc(vec![
        vec!["r0c0", "r0c1"],
        vec!["r1c0", "r1c1"],
        vec!["r2c0", "r2c1"],
        vec!["r3c0", "r3c1"],
    ]));
    let mut store = MemoryStore::new();
    assert_eq!(20, mem.write(&mut store, 0x5003ffa, &pattern(20, 1)));
    let written: Vec<(String, usize, usize)> = store
        .elements
        .iter()
        .map(|w| (w.path.rsplit('.').next().unwrap().to_string(), w.row, w.col))
        .collect();
    let e = |s: &str, r: usize, c: usize| (s.to_string(), r, c);
    assert_eq!(
        written,
        vec![
            e("r0c0", 127, 7),
            e("r0c1", 127, 7),
            e("r1c0", 0, 0),
            e("r1c1", 0, 0),
        ]
    );
}

fn element_reads(store: &MemoryStore) -> Vec<(usize, usize)> {
    store.element_reads.iter().map(|r| (r.row, r.col)).collect()
}

#[test]
fn direct_write_primes_only_unaligned_ends() {
    let mem = parse(&direct_doc(Some((256, 16))));
    let mut store = MemoryStore::new();
    assert_eq!(266, mem.write(&mut store, 0x50000fa, &pattern(266, 3)));
    assert_eq!(element_reads(&store), vec![(0, 15), (2, 0)]);
    let mut store = MemoryStore::new();
    assert_eq!(32, mem.write(&mut store, 0x5000100, &pattern(32, 3)));
    assert!(element_reads(&store).is_empty());
    let mut store = MemoryStore::new();
    assert_eq!(4, mem.write(&mut store, 0x5000104, &pattern(4, 3)));
    assert_eq!(element_reads(&store), vec![(1, 0)]);
}

#[test]
fn direct_read_reads_each_covered_element_once() {
    let mem = parse(&direct_doc(Some((256, 16))));
    let mut store = MemoryStore::new();
    let mut back = [0u8; 32];
    assert_eq!(32, mem.read(&mut store, 0x5000100, &mut back));
    assert_eq!(element_reads(&store), vec![(1, 0), (1, 1)]);
    assert!(store.elements.is_empty());
}

#[test]
fn black_box_reads_each_byte_once() {
    let doc = table(vec![("base", num(0x1000)), ("size", num(8))]);
    let mem = DPIShareMemParser.parse("bb", &doc).unwrap();
    let mut store = MemoryStore::new();
    let mut back = [0u8; 3];
    assert_eq!(3, mem.read(&mut store, 0x1001, &mut back));
    let offsets: Vec<usize> = store.byte_reads.iter().map(|r| r.offset).collect();
    assert_eq!(offsets, vec![1, 2, 3]);
}

#[test]
fn validator_requires_bank_fields() {
    let without = |key: &str| {
        let mut doc = banked_1x4(4096, None);
        if let ConfigNode::Table(entries) = &mut doc {
            entries.retain(|(k, _)| k != key);
        }
        doc
    };
    assert!(matches!(
        DPIShareMemParser.parse("m", &without("bank_width")),
        Err(ConfigError::NotInteger { field: Field::BankWidth, .. })
    ));
    assert!(matches!(
        DPIShareMemParser.parse("m", &without("bank_depth")),
        Err(ConfigError::NotInteger { field: Field::BankDepth, .. })
    ));
}
