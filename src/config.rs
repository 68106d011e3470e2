//! Region configuration: a document of named fields, and the parser and validator that
//! build a region from it.
use crate::banked::DPIBankedShareMem;
use crate::error::{ConfigError, Field};
use crate::geometry::ArrayDim;
use crate::region::{DPIBlackBoxShareMem, DPIDirectShareMem, DPIShareMem};
use vstd::prelude::*;

verus! {

/// A value of a configuration document.
#[derive(Debug)]
pub enum ConfigNode {
    Integer(i64),
    Text(String),
    List(Vec<ConfigNode>),
    /// Named values, in order.
    Table(Vec<(String, ConfigNode)>),
    /// Any other scalar.
    Other,
}

/// The value of the first entry named `key`.
pub open spec fn lookup(entries: Seq<(String, ConfigNode)>, key: Seq<char>) -> Option<ConfigNode>
    decreases entries.len(),
{
    if entries.len() == 0 {
        None
    } else if entries[0].0@ == key {
        Some(entries[0].1)
    } else {
        lookup(entries.drop_first(), key)
    }
}

/// The field `key` of a table; nothing for any other value.
pub open spec fn field(node: ConfigNode, key: Seq<char>) -> Option<ConfigNode> {
    match node {
        ConfigNode::Table(entries) => lookup(entries@, key),
        _ => None,
    }
}

/// The integer that the field `key` holds, if it holds one.
pub open spec fn int_field(node: ConfigNode, key: Seq<char>) -> Option<i64> {
    match field(node, key) {
        Some(ConfigNode::Integer(i)) => Some(i),
        _ => None,
    }
}

/// The text that the field `key` holds, if it holds text.
pub open spec fn text_field(node: ConfigNode, key: Seq<char>) -> Option<Seq<char>> {
    match field(node, key) {
        Some(ConfigNode::Text(t)) => Some(t@),
        _ => None,
    }
}

impl ConfigNode {
    /// The field `key`, if this is a table that has one.
    pub fn get(&self, key: &str) -> (r: Option<&ConfigNode>)
        ensures
            r matches Some(n) ==> field(*self, key@) == Some(*n),
            r is None ==> field(*self, key@) is None,
    {
        match self {
            ConfigNode::Table(entries) => {
                let k = String::from_str(key);
                let mut i: usize = 0;
                assert(entries@.subrange(0, entries@.len() as int) =~= entries@);
                while i < entries.len()
                    invariant
                        k@ == key@,
                        field(*self, key@) == lookup(entries@, key@),
                        i <= entries@.len(),
                        lookup(entries@, key@) == lookup(entries@.subrange(i as int, entries@.len() as int), key@),
                    decreases entries@.len() - i,
                {
                    proof {
                        let rest = entries@.subrange(i as int, entries@.len() as int);
                        assert(rest.drop_first() =~= entries@.subrange(i + 1, entries@.len() as int));
                    }
                    if entries[i].0 == k {
                        proof {
                            let rest = entries@.subrange(i as int, entries@.len() as int);
                            assert(rest[0] == entries@[i as int]);
                            assert(entries@[i as int].0@ == key@);
                            assert(lookup(rest, key@) == Some(entries@[i as int].1));

                        }
                        return Some(&entries[i].1);
                    }
                    i = i + 1;
                }
                None
            },
            _ => None,
        }
    }

    /// The integer this value holds.
    pub fn as_i64(&self) -> (r: Option<i64>)
        ensures
            r == (match *self {
                ConfigNode::Integer(i) => Some(i),
                _ => None::<i64>,
            }),
    {
        match self {
            ConfigNode::Integer(i) => Some(*i),
            _ => None,
        }
    }
}

/// The integer field `key` of `doc`.
fn int_of(doc: &ConfigNode, key: &str) -> (r: Option<i64>)
    ensures
        r == int_field(*doc, key@),
{
    match doc.get(key) {
        Some(n) => n.as_i64(),
        None => None,
    }
}

/// The text field `key` of `doc`.
fn text_of<'a>(doc: &'a ConfigNode, key: &str) -> (r: Option<&'a String>)
    ensures
        r matches Some(t) ==> text_field(*doc, key@) == Some(t@),
        r is None ==> text_field(*doc, key@) is None,
{
    match doc.get(key) {
        Some(ConfigNode::Text(t)) => Some(t),
        _ => None,
    }
}


/// How a region's backing store is initialised once it is built.
#[derive(Debug)]
pub enum InitMethod {
    NoInit,
    AllZero,
    Random,
    /// From the hex file at the path.
    Hex(String),
}

/// Relies on `shellexpand::full`: expands `~` and `$VAR` references from the
/// environment. A path with no `$` that does not start with `~` comes back unchanged.
#[verifier::external_body]
fn expand_path(s: &str) -> (r: Result<String, String>)
    ensures
        r is Ok && r->Ok_0@ == s@ <== !s@.contains('$') && !(s@.len() > 0 && s@[0] == '~'),
{
    match shellexpand::full(s) {
        Ok(t) => Ok(t.to_string()),
        Err(e) => Err(e.to_string()),
    }
}

/// Relies on `std::path::Path::is_file`: whether a regular file is at the path, as the
/// disk says at the time of the call.
#[verifier::external_body]
fn is_file(path: &str) -> (r: bool) {
    std::path::Path::new(path).is_file()
}

impl InitMethod {
    /// The `hex` method given what expanding its file gave and whether the file is
    /// there.
    pub fn hex(key: &str, expanded: Result<String, String>, exists: bool) -> (r: Result<InitMethod, ConfigError>)
        ensures
            expanded matches Err(msg) ==> (r matches Err(ConfigError::HexFileExpansion { region, message })
                && region@ == key@ && message@ == msg@),
            r matches Err(e) ==> (e is HexFileExpansion || e is HexFileMissing),
            expanded matches Ok(p) ==> (if exists {
                r matches Ok(InitMethod::Hex(q)) && q@ == p@
            } else {
                r matches Err(ConfigError::HexFileMissing { region, path }) && region@ == key@ && path@ == p@
            }),
    {
        match expanded {
            Err(msg) => Err(ConfigError::HexFileExpansion { region: String::from_str(key), message: msg }),
            Ok(p) => {
                if exists {
                    Ok(InitMethod::Hex(p))
                } else {
                    Err(ConfigError::HexFileMissing { region: String::from_str(key), path: p })
                }
            },
        }
    }

    /// The init method that the `init` field describes: none when the field is
    /// missing; else its `method`, one of `no_init`, `all_zero`, `random` and `hex`,
    /// the last with a `file` that must exist once expanded.
    pub fn try_from(key: &str, init: Option<&ConfigNode>) -> (r: Result<InitMethod, ConfigError>)
        ensures
            init is None ==> r matches Ok(InitMethod::NoInit),
            init matches Some(n) && text_field(*n, "method"@) == Some("no_init"@) ==> (r matches Ok(InitMethod::NoInit)),
            init matches Some(n) && text_field(*n, "method"@) == Some("all_zero"@) ==> (r matches Ok(InitMethod::AllZero)),
            init matches Some(n) && text_field(*n, "method"@) == Some("random"@) ==> (r matches Ok(InitMethod::Random)),
            init matches Some(n) && text_field(*n, "method"@) == Some("hex"@) && text_field(*n, "file"@) is None
                ==> (r matches Err(ConfigError::HexFileRequired { region }) && region@ == key@),
            init matches Some(n) && text_field(*n, "method"@) == Some("hex"@) && r is Ok ==> (r matches Ok(InitMethod::Hex(_))),
            init matches Some(n) && text_field(*n, "method"@) == Some("hex"@) && text_field(*n, "file"@) is Some
                ==> (r matches Ok(InitMethod::Hex(_)) || r matches Err(ConfigError::HexFileExpansion { .. })
                || r matches Err(ConfigError::HexFileMissing { .. })),
            init matches Some(n) && text_field(*n, "method"@) == Some("hex"@) && text_field(*n, "file"@) is Some
                && plain_path(text_field(*n, "file"@)->Some_0) ==> ((r matches Ok(InitMethod::Hex(q)) && q@ == init_file(
                init,
            )) || (r matches Err(ConfigError::HexFileMissing { path, .. }) && path@ == init_file(init))),
            init matches Some(n) && !(text_field(*n, "method"@) == Some("no_init"@) || text_field(*n, "method"@) == Some("all_zero"@)
                || text_field(*n, "method"@) == Some("random"@) || text_field(*n, "method"@) == Some("hex"@))
                ==> (r matches Err(ConfigError::UnknownInitMethod { region }) && region@ == key@),
            r matches Err(e) ==> e.region_spec() == key@,
            r matches Err(e) ==> (e is UnknownInitMethod || e is HexFileRequired || e is HexFileExpansion
                || e is HexFileMissing),
    {
        let n = match init {
            None => {
                return Ok(InitMethod::NoInit);
            },
            Some(n) => n,
        };
        proof {
            reveal_strlit("no_init");
            reveal_strlit("all_zero");
            reveal_strlit("random");
            reveal_strlit("hex");
            assert("no_init"@.len() == 7 && "all_zero"@.len() == 8 && "random"@.len() == 6 && "hex"@.len() == 3);
        }
        let method = match text_of(n, "method") {
            Some(m) => m,
            None => {
                return Err(ConfigError::UnknownInitMethod { region: String::from_str(key) });
            },
        };
        if *method == String::from_str("no_init") {
            Ok(InitMethod::NoInit)
        } else if *method == String::from_str("all_zero") {
            Ok(InitMethod::AllZero)
        } else if *method == String::from_str("random") {
            Ok(InitMethod::Random)
        } else if *method == String::from_str("hex") {
            let file = match text_of(n, "file") {
                Some(f) => f,
                None => {
                    return Err(ConfigError::HexFileRequired { region: String::from_str(key) });
                },
            };
            let expanded = expand_path(file.as_str());
            let exists = match &expanded {
                Ok(p) => is_file(p.as_str()),
                Err(_) => false,
            };
            InitMethod::hex(key, expanded, exists)
        } else {
            Err(ConfigError::UnknownInitMethod { region: String::from_str(key) })
        }
    }
}


/// The value is a name.
pub open spec fn is_name(n: ConfigNode) -> bool {
    n is Text
}

/// The value is a sequence of names.
pub open spec fn is_name_row(n: ConfigNode) -> bool {
    n is List && forall|j: int| 0 <= j < n->List_0@.len() ==> #[trigger] is_name(n->List_0@[j])
}

/// Every item is a sequence of names.
pub open spec fn names_ok(items: Seq<ConfigNode>) -> bool {
    forall|i: int| 0 <= i < items.len() ==> #[trigger] is_name_row(items[i])
}

/// The names of the banks, row by row.
fn parse_banks(key: &str, items: &Vec<ConfigNode>) -> (r: Result<Vec<Vec<String>>, ConfigError>)
    ensures
        r is Ok <==> names_ok(items@),
        r matches Err(e) ==> (e matches ConfigError::BanksNotNames { region } && region@ == key@),
        r matches Ok(v) ==> {
            &&& v@.len() == items@.len()
            &&& forall|i: int| 0 <= i < v@.len() ==> (#[trigger] v@[i])@.len() == items@[i]->List_0@.len()
            &&& forall|i: int, j: int|
                0 <= i < v@.len() && 0 <= j < v@[i]@.len() ==> (#[trigger] v@[i]@[j])@
                    == items@[i]->List_0@[j]->Text_0@
        },
{
    let mut out: Vec<Vec<String>> = Vec::new();
    let mut i: usize = 0;
    while i < items.len()
        invariant
            i <= items@.len(),
            out@.len() == i,
            forall|x: int| 0 <= x < i ==> #[trigger] is_name_row(items@[x]),
            forall|x: int| 0 <= x < i ==> (#[trigger] out@[x])@.len() == items@[x]->List_0@.len(),
            forall|x: int, j: int|
                0 <= x < i && 0 <= j < out@[x]@.len() ==> (#[trigger] out@[x]@[j])@
                    == items@[x]->List_0@[j]->Text_0@,
        decreases items@.len() - i,
    {
        let row = match &items[i] {
            ConfigNode::List(row) => row,
            _ => {
                proof {
                    assert(!is_name_row(items@[i as int]));
                }
                return Err(ConfigError::BanksNotNames { region: String::from_str(key) });
            },
        };
        let mut names: Vec<String> = Vec::new();
        let mut j: usize = 0;
        while j < row.len()
            invariant
                i < items@.len(),
                items@[i as int] is List,
                row@ == items@[i as int]->List_0@,
                j <= row@.len(),
                names@.len() == j,
                forall|y: int| 0 <= y < j ==> #[trigger] is_name(row@[y]),
                forall|y: int| 0 <= y < j ==> (#[trigger] names@[y])@ == row@[y]->Text_0@,
            decreases row@.len() - j,
        {
            match &row[j] {
                ConfigNode::Text(t) => {
                    names.push(t.clone());
                },
                _ => {
                    proof {
                        assert(!(items@[i as int]->List_0@[j as int] is Text));
                        if names_ok(items@) {
                            assert(is_name_row(items@[i as int]));
                            assert(is_name(items@[i as int]->List_0@[j as int]));
                        }
                    }
                    return Err(ConfigError::BanksNotNames { region: String::from_str(key) });
                },
            }
            j = j + 1;
        }
        out.push(names);
        proof {
            assert(is_name_row(items@[i as int]));
            assert forall|x: int, y: int|
                0 <= x < i + 1 && 0 <= y < out@[x]@.len() implies (#[trigger] out@[x]@[y])@
                    == items@[x]->List_0@[y]->Text_0@ by {}
        }
        i = i + 1;
    }
    Ok(out)
}

/// The array dimensions that the `array_dims` field gives: none when it is missing,
/// and `None` when it lacks an integer `rows` or `cols`.
pub open spec fn dims_field(doc: ConfigNode) -> Option<Option<ArrayDim>> {
    match field(doc, "array_dims"@) {
        None => Some(None),
        Some(d) => if int_field(d, "rows"@) is Some && int_field(d, "cols"@) is Some {
            Some(
                Some(
                    ArrayDim {
                        rows: int_field(d, "rows"@)->Some_0 as usize,
                        cols: int_field(d, "cols"@)->Some_0 as usize,
                    },
                ),
            )
        } else {
            None
        },
    }
}

/// The `file` text of an init field.
pub open spec fn init_file(init: Option<&ConfigNode>) -> Seq<char> {
    match init {
        Some(n) => text_field(*n, "file"@)->Some_0,
        None => Seq::empty(),
    }
}

/// The path needs no expansion: it has no `$` and does not start with `~`.
pub open spec fn plain_path(s: Seq<char>) -> bool {
    !s.contains('$') && !(s.len() > 0 && s[0] == '~')
}

/// The init method is one of `no_init`, `all_zero` and `random`.
pub open spec fn simple_method(n: ConfigNode) -> bool {
    let m = text_field(n, "method"@);
    m == Some("no_init"@) || m == Some("all_zero"@) || m == Some("random"@)
}

/// The method is one that the init field may name.
pub open spec fn known_method(n: ConfigNode) -> bool {
    simple_method(n) || text_field(n, "method"@) == Some("hex"@)
}

/// The init field is absent or names a method that needs no file.
pub open spec fn init_without_file(doc: ConfigNode) -> bool {
    match field(doc, "init"@) {
        None => true,
        Some(n) => simple_method(n),
    }
}

/// `m` is the init method that the init field `init` describes, where that field
/// needs no outside call to decide it.
pub open spec fn init_described(m: InitMethod, init: Option<ConfigNode>) -> bool {
    match init {
        None => m is NoInit,
        Some(n) => {
            let t = text_field(n, "method"@);
            &&& t == Some("no_init"@) ==> m is NoInit
            &&& t == Some("all_zero"@) ==> m is AllZero
            &&& t == Some("random"@) ==> m is Random
            &&& t == Some("hex"@) ==> m is Hex
        },
    }
}

/// Bank paths under one path differ exactly when the bank names do.
pub proof fn lemma_bank_path_injective(p: Seq<char>, s1: Seq<char>, s2: Seq<char>)
    ensures
        (crate::banked::bank_path(p, s1) == crate::banked::bank_path(p, s2)) <==> s1 == s2,
{
    let a = p + "."@;
    assert(crate::banked::bank_path(p, s1) =~= a + s1);
    assert(crate::banked::bank_path(p, s2) =~= a + s2);
    if a + s1 == a + s2 {
        assert(s1 =~= (a + s1).subrange(a.len() as int, (a + s1).len() as int));
        assert(s2 =~= (a + s2).subrange(a.len() as int, (a + s2).len() as int));
    }
}

/// Reads and writes of the region that `doc` describes place every byte: the element
/// width is a power of two and, for a Banked region, so are the bank width and the
/// number of bank columns, the bank width divides the element width, the banks tile
/// the region exactly and no two banks have the same name.
pub open spec fn doc_supported(doc: ConfigNode) -> bool {
    let width = (int_field(doc, "width"@)->Some_0 as usize) / 8;
    let size = int_field(doc, "size"@)->Some_0 as usize;
    if field(doc, "banks"@) is Some && field(doc, "banks"@)->Some_0 is List {
        let grid = field(doc, "banks"@)->Some_0->List_0@;
        let bw = (int_field(doc, "bank_width"@)->Some_0 as usize) / 8;
        let bd = int_field(doc, "bank_depth"@)->Some_0 as usize;
        let rows = (size as nat / width as nat) / bd as nat;
        let cols = width as nat / bw as nat;
        &&& crate::geometry::is_pow2(width as nat)
        &&& crate::geometry::is_pow2(bw as nat)
        &&& crate::geometry::is_pow2(cols)
        &&& width % bw == 0
        &&& size == rows * bd * width
        &&& forall|r1: int, c1: int, r2: int, c2: int|
            0 <= r1 < grid.len() && 0 <= c1 < cols && 0 <= r2 < grid.len() && 0 <= c2 < cols && (r1 != r2 || c1
                != c2) ==> #[trigger] grid[r1]->List_0@[c1]->Text_0@ != #[trigger] grid[r2]->List_0@[c2]->Text_0@
    } else {
        crate::geometry::is_pow2(width as nat)
    }
}

/// Builds regions from their configuration.
pub struct DPIShareMemParser;

impl DPIShareMemParser {
    /// Builds the region `key` from its configuration `doc`: a Black-box region when
    /// `doc` has no `path`, a Banked region when it has `banks`, else a Direct region;
    /// each checked against its geometry.
    pub fn parse(&self, key: &str, doc: &ConfigNode) -> (r: Result<DPIShareMem, ConfigError>)
        ensures
            r matches Err(e) ==> e.region_spec() == key@,
            r matches Ok(m) ==> {
                &&& m.wf()
                &&& m.base_spec() == int_field(*doc, "base"@)->Some_0 as u64
                &&& m.size_spec() == int_field(*doc, "size"@)->Some_0 as usize
                &&& (m is BlackBox <==> text_field(*doc, "path"@) is None)
                &&& (m is Banked <==> (text_field(*doc, "path"@) is Some && field(*doc, "banks"@) matches Some(ConfigNode::List(_))))
                &&& (m matches DPIShareMem::Direct(d) ==> d.name@ == key@ && d.array.path@ == text_field(*doc, "path"@)->Some_0
                    && d.array.width == (int_field(*doc, "width"@)->Some_0 as usize) / 8 && d.array.dim == match dims_field(*doc)->Some_0 {
                    Some(dim) => dim,
                    None => ArrayDim { rows: 1, cols: d.size / d.array.width },
                })
                &&& (m matches DPIShareMem::Banked(b) ==> {
                    let grid = field(*doc, "banks"@)->Some_0->List_0@;
                    let bank_depth = int_field(*doc, "bank_depth"@)->Some_0 as usize;
                    let bdim = match dims_field(*doc)->Some_0 {
                        Some(d) => d,
                        None => ArrayDim { rows: 1, cols: bank_depth },
                    };
                    &&& b.name@ == key@
                    &&& b.shape_ok()
                    &&& b.path@ == text_field(*doc, "path"@)->Some_0
                    &&& b.width == (int_field(*doc, "width"@)->Some_0 as usize) / 8
                    &&& b.bank_width == (int_field(*doc, "bank_width"@)->Some_0 as usize) / 8
                    &&& b.bank_depth == bank_depth
                    &&& b.banks@.len() == grid.len()
                    &&& forall|i: int| 0 <= i < grid.len() ==> (#[trigger] b.banks@[i])@.len() == grid[i]->List_0@.len()
                    &&& forall|i: int, j: int|
                        0 <= i < grid.len() && 0 <= j < grid[i]->List_0@.len() ==> {
                            let a = #[trigger] b.banks@[i]@[j];
                            &&& a.path@ == crate::banked::bank_path(b.path@, grid[i]->List_0@[j]->Text_0@)
                            &&& a.dim == bdim
                            &&& a.width == b.bank_width
                        }
                })
                &&& init_described(m.init_spec(), field(*doc, "init"@))
                &&& !(m is BlackBox) ==> (m.supported() <==> doc_supported(*doc))
                &&& (m matches DPIShareMem::BlackBox(b) ==> b.name@ == key@)
            },
            r matches Err(ConfigError::BanksNotNames { .. }) ==> (field(*doc, "banks"@) matches Some(ConfigNode::List(items))
                && !names_ok(items@)),
            r matches Err(ConfigError::NotInteger { field: Field::Width, .. }) ==> int_field(*doc, "width"@) is None,
            r matches Err(ConfigError::NotInteger { field: Field::BankWidth, .. }) ==> int_field(*doc, "bank_width"@) is None,
            r matches Err(ConfigError::NotInteger { field: Field::BankDepth, .. }) ==> int_field(*doc, "bank_depth"@) is None,
            r matches Err(ConfigError::NotInteger { field: Field::Base, .. }) ==> int_field(*doc, "base"@) is None,
            r matches Err(ConfigError::NotInteger { field: Field::Size, .. }) ==> int_field(*doc, "size"@) is None,
            r matches Err(ConfigError::Zero { field: Field::Width, .. }) ==> (int_field(*doc, "width"@)->Some_0 as usize) / 8 == 0,
            r matches Err(ConfigError::Zero { field: Field::BankWidth, .. }) ==> (int_field(*doc, "bank_width"@)->Some_0 as usize) / 8 == 0,
            r matches Err(ConfigError::Zero { field: Field::BankDepth, .. }) ==> int_field(*doc, "bank_depth"@)->Some_0 as usize == 0,
            r matches Err(ConfigError::OutOfAddressSpace { .. }) ==> (int_field(*doc, "base"@)->Some_0 as u64) + (int_field(*doc, "size"@)->Some_0 as usize) > u64::MAX + 1,
            field(*doc, "array_dims"@) matches Some(d) && int_field(d, "rows"@) is None ==> (r matches Err(
                ConfigError::NotInteger { field: Field::Rows, .. },
            )),
            field(*doc, "array_dims"@) matches Some(d) && int_field(d, "rows"@) is Some && int_field(d, "cols"@) is None ==> (r matches Err(
                ConfigError::NotInteger { field: Field::Cols, .. },
            )),
            dims_field(*doc) is Some && int_field(*doc, "base"@) is None ==> (r matches Err(
                ConfigError::NotInteger { field: Field::Base, .. },
            )),
            dims_field(*doc) is Some && int_field(*doc, "base"@) is Some && int_field(*doc, "size"@) is None ==> (r matches Err(
                ConfigError::NotInteger { field: Field::Size, .. },
            )),
            field(*doc, "init"@) matches Some(n) && dims_field(*doc) is Some && int_field(*doc, "base"@) is Some
                && int_field(*doc, "size"@) is Some && !known_method(n) ==> (r matches Err(ConfigError::UnknownInitMethod { .. })),
            field(*doc, "init"@) matches Some(n) && dims_field(*doc) is Some && int_field(*doc, "base"@) is Some
                && int_field(*doc, "size"@) is Some && text_field(n, "method"@) == Some("hex"@) && text_field(n, "file"@) is None ==> (r matches Err(
                ConfigError::HexFileRequired { .. },
            )),
            ({
                let base = int_field(*doc, "base"@)->Some_0 as u64;
                let size = int_field(*doc, "size"@)->Some_0 as usize;
                &&& dims_field(*doc) is Some
                &&& int_field(*doc, "base"@) is Some
                &&& int_field(*doc, "size"@) is Some
                &&& init_without_file(*doc)
                &&& base + size <= u64::MAX + 1
            }) ==> {
                let size = int_field(*doc, "size"@)->Some_0 as usize;
                let width = (int_field(*doc, "width"@)->Some_0 as usize) / 8;
                let dim = match dims_field(*doc)->Some_0 {
                    Some(dim) => dim,
                    None => ArrayDim { rows: 1, cols: size / width },
                };
                &&& text_field(*doc, "path"@) is None ==> r is Ok
                &&& text_field(*doc, "path"@) is Some && int_field(*doc, "width"@) is None ==> (r matches Err(
                    ConfigError::NotInteger { field: Field::Width, .. },
                ))
                &&& text_field(*doc, "path"@) is Some && int_field(*doc, "width"@) is Some && width == 0 ==> (r matches Err(
                    ConfigError::Zero { field: Field::Width, .. },
                ))
                &&& (text_field(*doc, "path"@) is Some && int_field(*doc, "width"@) is Some && width > 0 && field(*doc, "banks"@)
                    is Some && field(*doc, "banks"@)->Some_0 is List) ==> {
                    let grid = field(*doc, "banks"@)->Some_0->List_0@;
                    let bw = int_field(*doc, "bank_width"@);
                    let bd = int_field(*doc, "bank_depth"@);
                    &&& !names_ok(grid) ==> (r matches Err(ConfigError::BanksNotNames { .. }))
                    &&& names_ok(grid) && bw is None ==> (r matches Err(ConfigError::NotInteger { field: Field::BankWidth, .. }))
                    &&& names_ok(grid) && bw is Some && bd is None ==> (r matches Err(
                        ConfigError::NotInteger { field: Field::BankDepth, .. },
                    ))
                    &&& names_ok(grid) && bw is Some && bd is Some && (bw->Some_0 as usize) / 8 == 0 ==> (r matches Err(
                        ConfigError::Zero { field: Field::BankWidth, .. },
                    ))
                    &&& names_ok(grid) && bw is Some && bd is Some && (bw->Some_0 as usize) / 8 > 0 && bd->Some_0 as usize == 0
                        ==> (r matches Err(ConfigError::Zero { field: Field::BankDepth, .. }))
                    &&& names_ok(grid) && bw is Some && bd is Some && (bw->Some_0 as usize) / 8 > 0 && bd->Some_0 as usize > 0
                        && grid.len() != (size as nat / width as nat) / (bd->Some_0 as usize as nat) ==> (r matches Err(
                        ConfigError::BankRowsMismatch { rows, expected, .. },
                    ) && rows == grid.len() && expected == (size as nat / width as nat) / (bd->Some_0 as usize as nat))
                }
                &&& (text_field(*doc, "path"@) is Some && int_field(*doc, "width"@) is Some && width > 0 && !(field(
                    *doc,
                    "banks"@,
                ) matches Some(ConfigNode::List(_)))) ==> (r is Ok <==> (size == dim.rows as nat * dim.cols as nat
                    * width && dim.rows > 0 && dim.cols > 0))
                &&& (text_field(*doc, "path"@) is Some && int_field(*doc, "width"@) is Some && width > 0 && field(
                    *doc,
                    "banks"@,
                ) is Some && field(*doc, "banks"@)->Some_0 is List && names_ok(field(*doc, "banks"@)->Some_0->List_0@)
                    && int_field(*doc, "bank_width"@) is Some
                    && int_field(*doc, "bank_depth"@) is Some && (int_field(*doc, "bank_width"@)->Some_0 as usize) / 8 > 0
                    && int_field(*doc, "bank_depth"@)->Some_0 as usize > 0) ==> {
                    let bank_width = (int_field(*doc, "bank_width"@)->Some_0 as usize) / 8;
                    let bank_depth = int_field(*doc, "bank_depth"@)->Some_0 as usize;
                    let bdim = match dims_field(*doc)->Some_0 {
                        Some(d) => d,
                        None => ArrayDim { rows: 1, cols: bank_depth },
                    };
                    let rows = (size as nat / width as nat) / bank_depth as nat;
                    let cols = width as nat / bank_width as nat;
                    let grid = field(*doc, "banks"@)->Some_0->List_0@;
                    r is Ok <==> (grid.len() == rows && (forall|i: int| 0 <= i < grid.len() ==> (#[trigger] grid[i])->List_0@.len() == cols)
                        && grid.len() >= 1 && grid[0]->List_0@.len() >= 1 && bdim.rows as nat * bdim.cols as nat == bank_depth)
                }
                &&& (text_field(*doc, "path"@) is Some && int_field(*doc, "width"@) is Some && width > 0 && !(field(
                    *doc,
                    "banks"@,
                ) matches Some(ConfigNode::List(_))) && size != dim.rows as nat * dim.cols as nat * width) ==> (r matches Err(
                    ConfigError::SizeMismatch { size: s, rows, cols, width: w, .. },
                ) && s == size && rows == dim.rows && cols == dim.cols && w == width)
            },
    {
        let dims = match doc.get("array_dims") {
            None => None,
            Some(d) => {
                let rows = match int_of(d, "rows") {
                    Some(v) => v,
                    None => {
                        return Err(ConfigError::NotInteger { region: String::from_str(key), field: Field::Rows });
                    },
                };
                let cols = match int_of(d, "cols") {
                    Some(v) => v,
                    None => {
                        return Err(ConfigError::NotInteger { region: String::from_str(key), field: Field::Cols });
                    },
                };
                Some(ArrayDim { rows: rows as usize, cols: cols as usize })
            },
        };
        let base = match int_of(doc, "base") {
            Some(v) => v as u64,
            None => {
                return Err(ConfigError::NotInteger { region: String::from_str(key), field: Field::Base });
            },
        };
        let size = match int_of(doc, "size") {
            Some(v) => v as usize,
            None => {
                return Err(ConfigError::NotInteger { region: String::from_str(key), field: Field::Size });
            },
        };
        let init_method = InitMethod::try_from(key, doc.get("init"))?;
        if size as u64 > u64::MAX - base && size > 0 && (size - 1) as u64 > u64::MAX - base {
            return Err(ConfigError::OutOfAddressSpace { region: String::from_str(key) });
        }
        match text_of(doc, "path") {
            None => {
                let mut mem = DPIShareMem::BlackBox(DPIBlackBoxShareMem::new(String::from_str(key), base, size));
                mem.init(init_method);
                Ok(mem)
            },
            Some(path) => {
                let width = match int_of(doc, "width") {
                    Some(v) => v as usize,
                    None => {
                        return Err(ConfigError::NotInteger { region: String::from_str(key), field: Field::Width });
                    },
                };
                if width / 8 == 0 {
                    return Err(ConfigError::Zero { region: String::from_str(key), field: Field::Width });
                }
                match doc.get("banks") {
                    Some(ConfigNode::List(items)) => {
                        let banks = parse_banks(key, items)?;
                        let bank_width = match int_of(doc, "bank_width") {
                            Some(v) => v as usize,
                            None => {
                                return Err(ConfigError::NotInteger { region: String::from_str(key), field: Field::BankWidth });
                            },
                        };
                        let bank_depth = match int_of(doc, "bank_depth") {
                            Some(v) => v as usize,
                            None => {
                                return Err(ConfigError::NotInteger { region: String::from_str(key), field: Field::BankDepth });
                            },
                        };
                        if bank_width / 8 == 0 {
                            return Err(ConfigError::Zero { region: String::from_str(key), field: Field::BankWidth });
                        }
                        if bank_depth == 0 {
                            return Err(ConfigError::Zero { region: String::from_str(key), field: Field::BankDepth });
                        }
                        let dim = match dims {
                            Some(d) => d,
                            None => ArrayDim { rows: 1, cols: bank_depth },
                        };
                        let mem = DPIBankedShareMem::new(
                            String::from_str(key),
                            path.clone(),
                            width,
                            base,
                            size,
                            bank_width,
                            bank_depth,
                            banks,
                            dims,
                        );
                        let checked = mem.check(dim);
                        proof {
                            let cols = mem.cols_spec();
                            assert forall|i: int| 0 <= i < items@.len() implies (#[trigger] mem.banks@[i])@.len()
                                == items@[i]->List_0@.len() by {}
                            if forall|i: int| 0 <= i < items@.len() ==> (#[trigger] items@[i])->List_0@.len() == cols {
                                assert forall|i: int| 0 <= i < mem.banks@.len() implies (#[trigger] mem.banks@[i])@.len()
                                    == cols by {
                                    assert(items@[i]->List_0@.len() == cols);
                                }
                            }
                            if forall|i: int| 0 <= i < mem.banks@.len() ==> (#[trigger] mem.banks@[i])@.len() == cols {
                                assert forall|i: int| 0 <= i < items@.len() implies (#[trigger] items@[i])->List_0@.len()
                                    == cols by {
                                    assert(mem.banks@[i]@.len() == cols);
                                }
                            }
                            if mem.banks@.len() >= 1 && mem.banks@[0]@.len() >= 1 {
                                assert(mem.banks@[0]@[0].dim == dim);
                            }
                        }
                        checked?;
                        proof {
                            let grid = items@;
                            let cols = mem.cols_spec();
                            let distinct_banks = forall|r1: int, c1: int, r2: int, c2: int|
                                0 <= r1 < mem.banks@.len() && 0 <= c1 < cols && 0 <= r2 < mem.banks@.len() && 0 <= c2 < cols
                                    && (r1 != r2 || c1 != c2) ==> #[trigger] mem.banks@[r1]@[c1].path@
                                    != #[trigger] mem.banks@[r2]@[c2].path@;
                            let distinct_names = forall|r1: int, c1: int, r2: int, c2: int|
                                0 <= r1 < grid.len() && 0 <= c1 < cols && 0 <= r2 < grid.len() && 0 <= c2 < cols && (r1 != r2
                                    || c1 != c2) ==> #[trigger] grid[r1]->List_0@[c1]->Text_0@ != #[trigger] grid[r2]->List_0@[c2]->Text_0@;
                            if distinct_names {
                                assert forall|r1: int, c1: int, r2: int, c2: int|
                                    0 <= r1 < mem.banks@.len() && 0 <= c1 < cols && 0 <= r2 < mem.banks@.len() && 0 <= c2 < cols
                                        && (r1 != r2 || c1 != c2) implies #[trigger] mem.banks@[r1]@[c1].path@
                                        != #[trigger] mem.banks@[r2]@[c2].path@ by {
                                    assert(grid[r1]->List_0@[c1]->Text_0@ != grid[r2]->List_0@[c2]->Text_0@);
                                    lemma_bank_path_injective(path@, grid[r1]->List_0@[c1]->Text_0@, grid[r2]->List_0@[c2]->Text_0@);
                                }
                            }
                            if distinct_banks {
                                assert forall|r1: int, c1: int, r2: int, c2: int|
                                    0 <= r1 < grid.len() && 0 <= c1 < cols && 0 <= r2 < grid.len() && 0 <= c2 < cols && (r1 != r2
                                        || c1 != c2) implies #[trigger] grid[r1]->List_0@[c1]->Text_0@
                                        != #[trigger] grid[r2]->List_0@[c2]->Text_0@ by {
                                    assert(mem.banks@[r1]@[c1].path@ != mem.banks@[r2]@[c2].path@);
                                }
                            }
                        }
                        let mut mem = DPIShareMem::Banked(mem);
                        mem.init(init_method);
                        Ok(mem)
                    },
                    _ => {
                        let mem = DPIDirectShareMem::new(String::from_str(key), path.clone(), width, base, size, dims);
                        mem.check()?;
                        if mem.array.dim.rows == 0 {
                            return Err(ConfigError::Zero { region: String::from_str(key), field: Field::Rows });
                        }
                        if mem.array.dim.cols == 0 {
                            return Err(ConfigError::Zero { region: String::from_str(key), field: Field::Cols });
                        }
                        let mut mem = DPIShareMem::Direct(mem);
                        mem.init(init_method);
                        Ok(mem)
                    },
                }
            },
        }
    }
}

} // verus!
