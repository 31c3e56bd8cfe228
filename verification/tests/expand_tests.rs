use komodo::expand::{ExpandError, FileExpand, FileTable};

#[test]
fn should_parse_use_simple() {
    let line = "usecrate::library::structures::sparse_table::SparseTable;";
    let (paths, imports) = komodo::expand::parse_use(line, true).unwrap();
    assert_eq!(paths.len(), 1);
    assert_eq!(paths[0], "src/library/structures/sparse_table.rs");

    assert_eq!(imports.len(), 1);
    assert_eq!(imports[0], "use sparse_table::SparseTable;");
}

#[test]
fn should_parse_use_small() {
    let line = "usecrate::library::test;";
    let (paths, imports) = komodo::expand::parse_use(line, true).unwrap();
    assert_eq!(paths.len(), 1);
    assert_eq!(paths[0], "src/library.rs");

    assert_eq!(imports.len(), 1);
    assert_eq!(imports[0], "use library::test;");
}

#[test]
fn trailing_comma() {
    let line = "usecrate::library::{geometry::{convex_hull::convex_hull,point::Point},io::create_io,};";
    let (paths, _) = komodo::expand::parse_use(line, true).unwrap();
    assert_eq!(paths.len(), 3);
    assert_eq!(paths[0], "src/library/geometry/convex_hull.rs");
    assert_eq!(paths[1], "src/library/geometry/point.rs");
    assert_eq!(paths[2], "src/library/io.rs");
}

#[test]
fn nested_groups_parse_to_leaves() {
    let line = "usecrate::a::{b::C,d::E};";
    let (paths, imports) = komodo::expand::parse_use(line, false).unwrap();
    assert_eq!(paths, vec!["src/a/b.rs", "src/a/d.rs"]);
    assert_eq!(imports, vec!["use super::b::C;", "use super::d::E;"]);
}

#[test]
fn trailing_comma_same_leaves_as_without() {
    let with = komodo::expand::parse_use("usecrate::a::{b::C,d::E,};", true).unwrap();
    let without = komodo::expand::parse_use("usecrate::a::{b::C,d::E};", true).unwrap();
    assert_eq!(with, without);
}

#[test]
fn unterminated_group_is_structural_error() {
    let r = komodo::expand::parse_use("usecrate::a::{b,c", true);
    assert_eq!(r, Err(ExpandError::StructuralParse));
}

#[test]
fn same_containing_module_twice_in_raw_list() {
    let line = "usecrate::io::read;";
    let line2 = "usecrate::io::write;";
    let (p1, _) = komodo::expand::parse_use(line, true).unwrap();
    let (p2, _) = komodo::expand::parse_use(line2, true).unwrap();
    assert_eq!(p1, p2);
}

fn table(entries: &[(&str, &str)]) -> FileTable {
    let mut t = FileTable::new();
    for (k, v) in entries {
        assert!(t.insert(k, v));
    }
    t
}

#[test]
fn chain_is_emitted_in_discovery_order() {
    // entrypoint imports a; a imports b; mod declarations are dropped
    let t = table(&[
        ("src/main.rs", "use crate::a::f;\nmod a;\nfn main() {}\n"),
        ("src/a.rs", "use crate::b::g;\npub mod b;\npub fn f() {}\n"),
        ("src/b.rs", "pub fn g() {}\n"),
    ]);
    let out = FileExpand::expand_file(&t, "src/main.rs").unwrap();
    assert_eq!(
        out,
        "use a::f;fn main() {}\n\nmod a {\n    use super::b::g;pub fn f() {}\n}\nmod b {\n    pub fn g() {}\n}\n"
    );
    let a_pos = out.find("mod a {").unwrap();
    let b_pos = out.find("mod b {").unwrap();
    assert!(a_pos < b_pos);
}

#[test]
fn module_expanded_once_when_imported_twice() {
    let t = table(&[
        ("src/main.rs", "use crate::a::f;\nuse crate::b::g;\nfn main() {}\n"),
        ("src/a.rs", "use crate::c::h;\npub fn f() {}\n"),
        ("src/b.rs", "use crate::c::h;\npub fn g() {}\n"),
        ("src/c.rs", "pub fn h() {}\n"),
    ]);
    let out = FileExpand::expand_file(&t, "src/main.rs").unwrap();
    assert_eq!(out.matches("mod c {").count(), 1);
}

#[test]
fn directory_index_fallback_resolves() {
    let t = table(&[
        ("src/main.rs", "use crate::a::f;\nfn main() {}\n"),
        ("src/a/mod.rs", "pub fn f() {}\n"),
    ]);
    let out = FileExpand::expand_file(&t, "src/main.rs").unwrap();
    assert!(out.contains("mod a {"));
}

#[test]
fn missing_module_is_resolution_error() {
    let t = table(&[("src/main.rs", "use crate::a::f;\nfn main() {}\n")]);
    let r = FileExpand::expand_file(&t, "src/main.rs");
    assert_eq!(r, Err(ExpandError::ModuleResolution));
}

#[test]
fn unterminated_group_aborts_bundling() {
    let t = table(&[("src/main.rs", "use crate::a::{b,c\n")]);
    let r = FileExpand::expand_file(&t, "src/main.rs");
    assert_eq!(r, Err(ExpandError::StructuralParse));
}

#[test]
fn non_root_import_passes_through() {
    let t = table(&[("src/main.rs", "use std::io::Read;\nfn main() {}\n")]);
    let out = FileExpand::expand_file(&t, "src/main.rs").unwrap();
    assert!(out.contains("use std::io::Read;"));
}

#[test]
fn nested_groups_with_shared_prefix() {
    let line = "usecrate::library::{structures::{sparse_table::SparseTable,segment_tree::SegmentTree},io::{read,write}};";
    let (paths, imports) = komodo::expand::parse_use(line, false).unwrap();
    assert_eq!(paths.len(), 3);
    assert_eq!(paths[0], "src/library/structures/sparse_table.rs");
    assert_eq!(paths[1], "src/library/structures/segment_tree.rs");
    assert_eq!(paths[2], "src/library/io.rs");

    assert_eq!(imports.len(), 4);
    assert_eq!(imports[0], "use super::sparse_table::SparseTable;");
    assert_eq!(imports[1], "use super::segment_tree::SegmentTree;");
    assert_eq!(imports[2], "use super::io::read;");
    assert_eq!(imports[3], "use super::io::write;");
}
