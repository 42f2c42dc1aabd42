use contextmesh::indexer::Indexer;
use contextmesh::symbol::Symbol;

fn index_str(idx: &mut Indexer, path: &str, source: &str) {
    let bytes: Vec<u8> = source.as_bytes().to_vec();
    idx.index_file(&path.to_string(), &bytes).expect("indexing should succeed");
}

fn find_symbol<'a>(idx: &'a Indexer, name: &str) -> Option<(&'a String, &'a Symbol)> {
    for (h, s) in idx.get_symbols() {
        if s.name == name {
            return Some((h, s));
        }
    }
    None
}

fn all_symbols_named<'a>(idx: &'a Indexer, name: &str) -> Vec<(&'a String, &'a Symbol)> {
    let mut out = Vec::new();
    for (h, s) in idx.get_symbols() {
        if s.name == name {
            out.push((h, s));
        }
    }
    out
}

fn unresolved_of<'a>(idx: &'a Indexer, caller: &str) -> Option<&'a Vec<String>> {
    for (c, names) in &idx.dependency_resolver.unresolved_deps {
        if c == caller {
            return Some(names);
        }
    }
    None
}

#[test]
fn s1_fresh_single_file() {
    let mut idx = Indexer::new();
    index_str(&mut idx, "a.rs", "fn alpha() {}\nfn beta() { alpha(); }\n");
    assert_eq!(idx.get_symbols().len(), 2);
    let (alpha_id, alpha) = find_symbol(&idx, "alpha").expect("alpha indexed");
    let (beta_id, beta) = find_symbol(&idx, "beta").expect("beta indexed");
    assert_eq!(beta.dependencies, vec![alpha_id.clone()]);
    assert_eq!(alpha.used_by, vec![beta_id.clone()]);
    assert!(beta.used_by.is_empty());
    assert!(alpha.dependencies.is_empty());
    assert!(idx.dependency_resolver.unresolved_deps.is_empty());
}

#[test]
fn s2_cross_file_forward_reference() {
    let mut idx = Indexer::new();
    index_str(&mut idx, "b.rs", "fn caller() { callee(); }\n");
    let caller_id = find_symbol(&idx, "caller").expect("caller indexed").0.clone();
    assert_eq!(
        unresolved_of(&idx, &caller_id),
        Some(&vec!["callee".to_string()])
    );
    index_str(&mut idx, "a.rs", "fn callee() {}\n");
    idx.recheck_unresolved();
    let callee_id = find_symbol(&idx, "callee").expect("callee indexed").0.clone();
    let caller = find_symbol(&idx, "caller").unwrap().1;
    let callee = find_symbol(&idx, "callee").unwrap().1;
    assert_eq!(caller.dependencies, vec![callee_id]);
    assert_eq!(callee.used_by, vec![caller_id]);
    assert!(idx.dependency_resolver.unresolved_deps.is_empty());
}

#[test]
fn s3_unchanged_file_skipped() {
    let mut idx = Indexer::new();
    let source = "fn alpha() {}\nfn beta() { alpha(); }\n";
    index_str(&mut idx, "a.rs", source);
    let snapshot_before = contextmesh::codec::encode_index(&idx);
    index_str(&mut idx, "a.rs", source);
    let snapshot_after = contextmesh::codec::encode_index(&idx);
    assert_eq!(snapshot_before, snapshot_after);
    assert_eq!(idx.get_symbols().len(), 2);
}

#[test]
fn s4_rename_cascades_through_graph() {
    let mut idx = Indexer::new();
    index_str(&mut idx, "a.rs", "fn x() {}\n");
    index_str(&mut idx, "b.rs", "fn y() { x(); }\n");
    let old_x_id = find_symbol(&idx, "x").unwrap().0.clone();
    let y_id = find_symbol(&idx, "y").unwrap().0.clone();
    assert_eq!(find_symbol(&idx, "y").unwrap().1.dependencies, vec![old_x_id.clone()]);
    // The definition moves from `x` to `z`.
    index_str(&mut idx, "a.rs", "fn z() {}\n");
    assert!(find_symbol(&idx, "x").is_none());
    let y = find_symbol(&idx, "y").unwrap().1;
    assert!(!y.dependencies.contains(&old_x_id));
    assert!(y.dependencies.is_empty());
    assert_eq!(unresolved_of(&idx, &y_id), Some(&vec!["x".to_string()]));
    let z = find_symbol(&idx, "z").unwrap().1;
    assert!(z.used_by.is_empty());
    // Re-indexing b.rs with unchanged bytes is a no-op, and the recheck
    // keeps the entry: no symbol named `x` exists, so it stays queued for a
    // possible later definition.
    index_str(&mut idx, "b.rs", "fn y() { x(); }\n");
    idx.recheck_unresolved();
    let y = find_symbol(&idx, "y").unwrap().1;
    assert!(y.dependencies.is_empty());
    assert_eq!(unresolved_of(&idx, &y_id), Some(&vec!["x".to_string()]));
}

#[test]
fn s5_use_alias_resolution() {
    let mut idx = Indexer::new();
    index_str(&mut idx, "a.rs", "pub fn original() {}\n");
    index_str(
        &mut idx,
        "b.rs",
        "use crate::a::original as aliased;\nfn caller() { aliased(); }\n",
    );
    let original_id = find_symbol(&idx, "original").unwrap().0.clone();
    let caller = find_symbol(&idx, "caller").unwrap().1;
    assert_eq!(caller.dependencies, vec![original_id]);
    assert!(idx.dependency_resolver.unresolved_deps.is_empty());
}

#[test]
fn s5_plain_use_resolves_by_last_segment() {
    let mut idx = Indexer::new();
    index_str(&mut idx, "a.rs", "pub fn original() {}\n");
    index_str(
        &mut idx,
        "b.rs",
        "use crate::a::original;\nfn caller() { original(); }\n",
    );
    let original_id = find_symbol(&idx, "original").unwrap().0.clone();
    let caller = find_symbol(&idx, "caller").unwrap().1;
    assert_eq!(caller.dependencies, vec![original_id]);
}

#[test]
fn s6_overloaded_names_resolve_to_all_candidates() {
    let mut idx = Indexer::new();
    index_str(&mut idx, "m1.rs", "fn helper() {}\n");
    index_str(&mut idx, "m2.rs", "fn helper() {}\n");
    index_str(&mut idx, "main_file.rs", "fn driver() { helper(); }\n");
    let helpers = all_symbols_named(&idx, "helper");
    assert_eq!(helpers.len(), 2);
    let driver_id = find_symbol(&idx, "driver").unwrap().0.clone();
    let driver = find_symbol(&idx, "driver").unwrap().1;
    for (h, s) in &helpers {
        assert!(driver.dependencies.contains(*h));
        assert_eq!(s.used_by, vec![driver_id.clone()]);
    }
    assert_eq!(driver.dependencies.len(), 2);
}

#[test]
fn local_definitions_take_precedence_over_other_files() {
    let mut idx = Indexer::new();
    index_str(&mut idx, "m1.rs", "fn helper() {}\n");
    index_str(&mut idx, "m2.rs", "fn helper() {}\nfn driver() { helper(); }\n");
    let driver = find_symbol(&idx, "driver").unwrap().1;
    // The same-file helper wins; the other file's helper is not linked.
    assert_eq!(driver.dependencies.len(), 1);
    let local_helper = idx
        .get_symbols()
        .iter()
        .find(|(_, s)| s.name == "helper" && s.file_path == "m2.rs")
        .unwrap();
    assert_eq!(driver.dependencies[0], local_helper.0);
}

#[test]
fn no_self_edges_for_recursive_functions() {
    let mut idx = Indexer::new();
    index_str(&mut idx, "a.rs", "fn looper() { looper(); }\n");
    let (id, looper) = find_symbol(&idx, "looper").unwrap();
    assert!(!looper.dependencies.contains(id));
    assert!(!looper.used_by.contains(id));
    // The name resolved to the symbol itself only, so nothing is queued.
    assert!(idx.dependency_resolver.unresolved_deps.is_empty());
}

#[test]
fn eviction_removes_stale_edges_everywhere() {
    let mut idx = Indexer::new();
    index_str(&mut idx, "a.rs", "fn gone() {}\n");
    index_str(&mut idx, "b.rs", "fn user() { gone(); }\n");
    let gone_id = find_symbol(&idx, "gone").unwrap().0.clone();
    index_str(&mut idx, "a.rs", "fn other() {}\n");
    for (h, s) in idx.get_symbols() {
        assert_ne!(h, &gone_id);
        assert!(!s.dependencies.contains(&gone_id));
        assert!(!s.used_by.contains(&gone_id));
    }
}

#[test]
fn invalid_utf8_is_skipped_and_state_unchanged() {
    let mut idx = Indexer::new();
    index_str(&mut idx, "a.rs", "fn alpha() {}\n");
    let before = contextmesh::codec::encode_index(&idx);
    let bad: Vec<u8> = vec![0x66, 0x6e, 0x20, 0xff, 0xfe];
    let r = idx.index_file(&"bad.rs".to_string(), &bad);
    assert!(r.is_err());
    let after = contextmesh::codec::encode_index(&idx);
    assert_eq!(before, after);
}

#[test]
fn fingerprint_matches_content_after_indexing() {
    let mut idx = Indexer::new();
    let source = "fn alpha() {}\n";
    index_str(&mut idx, "a.rs", source);
    let expected = contextmesh::digest::content_fingerprint(source.as_bytes());
    let stored = idx
        .file_hashes
        .file_hashes
        .iter()
        .find(|(p, _)| p == "a.rs")
        .map(|(_, fp)| fp.clone());
    assert_eq!(stored, Some(expected));
}

#[test]
fn lookup_references_finds_callers() {
    let mut idx = Indexer::new();
    index_str(&mut idx, "a.rs", "fn target() {}\nfn one() { target(); }\nfn two() { target(); }\n");
    let refs = idx.lookup_references(&"target".to_string());
    let one_id = find_symbol(&idx, "one").unwrap().0.clone();
    let two_id = find_symbol(&idx, "two").unwrap().0.clone();
    assert_eq!(refs.len(), 2);
    assert!(refs.contains(&one_id));
    assert!(refs.contains(&two_id));
    let none = idx.lookup_references(&"absent".to_string());
    assert!(none.is_empty());
}

#[test]
fn name_map_is_consistent_with_symbols() {
    let mut idx = Indexer::new();
    index_str(&mut idx, "m1.rs", "fn helper() {}\nfn solo() {}\n");
    index_str(&mut idx, "m2.rs", "fn helper() {}\n");
    let name_map = idx.symbol_store.build_name_map();
    for (name, ids) in &name_map {
        for id in ids {
            let sym = idx.get_symbols().iter().find(|(h, _)| h == id).expect("bound id stored");
            assert_eq!(&sym.1.name, name);
        }
    }
    for (h, s) in idx.get_symbols() {
        let entry = name_map.iter().find(|(n, _)| n == &s.name).expect("name present");
        assert!(entry.1.contains(h));
    }
    let helpers = name_map.iter().find(|(n, _)| n == "helper").unwrap();
    assert_eq!(helpers.1.len(), 2);
}

#[test]
fn methods_and_fields_become_symbols() {
    let mut idx = Indexer::new();
    index_str(
        &mut idx,
        "lib_file.rs",
        "struct Point { x: u32 }\nimpl Point {\n    fn norm(&self) -> u32 { helper(self.x) }\n}\nfn helper(v: u32) -> u32 { v }\n",
    );
    let names: Vec<&str> = idx.get_symbols().iter().map(|(_, s)| s.name.as_str()).collect();
    assert!(names.contains(&"Point"));
    assert!(names.contains(&"x"));
    assert!(names.contains(&"norm"));
    assert!(names.contains(&"helper"));
    let helper_id = find_symbol(&idx, "helper").unwrap().0.clone();
    let norm = find_symbol(&idx, "norm").unwrap().1;
    assert_eq!(norm.dependencies, vec![helper_id]);
}

#[test]
fn second_line_symbols_carry_their_line_number() {
    let mut idx = Indexer::new();
    index_str(&mut idx, "a.rs", "fn alpha() {}\nfn beta() { alpha(); }\n");
    let beta = find_symbol(&idx, "beta").unwrap().1;
    assert_eq!(beta.line_number, 2);
    assert_eq!(beta.node_kind, "function_item");
    assert_eq!(beta.file_path, "a.rs");
}
