use contextmesh::cache::Cache;
use contextmesh::codec;
use contextmesh::dependency_resolver::DependencyResolver;
use contextmesh::errors::ContextMeshError;
use contextmesh::file_hashes::FileHashManager;
use contextmesh::indexer::Indexer;
use contextmesh::language_config::{language_kinds_map, LanguageConfig, SymbolType};
use contextmesh::strutil::last_segment;

fn small_index() -> Indexer {
    let mut idx = Indexer::new();
    let a: Vec<u8> = b"fn alpha() {}\nfn beta() { alpha(); }\n".to_vec();
    idx.index_file(&"a.rs".to_string(), &a).unwrap();
    let b: Vec<u8> = b"fn caller() { missing(); }\n".to_vec();
    idx.index_file(&"b.rs".to_string(), &b).unwrap();
    idx
}

#[test]
fn snapshot_round_trip_reproduces_the_index() {
    let idx = small_index();
    let bytes = codec::encode_index(&idx);
    let back = codec::decode_index(&bytes).expect("snapshot loads");
    assert_eq!(back.file_hashes.file_hashes, idx.file_hashes.file_hashes);
    assert_eq!(
        back.symbol_store.symbols.len(),
        idx.symbol_store.symbols.len()
    );
    for (i, (h, s)) in idx.symbol_store.symbols.iter().enumerate() {
        let (h2, s2) = &back.symbol_store.symbols[i];
        assert_eq!(h, h2);
        assert_eq!(s.name, s2.name);
        assert_eq!(s.node_kind, s2.node_kind);
        assert_eq!(s.file_path, s2.file_path);
        assert_eq!(s.line_number, s2.line_number);
        assert_eq!(s.start_byte, s2.start_byte);
        assert_eq!(s.end_byte, s2.end_byte);
        assert_eq!(s.dependencies, s2.dependencies);
        assert_eq!(s.used_by, s2.used_by);
    }
    assert_eq!(
        back.dependency_resolver.unresolved_deps,
        idx.dependency_resolver.unresolved_deps
    );
    // Saving the reloaded index yields the identical snapshot.
    let bytes2 = codec::encode_index(&back);
    assert_eq!(bytes, bytes2);
}

#[test]
fn snapshot_rejects_damaged_bytes() {
    let idx = small_index();
    let mut bytes = codec::encode_index(&idx);
    assert!(codec::decode_index(&bytes).is_ok());
    // Truncated input.
    let truncated: Vec<u8> = bytes[..bytes.len() - 3].to_vec();
    assert!(matches!(
        codec::decode_index(&truncated),
        Err(ContextMeshError::DeserializationError(_))
    ));
    // A damaged identity no longer matches its symbol's hash.
    let n = bytes.len();
    bytes[n - 1] = bytes[n - 1].wrapping_add(1);
    assert!(codec::decode_index(&bytes).is_err());
    // Garbage is rejected outright.
    let garbage: Vec<u8> = vec![9, 9, 9];
    assert!(codec::decode_index(&garbage).is_err());
}

#[test]
fn empty_index_round_trips() {
    let idx = Indexer::new();
    let bytes = codec::encode_index(&idx);
    // Three empty tables: three zero counts.
    assert_eq!(bytes.len(), 24);
    assert_eq!(bytes, vec![0u8; 24]);
    let back = codec::decode_index(&bytes).unwrap();
    assert!(back.file_hashes.file_hashes.is_empty());
    assert!(back.symbol_store.symbols.is_empty());
    assert!(back.dependency_resolver.unresolved_deps.is_empty());
}

#[test]
fn unsupported_language_is_rejected() {
    let r = contextmesh::language_config::supported_extensions(&"python".to_string());
    assert!(matches!(r, Err(ContextMeshError::UnsupportedLanguage(_))));
    let ok = contextmesh::language_config::supported_extensions(&"rust".to_string()).unwrap();
    assert_eq!(ok, vec!["rs".to_string()]);
}

#[test]
fn language_tables_list_the_rust_kinds() {
    let kinds = language_kinds_map();
    assert_eq!(kinds.len(), 1);
    assert_eq!(kinds[0].0, "rust");
    assert!(kinds[0].1.contains(&"function_item".to_string()));
    assert!(kinds[0].1.contains(&"struct_item".to_string()));
    assert!(kinds[0].1.contains(&"const_item".to_string()));
    assert_eq!(kinds[0].1.len(), 9);
    let cfg = LanguageConfig::rust_config();
    assert_eq!(cfg.kind_to_symbol.len(), 7);
    assert_eq!(
        cfg.kind_to_symbol[0],
        ("function_item".to_string(), SymbolType::Function)
    );
}

#[test]
fn cache_tracks_fingerprints_and_offsets() {
    let mut cache = Cache::new();
    assert!(cache.has_changed(&"a.rs".to_string(), &"h1".to_string()));
    cache.update("a.rs".to_string(), "h1".to_string(), vec![(0, 10)]);
    assert!(!cache.has_changed(&"a.rs".to_string(), &"h1".to_string()));
    assert!(cache.has_changed(&"a.rs".to_string(), &"h2".to_string()));
    cache.update("a.rs".to_string(), "h2".to_string(), vec![(3, 7)]);
    assert!(!cache.has_changed(&"a.rs".to_string(), &"h2".to_string()));
    assert_eq!(cache.file_hashes.len(), 1);
    assert_eq!(cache.symbol_offsets[0].1, vec![(3usize, 7usize)]);
}

#[test]
fn file_hash_manager_upserts_in_place() {
    let mut m = FileHashManager::new();
    assert_eq!(m.len(), 0);
    assert!(m.has_changed(&"a".to_string(), &"1".to_string()));
    m.insert(&"a".to_string(), &"1".to_string());
    m.insert(&"b".to_string(), &"2".to_string());
    assert!(!m.has_changed(&"a".to_string(), &"1".to_string()));
    assert!(m.has_changed(&"a".to_string(), &"9".to_string()));
    m.insert(&"a".to_string(), &"9".to_string());
    assert_eq!(m.len(), 2);
    assert_eq!(m.keys(), vec!["a".to_string(), "b".to_string()]);
}

#[test]
fn dependency_resolver_appends_and_drains() {
    let mut d = DependencyResolver::new();
    d.add("c1".to_string(), "n1".to_string());
    d.add("c1".to_string(), "n2".to_string());
    d.add("c2".to_string(), "n1".to_string());
    assert_eq!(d.len(), 2);
    let drained = d.collect_drained();
    assert_eq!(d.len(), 0);
    assert_eq!(
        drained,
        vec![
            ("c1".to_string(), vec!["n1".to_string(), "n2".to_string()]),
            ("c2".to_string(), vec!["n1".to_string()]),
        ]
    );
    d.replace_unresolved(drained);
    assert_eq!(d.len(), 2);
}

#[test]
fn last_segment_takes_the_tail_of_a_path() {
    assert_eq!(last_segment(&"a::b::c".to_string()), "c");
    assert_eq!(last_segment(&"plain".to_string()), "plain");
    assert_eq!(last_segment(&"ends::".to_string()), "");
    assert_eq!(last_segment(&"".to_string()), "");
    assert_eq!(last_segment(&"crate::a::original".to_string()), "original");
}

#[test]
fn symbol_store_remove_sweeps_user_lists() {
    let mut idx = Indexer::new();
    let a: Vec<u8> = b"fn alpha() {}\nfn beta() { alpha(); }\n".to_vec();
    idx.index_file(&"a.rs".to_string(), &a).unwrap();
    let beta_id = idx
        .get_symbols()
        .iter()
        .find(|(_, s)| s.name == "beta")
        .unwrap()
        .0
        .clone();
    let removed = idx.symbol_store.remove_symbol(&beta_id);
    assert!(removed.is_some());
    assert_eq!(removed.unwrap().name, "beta");
    for (_, s) in idx.symbol_store.get_symbols() {
        assert!(!s.used_by.contains(&beta_id));
    }
    assert!(idx.symbol_store.remove_symbol(&beta_id).is_none());
}

#[test]
fn content_fingerprint_is_the_hex_sha256() {
    // The digest of the empty input is a fixed, well-known value.
    let fp = contextmesh::digest::content_fingerprint(&[]);
    assert_eq!(
        fp,
        "e3b0c44298fc1c149afbf4c8996fb92427ae41e4649b934ca495991b7852b855"
    );
    let fp2 = contextmesh::digest::content_fingerprint(b"abc");
    assert_eq!(
        fp2,
        "ba7816bf8f01cfea414140de5dae2223b00361a396177a9cb410ff61f20015ad"
    );
}

#[test]
fn symbol_identity_depends_on_the_six_fields() {
    let mut idx = Indexer::new();
    let a: Vec<u8> = b"fn alpha() {}\n".to_vec();
    idx.index_file(&"a.rs".to_string(), &a).unwrap();
    let (id, sym) = &idx.get_symbols()[0];
    assert_eq!(id, &sym.hash());
    assert_eq!(sym.name, "alpha");
    assert_eq!(sym.node_kind, "function_item");
    assert_eq!(sym.file_path, "a.rs");
    assert_eq!(sym.line_number, 1);
}
