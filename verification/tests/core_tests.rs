use std::collections::HashSet;

use loom_topo::edge::{DependencyEdge, EdgeKind};
use loom_topo::error::LoomError;
use loom_topo::id::SymbolId;
use loom_topo::symbol::{SymbolKind, SymbolNode};

#[test]
fn test_symbol_kind_properties() {
    assert!(SymbolKind::Function.is_callable());
    assert!(SymbolKind::Method.is_callable());
    assert!(!SymbolKind::Struct.is_callable());

    assert!(SymbolKind::Struct.is_type());
    assert!(SymbolKind::Trait.is_type());
    assert!(!SymbolKind::Function.is_type());
}

#[test]
fn test_deterministic_hashing_consistency() {
    let id1 = SymbolId::derive(
        "src/service/auth.rs",
        &["service", "auth"],
        "authenticate_user",
        "pub fn authenticate_user(req: AuthRequest) -> Result<User>",
    );
    let id2 = SymbolId::derive(
        "src/service/auth.rs",
        &["service", "auth"],
        "authenticate_user",
        "pub fn authenticate_user(req: AuthRequest) -> Result<User>",
    );

    assert_eq!(id1, id2);
    assert_eq!(id1.to_hex(), id2.to_hex());
}

#[test]
fn test_hash_distinguishes_different_signatures() {
    let id1 = SymbolId::derive("src/math.rs", &[], "compute", "fn compute(x: i32) -> i32");
    let id2 = SymbolId::derive("src/math.rs", &[], "compute", "fn compute(x: f64) -> f64");
    assert_ne!(id1, id2);
}

#[test]
fn test_hash_distinguishes_namespaces() {
    let id1 = SymbolId::derive("src/lib.rs", &["foo", "bar"], "run", "fn run()");
    let id2 = SymbolId::derive("src/lib.rs", &["foobar"], "run", "fn run()");
    assert_ne!(id1, id2);
}

#[test]
fn test_hex_conversion_roundtrip() {
    let original = SymbolId::derive("src/main.rs", &[], "main", "fn main()");
    let hex_repr = original.to_hex();
    assert_eq!(hex_repr.len(), 32);

    let parsed: SymbolId = hex_repr.parse().expect("valid hex parse");
    assert_eq!(original, parsed);
}

#[test]
fn test_invalid_hex() {
    assert!(SymbolId::from_hex("invalid_hex").is_err());
    assert!(SymbolId::from_hex("1234").is_err());
}

#[test]
fn test_blake3_determinism_and_collision_resistance() {
    let mut hashes = HashSet::new();

    let id1 = SymbolId::derive("src/foo.rs", &["bar"], "baz", "fn baz()");
    let id2 = SymbolId::derive("src/foobar.rs", &[], "baz", "fn baz()");
    let id3 = SymbolId::derive("src/foo.rs", &[], "bar_baz", "fn baz()");
    let id4 = SymbolId::derive("src/foo.rs", &["bar"], "baz", "fn baz() -> i32");

    assert!(hashes.insert(id1));
    assert!(hashes.insert(id2));
    assert!(hashes.insert(id3));
    assert!(hashes.insert(id4));
    assert_eq!(hashes.len(), 4);

    let id1_duplicate = SymbolId::derive("src/foo.rs", &["bar"], "baz", "fn baz()");
    assert_eq!(id1, id1_duplicate);
    assert_eq!(id1.to_hex(), id1_duplicate.to_hex());
}

#[test]
fn test_symbol_id_byte_conversion_and_hex() {
    let raw_bytes: [u8; 16] = [
        0x01, 0x23, 0x45, 0x67, 0x89, 0xab, 0xcd, 0xef, 0xfe, 0xdc, 0xba, 0x98, 0x76, 0x54, 0x32, 0x10,
    ];

    let sym_id = SymbolId::from_bytes(raw_bytes);
    assert_eq!(sym_id.into_bytes(), raw_bytes);
    assert_eq!(sym_id.as_bytes(), &raw_bytes);

    let hex_str = sym_id.to_hex();
    assert_eq!(hex_str, "0123456789abcdeffedcba9876543210");

    let from_hex = SymbolId::from_hex(&hex_str).expect("decode valid hex");
    assert_eq!(from_hex, sym_id);

    assert!(matches!(SymbolId::from_hex("012345"), Err(LoomError::InvalidSymbolIdHex(_))));
    assert!(matches!(
        SymbolId::from_hex("0123456789abcdefghijklmnopqrstuv"),
        Err(LoomError::InvalidSymbolIdHex(_))
    ));
}

#[test]
fn invalid_hex_error_carries_the_input_text() {
    match SymbolId::from_hex("zz") {
        Err(LoomError::InvalidSymbolIdHex(text)) => assert_eq!(text, "zz"),
        other => panic!("unexpected {:?}", other),
    }
    // Upper-case digits are accepted and read back in lower case.
    let id = SymbolId::from_hex("0123456789ABCDEFFEDCBA9876543210").expect("upper case");
    assert_eq!(id.to_hex(), "0123456789abcdeffedcba9876543210");
}

#[test]
fn hex_roundtrip_over_derived_ids() {
    for i in 0..20 {
        let id = SymbolId::derive("src/x.rs", &["m"], &format!("f{i}"), "fn f()");
        assert_eq!(SymbolId::from_hex(&id.to_hex()).expect("roundtrip"), id);
    }
}

#[test]
fn try_from_slice_requires_sixteen_bytes() {
    let bytes: Vec<u8> = (0u8..16).collect();
    let id = SymbolId::try_from(&bytes[..]).expect("sixteen bytes");
    assert_eq!(id.as_bytes()[15], 15);
    assert!(SymbolId::try_from(&bytes[..15]).is_err());
}

#[test]
fn derive_is_not_the_zero_id_and_key_is_little_endian() {
    let id = SymbolId::from_bytes([1, 0, 0, 0, 0, 0, 0, 0, 0, 0, 0, 0, 0, 0, 0, 0]);
    assert_eq!(id.key(), 1u128);
    let id2 = SymbolId::from_bytes([0, 1, 0, 0, 0, 0, 0, 0, 0, 0, 0, 0, 0, 0, 0, 0]);
    assert_eq!(id2.key(), 256u128);
    let derived = SymbolId::derive("src/lib.rs", &[], "f", "fn f()");
    assert_ne!(derived.into_bytes(), [0u8; 16]);
}

#[test]
fn kind_and_edge_names() {
    assert_eq!(SymbolKind::TypeAlias.as_str(), "type_alias");
    assert_eq!(SymbolKind::Module.as_str(), "module");
    assert!(SymbolKind::Interface.is_type());
    assert!(!SymbolKind::Constant.is_callable());
    assert_eq!(EdgeKind::ReferencesType.as_str(), "references_type");
    assert_eq!(EdgeKind::Imports.as_str(), "imports");
    let e = DependencyEdge::new(EdgeKind::Inherits, 7, true);
    assert_eq!(e.kind, EdgeKind::Inherits);
    assert_eq!(e.call_site_line, 7);
    assert!(e.is_conditional);
}

#[test]
fn symbol_node_new_keeps_fields() {
    let id = SymbolId::derive("src/lib.rs", &[], "init", "pub fn init()");
    let node = SymbolNode::new(
        id,
        "init",
        SymbolKind::Function,
        "src/lib.rs",
        (0, 50),
        (1, 10),
        Some("Initializes the subsystem.".to_string()),
        "pub fn init()",
        true,
        1,
    );
    assert_eq!(node.id, id);
    assert_eq!(node.name, "init");
    assert_eq!(node.file_path, "src/lib.rs");
    assert_eq!(node.byte_range, (0, 50));
    assert_eq!(node.line_range, (1, 10));
    assert_eq!(node.docstring.as_deref(), Some("Initializes the subsystem."));
    assert_eq!(node.signature, "pub fn init()");
    assert!(node.is_exported);
    assert_eq!(node.epoch, 1);
    assert_eq!(node.clone(), node);
}

#[test]
fn derive_hashes_the_delimited_message() {
    let id = SymbolId::derive("src/lib.rs", &["service", "auth"], "run", "fn run()");
    let digest = blake3::hash(b"src/lib.rs\0service::auth::\0run\0fn run()");
    assert_eq!(&id.into_bytes()[..], &digest.as_bytes()[..16]);
    let e = SymbolId::derive("ab", &[], "c", "");
    let f = SymbolId::derive("a", &[], "bc", "");
    assert_ne!(e, f);
}

#[test]
fn hex_text_is_accepted_only_as_32_ascii_hex_digits() {
    assert!(SymbolId::from_hex("0123456789abcdefABCDEF0123456789").is_ok());
    // 31 characters whose UTF-8 encoding is 32 bytes.
    let accented = "0123456789abcdef0123456789abcd\u{e9}";
    assert_eq!(accented.len(), 32);
    assert_eq!(SymbolId::from_hex(accented), Err(LoomError::InvalidSymbolIdHex(accented.to_string())));
    assert!(SymbolId::from_hex("0123456789abcdef0123456789abcdeg").is_err());
}
