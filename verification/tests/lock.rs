use kil_core::connectivity::Sexp;
use kil_core::lock::{canonical_document, fingerprint, lock_json, snapshot, verify, LibraryLock, LockRead, LockedComponent};
use sha2::Digest;

fn sym(s: &str) -> Sexp {
    Sexp::Symbol(s.into())
}

fn quoted(s: &str) -> Sexp {
    Sexp::Quoted(s.into())
}

fn list(items: Vec<Sexp>) -> Sexp {
    Sexp::List(items)
}

fn resistor(footprint_id: &str, width: &str) -> LockedComponent {
    LockedComponent {
        symbol_id: "Device:R".into(),
        footprint_id: footprint_id.into(),
        symbol_node: list(vec![sym("symbol"), quoted("R"), list(vec![sym("pin"), sym("passive"), sym("line")])]),
        footprint_node: list(vec![sym("footprint"), quoted("R_0603"), list(vec![sym("pad"), quoted("1"), sym(width)])]),
    }
}

fn sha256(text: &str) -> String {
    format!("{:x}", sha2::Sha256::digest(text.as_bytes()))
}

fn copy(lock: &LibraryLock) -> LibraryLock {
    LibraryLock { format_version: lock.format_version, assets: lock.assets.clone() }
}

#[test]
fn changed_resolved_geometry_requires_explicit_acceptance() {
    let mut libraries = vec![resistor("Resistor_SMD:R_0603", "0.8")];
    let expected = snapshot(&libraries);
    let missing = LockRead::Unavailable("No such file or directory (os error 2)".into());
    let err = verify(&expected, &missing, "test.kil.lock.json", "test.kil.json").unwrap_err();
    assert_eq!(err.code, "LOCK001");
    assert_eq!(err.help.as_deref(), Some("run 'kil lock test.kil.json'"));
    let written = copy(&expected);
    assert_eq!(
        verify(&expected, &LockRead::Read(copy(&written)), "test.kil.lock.json", "test.kil.json"),
        Ok(fingerprint(&snapshot(&libraries)))
    );
    let original = fingerprint(&written);
    libraries[0].footprint_id = "Changed:R".into();
    let changed = snapshot(&libraries);
    let err = verify(&changed, &LockRead::Read(copy(&written)), "test.kil.lock.json", "test.kil.json").unwrap_err();
    assert_eq!(err.code, "LOCK003");
    let rewritten = copy(&changed);
    let accepted = verify(&changed, &LockRead::Read(copy(&rewritten)), "test.kil.lock.json", "test.kil.json");
    assert_eq!(accepted, Ok(fingerprint(&rewritten)));
    assert_ne!(original, accepted.unwrap());
}

#[test]
fn changed_geometry_changes_the_footprint_digest() {
    let a = snapshot(&vec![resistor("Resistor_SMD:R_0603", "0.8")]);
    let b = snapshot(&vec![resistor("Resistor_SMD:R_0603", "0.9")]);
    assert_eq!(a.assets[1], b.assets[1]);
    assert_ne!(a.assets[0], b.assets[0]);
    let err = verify(&b, &LockRead::Read(copy(&a)), "l.json", "p.json").unwrap_err();
    assert_eq!(err.code, "LOCK003");
    assert_eq!(err.help.as_deref(), Some("review library changes, then run 'kil lock FILE' to accept them"));
}

#[test]
fn snapshot_keys_ascend_and_digest_canonical_text() {
    let parts = vec![resistor("Resistor_SMD:R_0603", "0.8"), resistor("Resistor_SMD:R_0603", "0.8")];
    let lock = snapshot(&parts);
    assert_eq!(lock.format_version, 2);
    let keys: Vec<&str> = lock.assets.iter().map(|(k, _)| k.as_str()).collect();
    assert_eq!(keys, ["footprint:Resistor_SMD:R_0603", "symbol:Device:R"]);
    let text = canonical_document(&parts[0].symbol_node);
    assert_eq!(text, "(symbol \"R\" (pin passive line))\n");
    assert_eq!(lock.assets[1].1, sha256(&text));
    assert_eq!(lock.assets[1].1.len(), 64);
}

#[test]
fn canonical_text_escapes_quotes_and_backslashes() {
    let node = list(vec![sym("kicad_pcb"), list(vec![sym("version"), sym("20260101")]), quoted("a\"b\\c"), list(vec![])]);
    assert_eq!(canonical_document(&node), "(kicad_pcb (version 20260101) \"a\\\"b\\\\c\" ())\n");
}

#[test]
fn fingerprint_is_the_sha256_of_the_compact_lock_json() {
    let lock = LibraryLock {
        format_version: 2,
        assets: vec![("footprint:R".into(), "ab".into()), ("symbol:Device:R".into(), "cd".into())],
    };
    let text = lock_json(&lock);
    assert_eq!(text, "{\"format_version\":2,\"assets\":{\"footprint:R\":\"ab\",\"symbol:Device:R\":\"cd\"}}");
    assert_eq!(fingerprint(&lock), sha256(&text));
    assert_eq!(sha256("abc"), "ba7816bf8f01cfea414140de5dae2223b00361a396177a9cb410ff61f20015ad");
    assert_eq!(lock_json(&LibraryLock { format_version: 2, assets: vec![] }), "{\"format_version\":2,\"assets\":{}}");
}

#[test]
fn lock_json_escapes_like_a_json_writer() {
    let lock = LibraryLock { format_version: 10, assets: vec![("a\"b\\c\n\u{1}".into(), "\t\u{8}\u{c}\r é".into())] };
    assert_eq!(
        lock_json(&lock),
        "{\"format_version\":10,\"assets\":{\"a\\\"b\\\\c\\n\\u0001\":\"\\t\\b\\f\\r é\"}}"
    );
}

#[test]
fn malformed_lock_is_reported() {
    let lock = snapshot(&vec![]);
    assert!(lock.assets.is_empty());
    let err = verify(&lock, &LockRead::Malformed("expected value at line 1 column 1".into()), "l.json", "p.json").unwrap_err();
    assert_eq!(err.code, "LOCK002");
    assert_eq!(err.message, "expected value at line 1 column 1");
    assert_eq!(err.file, "l.json");
    assert!(err.help.is_none());
    let other = LibraryLock { format_version: 1, assets: vec![] };
    assert_eq!(verify(&lock, &LockRead::Read(other), "l.json", "p.json").unwrap_err().code, "LOCK003");
}
