use kil_core::routing::{cache_acceptance, CacheRead};

fn read(version: u32, project: &str, fingerprint: &str) -> CacheRead {
    CacheRead::Read { format_version: version, project: project.into(), input_fingerprint: fingerprint.into() }
}

#[test]
fn routing_caches_are_refused_when_missing_foreign_or_stale() {
    let missing = cache_acceptance(&CacheRead::Missing, "p.kil.json", "p.routes.json", "demo", "abc").unwrap_err();
    assert_eq!((missing.code.as_str(), missing.file.as_str()), ("ROUTE002", "p.kil.json"));
    assert_eq!(missing.help.as_deref(), Some("run 'kil route p.kil.json' first"));
    let unreadable = cache_acceptance(&CacheRead::Unreadable("denied".into()), "p.kil.json", "p.routes.json", "demo", "abc").unwrap_err();
    assert_eq!((unreadable.code.as_str(), unreadable.message.as_str()), ("ROUTE003", "cannot read routing cache: denied"));
    assert_eq!(unreadable.file, "p.routes.json");
    let invalid = cache_acceptance(&CacheRead::Invalid("EOF".into()), "p.kil.json", "p.routes.json", "demo", "abc").unwrap_err();
    assert_eq!((invalid.code.as_str(), invalid.message.as_str()), ("ROUTE004", "invalid routing cache JSON: EOF"));
    assert_eq!(cache_acceptance(&read(1, "demo", "abc"), "p.kil.json", "p.routes.json", "demo", "abc").unwrap_err().code, "ROUTE005");
    assert_eq!(cache_acceptance(&read(2, "other", "abc"), "p.kil.json", "p.routes.json", "demo", "abc").unwrap_err().code, "ROUTE005");
    let stale = cache_acceptance(&read(2, "demo", "stale"), "p.kil.json", "p.routes.json", "demo", "abc").unwrap_err();
    assert_eq!(stale.code, "ROUTE006");
    assert_eq!(stale.help.as_deref(), Some("rerun 'kil route p.kil.json'"));
    assert!(cache_acceptance(&read(2, "demo", "abc"), "p.kil.json", "p.routes.json", "demo", "abc").is_ok());
}
