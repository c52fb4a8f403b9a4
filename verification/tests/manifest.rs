use pingcrm::vite::{Error, Manifest, ManifestEntry};

fn entry(file: &str, css: &[&str]) -> ManifestEntry {
    ManifestEntry {
        file: file.to_string(),
        css: css.iter().map(|c| c.to_string()).collect(),
    }
}

/// The expected encoding of one field: its character count in unary, a
/// separator, then the characters.
fn enc(s: &str) -> String {
    format!("{}:{}", "#".repeat(s.chars().count()), s)
}

#[test]
fn canonical_string_single_entry() {
    let m = Manifest::from_entries(vec![("a".to_string(), entry("f", &[]))]);
    assert_eq!(m.canonical_string(), "#:#:a#:f:");

    let m = Manifest::from_entries(vec![("a".to_string(), entry("f", &["x", "y"]))]);
    assert_eq!(m.canonical_string(), "#:#:a#:f##:#:x#:y");

    let m = Manifest::from_entries(vec![("src/index.tsx".to_string(), entry(
        "assets/index-abc123.js",
        &["assets/index-def456.css"],
    ))]);
    let expected = format!(
        "#:{}{}#:{}",
        enc("src/index.tsx"),
        enc("assets/index-abc123.js"),
        enc("assets/index-def456.css"),
    );
    assert_eq!(m.canonical_string(), expected);
}

#[test]
fn canonical_string_sorts_keys() {
    let m = Manifest::from_entries(vec![
        ("b".to_string(), entry("g", &[])),
        ("a".to_string(), entry("f", &[])),
    ]);
    assert_eq!(m.canonical_string(), "##:#:a#:f:#:b#:g:");
}

#[test]
fn canonical_string_is_self_delimiting() {
    // Shifting characters between adjacent fields changes the encoding.
    let m1 = Manifest::from_entries(vec![("a#".to_string(), entry("b", &[]))]);
    let m2 = Manifest::from_entries(vec![("a".to_string(), entry("#b", &[]))]);
    assert_ne!(m1.canonical_string(), m2.canonical_string());
    assert_ne!(m1.fingerprint(), m2.fingerprint());
    // Separator characters in the content are carried through unescaped.
    let m = Manifest::from_entries(vec![("k:ey".to_string(), entry("f\n", &[]))]);
    assert_eq!(m.canonical_string(), "#:####:k:ey##:f\n:");
}

#[test]
fn fingerprint_is_sha256_of_canonical_form() {
    let m = Manifest::from_entries(vec![("a".to_string(), entry("a.js", &["a.css"]))]);
    assert_eq!(m.fingerprint(), sha256::digest(m.canonical_string()));
    assert_eq!(m.fingerprint().len(), 64);
}

#[test]
fn fingerprint_order_independent() {
    let m1 = Manifest::from_entries(vec![
        ("a".to_string(), entry("a.js", &["a.css"])),
        ("b".to_string(), entry("b.js", &[])),
        ("c".to_string(), entry("c.js", &["c1.css", "c2.css"])),
    ]);
    let m2 = Manifest::from_entries(vec![
        ("c".to_string(), entry("c.js", &["c1.css", "c2.css"])),
        ("b".to_string(), entry("b.js", &[])),
        ("a".to_string(), entry("a.js", &["a.css"])),
    ]);
    assert_eq!(m1.fingerprint(), m2.fingerprint());
}

#[test]
fn fingerprint_changes_when_file_hash_changes() {
    let m1 = Manifest::from_entries(vec![("a".to_string(), entry("a-1.js", &[]))]);
    let m2 = Manifest::from_entries(vec![("a".to_string(), entry("a-2.js", &[]))]);
    assert_ne!(m1.fingerprint(), m2.fingerprint());
}

#[test]
fn fingerprint_changes_when_css_list_changes() {
    let m1 = Manifest::from_entries(vec![("a".to_string(), entry("a.js", &["x.css"]))]);
    let m2 = Manifest::from_entries(vec![("a".to_string(), entry("a.js", &["x.css", "y.css"]))]);
    let m3 = Manifest::from_entries(vec![("a".to_string(), entry("a.js", &["y.css", "x.css"]))]);
    assert_ne!(m1.fingerprint(), m2.fingerprint());
    assert_ne!(m2.fingerprint(), m3.fingerprint());
}

#[test]
fn entry_lookup() {
    let m = Manifest::from_entries(vec![
        ("a".to_string(), entry("a.js", &["a.css"])),
        ("b".to_string(), entry("b.js", &[])),
    ]);
    let e = m.entry("a").expect("present key resolves");
    assert_eq!(e.file, "a.js");
    assert_eq!(e.css, vec!["a.css".to_string()]);
    assert!(m.entry("missing").is_none());
}

#[test]
fn later_duplicate_key_wins() {
    let m = Manifest::from_entries(vec![
        ("a".to_string(), entry("old.js", &[])),
        ("a".to_string(), entry("new.js", &[])),
    ]);
    assert_eq!(m.entry("a").unwrap().file, "new.js");
}

#[test]
fn error_messages() {
    assert_eq!(
        Error::HrmServerNotFound.message(),
        "Could not find dev server information, make sure you are running `pnpm dev`"
    );
    assert_eq!(
        Error::BuildManifestNotFound.message(),
        "Could not find build manifest, make sure you've run `pnpm build`"
    );
    assert_eq!(
        Error::FailedToParseManifest("bad token".to_string()).message(),
        "Failed to parse manifest: bad token"
    );
}
