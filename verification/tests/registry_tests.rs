use asset_registry::digest::digest;
use asset_registry::registry::AssetInput;
use asset_registry::registry::Registry;
use asset_registry::synth::synthesize;
use asset_registry::synth::BuildError;

fn input(identifier: &str, source_path: &str, content_type: &str, content: &[u8]) -> AssetInput {
    AssetInput {
        identifier: String::from(identifier),
        source_path: String::from(source_path),
        content_type: String::from(content_type),
        content: Some(content.to_vec()),
    }
}

#[test]
fn extension_is_preserved() {
    let name = synthesize("images/wikimedia-crab.svg", "Ab12Cd").unwrap();
    assert_eq!(name, "wikimedia-crab-Ab12Cd.svg");
}

#[test]
fn multi_dot_splits_at_last_dot() {
    let name = synthesize("assets/bundle.min.js", "Xy9Z01").unwrap();
    assert_eq!(name, "bundle.min-Xy9Z01.js");
}

#[test]
fn missing_extension_is_rejected() {
    let r = synthesize("assets/README", "Ab12Cd");
    assert_eq!(r, Err(BuildError::NoExtension));
}

#[test]
fn path_without_directory() {
    let name = synthesize("styles.css", "T0k3n5X").unwrap();
    assert_eq!(name, "styles-T0k3n5X.css");
}

#[test]
fn digest_is_deterministic() {
    let a = digest(b"some stylesheet bytes");
    let b = digest(b"some stylesheet bytes");
    assert_eq!(a, b);
    assert_eq!(a.len(), 8);
}

#[test]
fn digest_of_empty_content_is_total() {
    let t = digest(b"");
    assert_eq!(t.len(), 8);
}

#[test]
fn digest_known_answer_for_empty_input() {
    // BLAKE3 of the empty input starts with af 13 49 b9 f5 f9, which
    // base64url-encodes to the token below.
    assert_eq!(digest(b""), "rxNJufX5");
}

#[test]
fn digest_matches_truncated_blake3_base64url() {
    let content = b"hello world";
    let hash = blake3::hash(content);
    let mut buf = [0u8; 8];
    let expected =
        <base64ct::Base64UrlUnpadded as base64ct::Encoding>::encode(&hash.as_bytes()[..6], &mut buf)
            .unwrap();
    assert_eq!(digest(content), expected);
}

#[test]
fn differing_content_changes_digest() {
    let a = digest(b"body { color: red }");
    let b = digest(b"body { color: blue }");
    assert_ne!(a, b);
}

#[test]
fn end_to_end_single_asset() {
    let content = b"body { margin: 0; }";
    let token = digest(content);
    let reg = Registry::build(vec![input("styles_css", "css/styles.css", "text/css", content)])
        .unwrap();
    let name = format!("styles-{}.css", token);
    let rec = reg.lookup(&name).expect("decorated name must resolve");
    assert_eq!(rec.content, content.to_vec());
    assert_eq!(rec.content_type, "text/css");
    assert_eq!(rec.name, name);
    assert!(reg.lookup("styles.css").is_none());
}

#[test]
fn unreadable_source_aborts_build() {
    let good = input("a_css", "a.css", "text/css", b"a");
    let bad = AssetInput {
        identifier: String::from("b_css"),
        source_path: String::from("b.css"),
        content_type: String::from("text/css"),
        content: None,
    };
    let r = Registry::build(vec![good, bad]);
    assert!(matches!(r, Err(BuildError::SourceUnreadable)));
}

#[test]
fn missing_extension_aborts_build() {
    let r = Registry::build(vec![input("readme", "assets/README", "text/plain", b"read me")]);
    assert!(matches!(r, Err(BuildError::NoExtension)));
}

#[test]
fn duplicate_declaration_is_a_collision() {
    let r = Registry::build(vec![
        input("logo", "img/logo.svg", "image/svg+xml", b"<svg/>"),
        input("logo_again", "img/logo.svg", "image/svg+xml", b"<svg/>"),
    ]);
    assert!(matches!(r, Err(BuildError::NameCollision)));
}

#[test]
fn unreadable_source_beats_collision() {
    let r = Registry::build(vec![
        input("logo", "img/logo.svg", "image/svg+xml", b"<svg/>"),
        input("logo_again", "img/logo.svg", "image/svg+xml", b"<svg/>"),
        AssetInput {
            identifier: String::from("late"),
            source_path: String::from("late.css"),
            content_type: String::from("text/css"),
            content: None,
        },
    ]);
    assert!(matches!(r, Err(BuildError::SourceUnreadable)));
}

#[test]
fn registry_is_sorted_by_name() {
    let reg = Registry::build(vec![
        input("zebra", "img/zebra.png", "image/png", b"zzz"),
        input("apple", "img/apple.png", "image/png", b"aaa"),
        input("mango", "img/mango.png", "image/png", b"mmm"),
    ])
    .unwrap();
    assert_eq!(reg.len(), 3);
    for i in 0..reg.len() - 1 {
        let a = &reg.record_at(i).name;
        let b = &reg.record_at(i + 1).name;
        assert!(a < b, "names out of order: {} !< {}", a, b);
    }
}

#[test]
fn lookup_finds_every_record() {
    let reg = Registry::build(vec![
        input("zebra", "img/zebra.png", "image/png", b"zzz"),
        input("apple", "img/apple.png", "image/png", b"aaa"),
        input("mango", "img/mango.png", "image/png", b"mmm"),
    ])
    .unwrap();
    for i in 0..reg.len() {
        let rec = reg.record_at(i);
        let name = rec.name.clone();
        let found = reg.lookup(&name).expect("record must be found by its own name");
        assert_eq!(found.content, rec.content);
        assert_eq!(found.content_type, rec.content_type);
    }
}

#[test]
fn negative_lookup_is_absent() {
    let reg = Registry::build(vec![input("a_css", "a.css", "text/css", b"a")]).unwrap();
    assert!(reg.lookup("no-such-name.css").is_none());
    assert!(reg.lookup("").is_none());
    assert!(reg.lookup("a.css").is_none());
}

#[test]
fn content_change_changes_only_that_name() {
    let first = Registry::build(vec![
        input("styles", "css/styles.css", "text/css", b"body { margin: 0; }"),
        input("logo", "img/logo.svg", "image/svg+xml", b"<svg/>"),
    ])
    .unwrap();
    let second = Registry::build(vec![
        input("styles", "css/styles.css", "text/css", b"body { margin: 1px; }"),
        input("logo", "img/logo.svg", "image/svg+xml", b"<svg/>"),
    ])
    .unwrap();
    let styles_first: Vec<String> = names_with_stem(&first, "styles-");
    let styles_second: Vec<String> = names_with_stem(&second, "styles-");
    assert_eq!(styles_first.len(), 1);
    assert_eq!(styles_second.len(), 1);
    assert_ne!(styles_first[0], styles_second[0]);
    let logo_first: Vec<String> = names_with_stem(&first, "logo-");
    let logo_second: Vec<String> = names_with_stem(&second, "logo-");
    assert_eq!(logo_first, logo_second);
}

fn names_with_stem(reg: &Registry, prefix: &str) -> Vec<String> {
    let mut out = Vec::new();
    for i in 0..reg.len() {
        let name = &reg.record_at(i).name;
        if name.starts_with(prefix) {
            out.push(name.clone());
        }
    }
    out
}
