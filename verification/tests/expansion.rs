use speller_repository::tags::resolve_local_name;

#[test]
fn unknown_base_expands_to_itself() {
    let tags = resolve_local_name("xx", None);
    assert_eq!(tags, vec!["xx".to_string()]);
}

#[test]
fn unknown_base_with_resolution_uses_canonical_tag() {
    let tags = resolve_local_name("en", Some("en-US".to_string()));
    assert_eq!(tags, vec!["en-US".to_string()]);
}

#[test]
fn alias_base_expands_with_regions() {
    let tags = resolve_local_name("se", None);
    let expected: Vec<String> = vec![
        "se".to_string(),
        "se-Latn-NO".to_string(),
        "se-NO".to_string(),
        "se-Latn-SE".to_string(),
        "se-SE".to_string(),
        "se-Latn-FI".to_string(),
        "se-FI".to_string(),
    ];
    assert_eq!(tags, expected);
}

#[test]
fn alias_base_with_resolution_keeps_aliases() {
    let tags = resolve_local_name("smj", Some("smj-Latn".to_string()));
    let expected: Vec<String> = vec![
        "smj-Latn".to_string(),
        "smj-Latn-NO".to_string(),
        "smj-NO".to_string(),
        "smj-Latn-SE".to_string(),
        "smj-SE".to_string(),
        "smj-Latn-FI".to_string(),
        "smj-FI".to_string(),
    ];
    assert_eq!(tags, expected);
}

#[test]
fn every_alias_table_entry_yields_seven_tags() {
    for base in ["se", "sma", "smn", "sms", "smj"] {
        let tags = resolve_local_name(base, None);
        assert_eq!(tags.len(), 7);
        assert_eq!(tags[0], base.to_string());
        for tag in &tags[1..] {
            let latn = tag.starts_with(&format!("{}-Latn-", base));
            let plain = !latn && tag.starts_with(&format!("{}-", base));
            assert!(latn || plain);
            let region = &tag[tag.len() - 2..];
            assert!(region == "NO" || region == "SE" || region == "FI");
        }
    }
}
