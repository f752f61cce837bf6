use speller_repository::paths::bundle_stem;
use speller_repository::paths::is_bundle;

#[test]
fn recognizes_both_extensions() {
    assert!(is_bundle("/dicts/se.zhfst"));
    assert!(is_bundle("sma.bhfst"));
    assert!(is_bundle("a/b/c/smn.zhfst"));
}

#[test]
fn rejects_other_names() {
    assert!(!is_bundle("/dicts/se.txt"));
    assert!(!is_bundle("zhfst"));
    assert!(!is_bundle("/dicts/se"));
    assert!(!is_bundle(""));
    assert!(!is_bundle("/dicts/se.ZHFST"));
}

#[test]
fn rejects_extension_without_stem() {
    assert!(!is_bundle(".zhfst"));
    assert!(!is_bundle("/dicts/.bhfst"));
}

#[test]
fn stem_strips_directory_and_extension() {
    assert_eq!(bundle_stem("/dicts/se.zhfst"), Some("se".to_string()));
    assert_eq!(bundle_stem("a/b/sma.bhfst"), Some("sma".to_string()));
    assert_eq!(bundle_stem("sms.zhfst"), Some("sms".to_string()));
}

#[test]
fn stem_keeps_inner_dots() {
    assert_eq!(bundle_stem("x/a.tar.zhfst"), Some("a.tar".to_string()));
}

#[test]
fn stem_absent_for_unrecognized_names() {
    assert_eq!(bundle_stem("/dicts/se.txt"), None);
    assert_eq!(bundle_stem("se"), None);
}
