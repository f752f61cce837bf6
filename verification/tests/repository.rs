use speller_repository::Candidate;
use speller_repository::SpellerRepository;

fn unresolved(path: &str) -> Candidate {
    Candidate { path: path.to_string(), resolved: None }
}

#[test]
fn new_keeps_roots_in_order() {
    let repo = SpellerRepository::new(vec!["/a".to_string(), "/b".to_string()]);
    assert_eq!(
        repo.base_directories(),
        &vec!["/a".to_string(), "/b".to_string()]
    );
}

#[test]
fn archives_keep_only_bundles_in_order() {
    let repo = SpellerRepository::new(vec!["/dicts".to_string()]);
    let files = vec![
        "/dicts/readme.txt".to_string(),
        "/dicts/se.zhfst".to_string(),
        "/dicts/notes/sma.bhfst".to_string(),
        "/dicts/se.zhfst".to_string(),
    ];
    let archives = repo.get_speller_archives(&files);
    assert_eq!(
        archives,
        vec![
            "/dicts/se.zhfst".to_string(),
            "/dicts/notes/sma.bhfst".to_string(),
            "/dicts/se.zhfst".to_string(),
        ]
    );
}

#[test]
fn no_files_means_no_archives_and_no_languages() {
    let repo = SpellerRepository::new(vec!["/missing".to_string()]);
    let files: Vec<String> = vec![];
    assert_eq!(repo.get_speller_archives(&files), Vec::<String>::new());
    let candidates: Vec<Candidate> = vec![];
    assert_eq!(repo.get_supported_languages(&candidates), Vec::<String>::new());
}

#[test]
fn unrecognized_files_mean_no_archives_and_no_languages() {
    let repo = SpellerRepository::new(vec!["/dicts".to_string()]);
    let files = vec!["/dicts/readme.txt".to_string(), "/dicts/se".to_string()];
    assert_eq!(repo.get_speller_archives(&files), Vec::<String>::new());
    let candidates: Vec<Candidate> =
        files.iter().map(|f| unresolved(f)).collect();
    assert_eq!(repo.get_supported_languages(&candidates), Vec::<String>::new());
    assert_eq!(repo.get_speller_archive("se", &candidates), None);
}

#[test]
fn two_bundles_give_sorted_deduplicated_languages() {
    let repo = SpellerRepository::new(vec!["/dicts".to_string()]);
    let candidates = vec![
        unresolved("/dicts/se.zhfst"),
        unresolved("/dicts/sma.bhfst"),
    ];
    let languages = repo.get_supported_languages(&candidates);
    let expected: Vec<String> = vec![
        "se", "se-FI", "se-Latn-FI", "se-Latn-NO", "se-Latn-SE", "se-NO", "se-SE", "sma",
        "sma-FI", "sma-Latn-FI", "sma-Latn-NO", "sma-Latn-SE", "sma-NO", "sma-SE",
    ]
    .into_iter()
    .map(|s| s.to_string())
    .collect();
    assert_eq!(languages, expected);
}

#[test]
fn languages_are_strictly_ascending() {
    let repo = SpellerRepository::new(vec!["/dicts".to_string()]);
    let candidates = vec![
        unresolved("/dicts/sms.zhfst"),
        unresolved("/dicts/se.zhfst"),
        unresolved("/dicts/other/se.zhfst"),
        unresolved("/dicts/xx.bhfst"),
    ];
    let languages = repo.get_supported_languages(&candidates);
    for pair in languages.windows(2) {
        assert!(pair[0] < pair[1]);
    }
}

#[test]
fn lookup_finds_bundle_by_alias() {
    let repo = SpellerRepository::new(vec!["/dicts".to_string()]);
    let candidates = vec![
        unresolved("/dicts/se.zhfst"),
        unresolved("/dicts/sma.bhfst"),
    ];
    assert_eq!(
        repo.get_speller_archive("se-NO", &candidates),
        Some("/dicts/se.zhfst".to_string())
    );
    assert_eq!(
        repo.get_speller_archive("sma-Latn-FI", &candidates),
        Some("/dicts/sma.bhfst".to_string())
    );
    assert_eq!(repo.get_speller_archive("xx", &candidates), None);
}

#[test]
fn lookup_returns_first_match() {
    let repo = SpellerRepository::new(vec!["/a".to_string(), "/b".to_string()]);
    let candidates = vec![unresolved("/a/se.zhfst"), unresolved("/b/se.zhfst")];
    assert_eq!(
        repo.get_speller_archive("se", &candidates),
        Some("/a/se.zhfst".to_string())
    );
}

#[test]
fn lookup_skips_unrecognized_files() {
    let repo = SpellerRepository::new(vec!["/d".to_string()]);
    let candidates = vec![unresolved("/d/se.txt"), unresolved("/d/se.zhfst")];
    assert_eq!(
        repo.get_speller_archive("se", &candidates),
        Some("/d/se.zhfst".to_string())
    );
}

#[test]
fn resolver_answer_replaces_fallback_tag() {
    let repo = SpellerRepository::new(vec!["/d".to_string()]);
    let candidates = vec![Candidate {
        path: "/d/se.zhfst".to_string(),
        resolved: Some("se-Latn".to_string()),
    }];
    let languages = repo.get_supported_languages(&candidates);
    assert!(languages.contains(&"se-Latn".to_string()));
    assert!(languages.contains(&"se-NO".to_string()));
    assert!(!languages.contains(&"se".to_string()));
    assert_eq!(
        repo.get_speller_archive("se-Latn", &candidates),
        Some("/d/se.zhfst".to_string())
    );
    assert_eq!(repo.get_speller_archive("se", &candidates), None);
}

#[test]
fn lookup_agrees_with_supported_languages() {
    let repo = SpellerRepository::new(vec!["/d".to_string()]);
    let candidates = vec![
        unresolved("/d/se.zhfst"),
        unresolved("/d/plain.txt"),
        unresolved("/d/smn.bhfst"),
    ];
    let languages = repo.get_supported_languages(&candidates);
    for tag in &languages {
        assert!(repo.get_speller_archive(tag, &candidates).is_some());
    }
    assert!(repo.get_speller_archive("smn-XX", &candidates).is_none());
}
