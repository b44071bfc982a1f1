use dns_dropper::filter::{
    classify_source, should_filter, Filter, FilterList, SourceKind,
};

fn entry(address: &[u8], domain: &[u8]) -> Filter {
    Filter {
        address: address.to_vec(),
        domain: domain.to_vec(),
    }
}

#[test]
fn matching_is_exact_on_the_domain_only() {
    let list = vec![
        entry(b"0.0.0.0", b"ads.example"),
        entry(b"127.0.0.1", b"tracker.example"),
    ];
    assert!(should_filter(&b"ads.example".to_vec(), &list));
    assert!(should_filter(&b"tracker.example".to_vec(), &list));
    assert!(!should_filter(&b"example".to_vec(), &list));
    assert!(!should_filter(&b"sub.ads.example".to_vec(), &list));
    // the address field is never consulted
    assert!(!should_filter(&b"0.0.0.0".to_vec(), &list));
}

#[test]
fn matching_is_case_sensitive() {
    let list = vec![entry(b"0.0.0.0", b"ads.example")];
    assert!(!should_filter(&b"ADS.example".to_vec(), &list));
    assert!(!should_filter(&b"Ads.Example".to_vec(), &list));
}

#[test]
fn empty_list_matches_nothing() {
    let list: Vec<Filter> = Vec::new();
    assert!(!should_filter(&b"anything".to_vec(), &list));
}

#[test]
fn is_domain_matching_compares_bytes() {
    let f = entry(b"0.0.0.0", b"ads.example");
    assert!(f.is_domain_matching(&b"ads.example".to_vec()));
    assert!(!f.is_domain_matching(&b"ads.exampl".to_vec()));
    assert!(!f.is_domain_matching(&b"ads.example.".to_vec()));
}

#[test]
fn two_token_lines_become_entries() {
    let fl = FilterList::new(Vec::new());
    let mut list: Vec<Filter> = Vec::new();
    fl.parse_block_list_content(&mut list, b"0.0.0.0 ads.example\n0.0.0.0 tracker.example\n".to_vec())
        .unwrap();
    assert_eq!(
        list,
        vec![
            entry(b"0.0.0.0", b"ads.example"),
            entry(b"0.0.0.0", b"tracker.example"),
        ]
    );
}

#[test]
fn lines_with_other_token_counts_are_skipped() {
    let fl = FilterList::new(Vec::new());
    let mut list: Vec<Filter> = Vec::new();
    let content = b"justonetoken\n0.0.0.0 ads.example extra\n\n   \n0.0.0.0 ok.example".to_vec();
    fl.parse_block_list_content(&mut list, content).unwrap();
    assert_eq!(list, vec![entry(b"0.0.0.0", b"ok.example")]);
}

#[test]
fn duplicate_entries_collapse() {
    let fl = FilterList::new(Vec::new());
    let mut list: Vec<Filter> = Vec::new();
    let content = b"0.0.0.0 ads.example\n0.0.0.0 ads.example\n".to_vec();
    fl.parse_block_list_content(&mut list, content).unwrap();
    assert_eq!(list, vec![entry(b"0.0.0.0", b"ads.example")]);

    // parsing more sources accumulates into the same set
    fl.parse_block_list_content(&mut list, b"0.0.0.0 ads.example\n1.1.1.1 ads.example".to_vec())
        .unwrap();
    assert_eq!(
        list,
        vec![
            entry(b"0.0.0.0", b"ads.example"),
            entry(b"1.1.1.1", b"ads.example"),
        ]
    );
}

#[test]
fn tabs_and_carriage_returns_separate_tokens_too() {
    let fl = FilterList::new(Vec::new());
    let mut list: Vec<Filter> = Vec::new();
    fl.parse_block_list_content(&mut list, b"0.0.0.0\tads.example\r\n".to_vec())
        .unwrap();
    assert_eq!(list, vec![entry(b"0.0.0.0", b"ads.example")]);
}

#[test]
fn comment_looking_lines_are_data_when_they_tokenise_to_two() {
    let fl = FilterList::new(Vec::new());
    let mut list: Vec<Filter> = Vec::new();
    fl.parse_block_list_content(&mut list, b"# comment\n".to_vec()).unwrap();
    assert_eq!(list, vec![entry(b"#", b"comment")]);
}

#[test]
fn empty_content_adds_nothing() {
    let fl = FilterList::new(Vec::new());
    let mut list = vec![entry(b"0.0.0.0", b"kept.example")];
    fl.parse_block_list_content(&mut list, Vec::new()).unwrap();
    assert_eq!(list, vec![entry(b"0.0.0.0", b"kept.example")]);
}

#[test]
fn sources_are_classified_by_scheme() {
    assert_eq!(
        classify_source(&"file:///etc/denylist.txt".to_string()),
        SourceKind::FileUrl
    );
    assert_eq!(
        classify_source(&"http://lists.example/hosts".to_string()),
        SourceKind::HttpUrl
    );
    assert_eq!(
        classify_source(&"https://lists.example/hosts".to_string()),
        SourceKind::HttpUrl
    );
    assert_eq!(
        classify_source(&"ftp://lists.example/hosts".to_string()),
        SourceKind::UnsupportedUrl
    );
    assert_eq!(
        classify_source(&"/etc/denylist.txt".to_string()),
        SourceKind::PlainPath
    );
    assert_eq!(
        classify_source(&"relative/path.txt".to_string()),
        SourceKind::PlainPath
    );
}

#[test]
fn filter_list_keeps_its_sources() {
    let fl = FilterList::new(vec!["a".to_string(), "b".to_string()]);
    assert_eq!(
        fl.block_list_sources,
        vec!["a".to_string(), "b".to_string()]
    );
}
