use sequences::crawl_index::{build_index, cdx_json, files_for_domains, find_index_files, parse_index_line, UrlFilter};

fn s(x: &str) -> String {
    x.to_string()
}

#[test]
fn crawl_index_finds_index_files() {
    let lines = vec![
        s("cc-index/collections/CC-MAIN-2019-47/indexes/cdx-00000.gz"),
        s("cc-index/collections/CC-MAIN-2019-47/indexes/cdx-00001.gz"),
        s("cc-index/collections/CC-MAIN-2019-47/indexes/cluster.idx"),
        s("cc-index/collections/CC-MAIN-2019-47/metadata.yaml"),
    ];
    let (data, index) = find_index_files(&lines);
    assert_eq!(data, Some(s("cc-index/collections/CC-MAIN-2019-47/indexes/cdx-00000.gz")));
    assert_eq!(index, Some(s("cc-index/collections/CC-MAIN-2019-47/indexes/cluster.idx")));
    assert_eq!(find_index_files(&[s("metadata.yaml")]), (None, None));
    // the last line of each kind wins
    let (data, _) = find_index_files(&[s("a/cdx-00000.gz"), s("b/cdx-00000.gz")]);
    assert_eq!(data, Some(s("b/cdx-00000.gz")));
}

#[test]
fn crawl_index_parses_lines() {
    assert_eq!(
        parse_index_line("0,0,1)/ 20191118114721\tcdx-00159.gz\t0\t1234\t5"),
        Some((s("0,0,1"), 159))
    );
    assert_eq!(parse_index_line("com,google)/maps 2019\tcdx-00007.gz"), Some((s("com,google"), 7)));
    // no closing parenthesis: the whole first field
    assert_eq!(parse_index_line("com,example\tcdx-00003.gz"), Some((s("com,example"), 3)));
    // `str::parse` takes a leading `+`
    assert_eq!(parse_index_line("a)\tcdx-+1234.gz"), Some((s("a"), 1234)));
    assert_eq!(parse_index_line("no tab here"), None);
    assert_eq!(parse_index_line("a)\tcdx-9999"), None);
    assert_eq!(parse_index_line("a)\tcdx-99999.gz"), None);
    assert_eq!(parse_index_line("a)\tcdx-65535.gz"), Some((s("a"), 65535)));
    assert_eq!(parse_index_line("a)\tcdx-65536.gz"), None);
    assert_eq!(parse_index_line("a)\tcdx-+++++.gz"), None);
    assert_eq!(parse_index_line("a)\tcdx-0012x.gz"), None);
    // byte 4 inside a two-byte character
    assert_eq!(parse_index_line("a)\tcdxé00012.gz"), None);
    // a two-byte character before byte 4 shifts the digits
    assert_eq!(parse_index_line("a)\té-x00042.gz"), Some((s("a"), 42)));
}

#[test]
fn crawl_index_builds_sorted_index() {
    let lines = vec![
        s("com,b)/ 1\tcdx-00002.gz"),
        s("com,a)/ 1\tcdx-00001.gz"),
        s("com,c)/ 1\tcdx-00003.gz"),
        s("com,b)/ 2\tcdx-00005.gz"),
    ];
    let index = build_index(&lines).unwrap();
    assert_eq!(index, vec![(s("com,a"), 1), (s("com,b"), 5), (s("com,c"), 3)]);
    assert_eq!(build_index(&[s("com,a)/\tcdx-00001.gz"), s("broken")]), None);
    assert_eq!(build_index(&[]), Some(vec![]));
}

#[test]
fn crawl_index_files_for_domains() {
    let index = vec![(s("com,a"), 1), (s("com,c"), 2), (s("com,e"), 4), (s("com,g"), 6)];
    let files = files_for_domains(&index, &[s("d.com"), s("a.com"), s("z.com")]);
    assert_eq!(
        files,
        vec![
            (1, vec![s("a.com")]),
            (2, vec![s("d.com")]),
            (3, vec![s("d.com")]),
            (4, vec![s("d.com")]),
            (6, vec![s("z.com")]),
        ]
    );
}

#[test]
fn crawl_index_cdx_json() {
    assert_eq!(
        cdx_json("com,example)/ 20191118 {\"url\": \"http://example.com/\", \"status\": \"200\"}"),
        Some("{\"url\": \"http://example.com/\", \"status\": \"200\"}")
    );
    assert_eq!(cdx_json("only one space"), Some("space"));
    assert_eq!(cdx_json("none"), None);
    assert_eq!(cdx_json("one space"), None);
}

#[test]
fn crawl_index_url_filter() {
    let filter = UrlFilter::new(vec![s("amazon.com"), s("cnn.com")]).unwrap();
    assert_eq!(filter.keep_url("https://www.amazon.com/x", "200"), Some(true));
    assert_eq!(filter.keep_url("https://www.amazon.com/x", "404"), Some(false));
    assert_eq!(filter.keep_url("http://www.cnn.com", "200"), Some(true));
    assert_eq!(filter.keep_url("https://amazoncomamazon.com/?cat=1", "200"), Some(false));
    // the quick search is case sensitive, the host comparison is not reached
    assert_eq!(filter.keep_url("https://WWW.AMAZON.COM/", "200"), Some(false));
    // a domain named only in the path
    assert_eq!(filter.keep_url("https://example.org/amazon.com", "200"), Some(false));
    // a URL without host
    assert_eq!(filter.keep_url("mailto:someone@amazon.com", "200"), None);
}

#[test]
fn domains_around_which_the_index_can_be_searched() {
    assert!(sequences::crawl_index::domain_shiftable("google.com"));
    assert!(sequences::crawl_index::domain_shiftable("de"));
    assert!(!sequences::crawl_index::domain_shiftable(""));
}
