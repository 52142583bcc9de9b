use sequences::surt::{
    checked_url_has_domain_or_subdomain_of, domain_to_surt, find_prev_and_next_elements,
    host_has_domain_or_subdomain_of, url_has_domain_or_subdomain_of,
};

fn domains(list: &[&str]) -> Vec<String> {
    list.iter().map(|d| d.to_string()).collect()
}

#[test]
fn test_domain_to_surt() {
    assert_eq!("com,google", domain_to_surt("google.com"));
    assert_eq!("de", domain_to_surt("de"));
    assert_eq!("4,3,2,1", domain_to_surt("1.2.3.4"));
    assert_eq!(
        "parts,many,has,domain,this",
        domain_to_surt("this.domain.has.many.parts")
    );
}

#[test]
fn test_url_has_domain_or_subdomain_of() {
    assert!(url_has_domain_or_subdomain_of(
        "http://amazon.com",
        &domains(&["amazon.com"])
    ));
    assert!(url_has_domain_or_subdomain_of(
        "https://whispercast.amazon.com/robots.txt",
        &domains(&["amazon.com"])
    ));
    assert!(url_has_domain_or_subdomain_of(
        "https://www.amazon.com/Dr-Helen-Klus/e/B078Q9F7FV",
        &domains(&["amazon.com"])
    ));
    assert!(url_has_domain_or_subdomain_of(
        "https://aws.amazon.com/blogs/startups/tag/boston/",
        &domains(&["amazon.com"])
    ));

    assert!(url_has_domain_or_subdomain_of(
        "http://www.cnn.com",
        &domains(&["cnn.com"])
    ));

    // These should NOT match
    assert!(!url_has_domain_or_subdomain_of(
        "https://amazoncomamazon.com/?cat=1",
        &domains(&["amazon.com"])
    ));
}

#[test]
fn surt_of_empty_labels_drops_leading_commas() {
    assert_eq!("a", domain_to_surt("a."));
    assert_eq!("a,", domain_to_surt(".a"));
    assert_eq!("a", domain_to_surt("a.."));
    assert_eq!("", domain_to_surt(""));
    assert_eq!("b,,a", domain_to_surt("a..b"));
}

#[test]
fn host_matching_needs_a_dot_before_the_domain() {
    let d = domains(&["example.org", "cnn.com"]);
    assert!(host_has_domain_or_subdomain_of("example.org", &d));
    assert!(host_has_domain_or_subdomain_of("a.b.example.org", &d));
    assert!(!host_has_domain_or_subdomain_of("badexample.org", &d));
    assert!(!host_has_domain_or_subdomain_of("org", &d));
    assert!(!host_has_domain_or_subdomain_of("example.org.evil", &d));
    assert!(!host_has_domain_or_subdomain_of("cnn.com", &domains(&[])));
}

#[test]
fn unparsable_url_has_no_host() {
    assert_eq!(None, checked_url_has_domain_or_subdomain_of("not a url", &domains(&["a.b"])));
    assert_eq!(
        Some(true),
        checked_url_has_domain_or_subdomain_of("https://x.a.b/", &domains(&["a.b"]))
    );
    assert_eq!(
        Some(false),
        checked_url_has_domain_or_subdomain_of("https://x.a.bc/", &domains(&["a.b"]))
    );
}

#[test]
fn prev_and_next_index_files() {
    let map: Vec<(String, u16)> = vec![
        ("com,a".to_string(), 1),
        ("com,google".to_string(), 2),
        ("com,google,www".to_string(), 3),
        ("de,x".to_string(), 4),
    ];
    // Between the keys: the entry before and the entry after.
    assert_eq!((2, 3), find_prev_and_next_elements(&map, "com,google,mail"));
    // Exactly a key: everything below "com,googlf" counts as before, so the subdomain
    // entry too; the key itself is the next one.
    assert_eq!((3, 2), find_prev_and_next_elements(&map, "com,google"));
    // Before all keys: 0 and the first value.
    assert_eq!((0, 1), find_prev_and_next_elements(&map, "ar,b"));
    // After all keys: the last value twice.
    assert_eq!((4, 4), find_prev_and_next_elements(&map, "org,z"));
}
