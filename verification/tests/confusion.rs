use sequences::confusion::{label_sequences, prepare_confusion_domains, ConfusionDomains, ConfusionRecord};
use sequences::sequence::Sequence;
use sequences::sequence_element::SequenceElement::Size;

fn rec(domain: &str, target: &str) -> ConfusionRecord {
    ConfusionRecord { domain: domain.to_string(), is_similar_to: target.to_string() }
}

fn domains(pairs: &[(&str, &str)]) -> ConfusionDomains {
    prepare_confusion_domains(pairs.iter().map(|(d, t)| rec(d, t)).collect()).0
}

fn check(d: &ConfusionDomains, domain: &str) -> String {
    d.check_confusion_domain(&domain.to_string())
}

#[test]
fn confusion_records_skip_comments_and_report_conflicts() {
    let (d, conflicts) = prepare_confusion_domains(vec![
        rec("# comment", "ignored"),
        rec("a.com", "b.com"),
        rec("c.com", "d.com"),
        rec("a.com", "b.com"),
        rec("c.com", "e.com"),
    ]);
    assert_eq!(d.target(&"a.com".to_string()), Some("b.com".to_string()));
    assert_eq!(d.target(&"c.com".to_string()), Some("e.com".to_string()));
    assert_eq!(d.target(&"# comment".to_string()), None);
    assert_eq!(d.target(&"b.com".to_string()), None);
    assert_eq!(conflicts.len(), 1);
    assert_eq!(conflicts[0].domain, "c.com");
    assert_eq!(conflicts[0].existing, "d.com");
    assert_eq!(conflicts[0].replacement, "e.com");
}

#[test]
fn confusion_follows_chains() {
    let d = domains(&[("a", "b"), ("b", "c"), ("x", "y")]);
    assert_eq!(check(&d, "a"), "c");
    assert_eq!(check(&d, "b"), "c");
    assert_eq!(check(&d, "c"), "c");
    assert_eq!(check(&d, "x"), "y");
    assert_eq!(check(&d, "unknown"), "unknown");
    // following a second time changes nothing
    assert_eq!(check(&d, &check(&d, "a")), "c");
}

#[test]
fn confusion_long_chain_reaches_its_end() {
    let names: Vec<String> = (0..15).map(|i| format!("d{}", i)).collect();
    let pairs: Vec<(&str, &str)> = names.windows(2).map(|w| (w[0].as_str(), w[1].as_str())).collect();
    let d = domains(&pairs);
    assert_eq!(check(&d, "d0"), "d14");
    assert_eq!(check(&d, "d3"), "d14");
}

#[test]
fn confusion_cycle_through_domain_gives_domain() {
    let d = domains(&[("a", "b"), ("b", "a")]);
    assert_eq!(check(&d, "a"), "a");
    assert_eq!(check(&d, "b"), "b");
    let names: Vec<String> = (0..12).map(|i| format!("c{}", i)).collect();
    let mut pairs: Vec<(&str, &str)> = names.windows(2).map(|w| (w[0].as_str(), w[1].as_str())).collect();
    pairs.push(("c11", "c0"));
    let d = domains(&pairs);
    assert_eq!(check(&d, "c0"), "c0");
    assert_eq!(check(&d, "c5"), "c5");
}

#[test]
fn confusion_resolves() {
    let d = domains(&[("a", "b"), ("b", "c"), ("c", "b"), ("x", "x")]);
    assert!(!d.resolves(&"a".to_string()));
    assert!(d.resolves(&"b".to_string()));
    assert!(d.resolves(&"x".to_string()));
    assert!(d.resolves(&"other".to_string()));
    assert!(ConfusionDomains::new().resolves(&"a".to_string()));
}

#[test]
fn confusion_label_sequences() {
    let d = domains(&[("a.com", "b.com")]);
    let s = Sequence::new(vec![Size(1)], "s".to_string());
    let labelled = label_sequences(&d, vec![("a.com".to_string(), vec![s]), ("c.com".to_string(), vec![])]);
    assert_eq!(labelled.len(), 2);
    assert_eq!(labelled[0].true_domain, "a.com");
    assert_eq!(labelled[0].mapped_domain, "b.com");
    assert_eq!(labelled[0].sequences.len(), 1);
    assert_eq!(labelled[1].true_domain, "c.com");
    assert_eq!(labelled[1].mapped_domain, "c.com");
}

#[test]
fn resolves_tells_cycles_apart() {
    let mut domains = sequences::confusion::ConfusionDomains::new();
    // a -> b -> c ends at c; x -> y -> x is a cycle; d -> x runs into it
    for (d, t) in [("a", "b"), ("b", "c"), ("x", "y"), ("y", "x"), ("d", "x")] {
        domains.insert(d.to_string(), t.to_string());
    }
    assert!(domains.resolves(&"a".to_string()));
    assert!(domains.resolves(&"c".to_string()));
    assert!(domains.resolves(&"unknown".to_string()));
    assert!(domains.resolves(&"x".to_string()));
    assert!(domains.resolves(&"y".to_string()));
    assert!(!domains.resolves(&"d".to_string()));
}
