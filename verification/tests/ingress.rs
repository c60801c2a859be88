use cert_fixer::ingress::{collect_hostnames, Collected, Ingress, IngressRule, Skipped};

fn rule(host: Option<&str>) -> IngressRule {
    IngressRule { host: host.map(|h| h.to_string()) }
}

fn ingress(name: &str, rules: Option<Vec<IngressRule>>) -> Ingress {
    Ingress { name: name.to_string(), namespace: "default".to_string(), rules }
}

#[test]
fn malformed_ingress_is_skipped() {
    let found = collect_hostnames(&vec![
        ingress("broken", None),
        ingress("fine", Some(vec![rule(Some("a.example.com"))])),
    ]);
    assert_eq!(found.hostnames, vec!["a.example.com".to_string()]);
    assert_eq!(found.skipped, vec![Skipped::NoRules { ingress: 0 }]);
}

#[test]
fn hostnames_come_ingress_by_ingress_and_rule_by_rule() {
    let found = collect_hostnames(&vec![
        ingress("one", Some(vec![rule(Some("b")), rule(Some("a"))])),
        ingress("two", Some(vec![])),
        ingress("three", Some(vec![rule(Some("c"))])),
    ]);
    assert_eq!(found.hostnames, vec!["b".to_string(), "a".to_string(), "c".to_string()]);
    assert!(found.skipped.is_empty());
}

#[test]
fn rule_without_host_is_skipped_and_the_rest_is_read() {
    let found = collect_hostnames(&vec![
        ingress("one", Some(vec![rule(None), rule(Some("a")), rule(None)])),
        ingress("two", None),
        ingress("three", Some(vec![rule(Some("b")), rule(None)])),
    ]);
    assert_eq!(found.hostnames, vec!["a".to_string(), "b".to_string()]);
    assert_eq!(
        found.skipped,
        vec![
            Skipped::NoHost { ingress: 0, rule: 0 },
            Skipped::NoHost { ingress: 0, rule: 2 },
            Skipped::NoRules { ingress: 1 },
            Skipped::NoHost { ingress: 2, rule: 1 },
        ]
    );
}

#[test]
fn hostname_declared_twice_stands_twice() {
    let found = collect_hostnames(&vec![
        ingress("one", Some(vec![rule(Some("a"))])),
        ingress("two", Some(vec![rule(Some("a"))])),
    ]);
    assert_eq!(found.hostnames, vec!["a".to_string(), "a".to_string()]);
}

#[test]
fn no_ingresses_give_no_hostnames() {
    assert_eq!(
        collect_hostnames(&vec![]),
        Collected { hostnames: vec![], skipped: vec![] }
    );
}
