use join_proxy::fingerprint::RequestDescriptor;
use join_proxy::forwarder::build_upstream_request;
use join_proxy::tagger::{header_name, outcome_label, tag_response, Outcome};

fn b(s: &str) -> Vec<u8> {
    s.as_bytes().to_vec()
}

fn desc(path: &str, arg: &str, body: &str, host: &str, port: &str) -> RequestDescriptor {
    RequestDescriptor {
        path: b(path),
        argument: b(arg),
        body: b(body),
        host: b(host),
        port: b(port),
    }
}

fn contains(haystack: &[u8], needle: &[u8]) -> bool {
    haystack.windows(needle.len()).any(|w| w == needle)
}

#[test]
fn declared_host_is_forwarded_literally() {
    let r = build_upstream_request(&desc("/headers", "", "", "example.test", ""));
    assert!(contains(&r, b"host: example.test\n"));
    assert!(!contains(&r, b":443"));
}

#[test]
fn declared_host_with_port_is_forwarded_literally() {
    let r = build_upstream_request(&desc("/headers", "", "", "example.test", ":443"));
    assert!(contains(&r, b"host: example.test:443\n"));
}

#[test]
fn upstream_request_layout() {
    let r = build_upstream_request(&desc("/p", "q", "the-body", "example.test", ""));
    assert_eq!(r, b("/p?q\nhost: example.test\n\nthe-body"));
}

#[test]
fn outcome_labels_are_hit_and_miss() {
    assert_eq!(outcome_label(Outcome::Hit), "Hit");
    assert_eq!(outcome_label(Outcome::Miss), "Miss");
    assert_eq!(header_name(), "x-joinproxy-response");
}

#[test]
fn tagging_appends_and_changes_nothing_else() {
    let mut headers = vec![(String::from("content-type"), String::from("text/plain"))];
    tag_response(&mut headers, Outcome::Miss);
    assert_eq!(headers.len(), 2);
    assert_eq!(headers[0], (String::from("content-type"), String::from("text/plain")));
    assert_eq!(
        headers[1],
        (String::from("x-joinproxy-response"), String::from("Miss"))
    );
    tag_response(&mut headers, Outcome::Hit);
    assert_eq!(
        headers[2],
        (String::from("x-joinproxy-response"), String::from("Hit"))
    );
}
