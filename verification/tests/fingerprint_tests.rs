use join_proxy::fingerprint::{fingerprint, RequestDescriptor};

fn b(s: &str) -> Vec<u8> {
    s.as_bytes().to_vec()
}

fn desc(path: &str, arg: &str, body: &str, host: &str, port: &str) -> RequestDescriptor {
    RequestDescriptor {
        path: b(path),
        argument: b(arg),
        body: b(body),
        host: b(host),
        port: b(port),
    }
}

#[test]
fn identical_requests_share_a_key() {
    let k1 = fingerprint(&desc("/same", "x", "y", "example.test", ""));
    let k2 = fingerprint(&desc("/same", "x", "y", "example.test", ""));
    assert_eq!(k1, k2);
}

#[test]
fn key_discrimination_steps() {
    // varying path, then argument, then body must each change the key
    let k0 = fingerprint(&desc("/a", "b", "c", "example.test", ""));
    let k1 = fingerprint(&desc("/ax", "b", "c", "example.test", ""));
    let k2 = fingerprint(&desc("/ax", "bx", "c", "example.test", ""));
    let k3 = fingerprint(&desc("/ax", "bx", "cx", "example.test", ""));
    let keys = [&k0, &k1, &k2, &k3];
    for i in 0..keys.len() {
        for j in 0..keys.len() {
            if i != j {
                assert_ne!(keys[i], keys[j]);
            }
        }
    }
}

#[test]
fn no_false_hit_from_shifted_component_boundaries() {
    // same bytes overall, split differently between the components
    let k1 = fingerprint(&desc("/ab", "c", "", "example.test", ""));
    let k2 = fingerprint(&desc("/a", "bc", "", "example.test", ""));
    assert_ne!(k1, k2);
    let k3 = fingerprint(&desc("/a", "b", "c", "example.test", ""));
    let k4 = fingerprint(&desc("/a", "", "bc", "example.test", ""));
    assert_ne!(k3, k4);
}

#[test]
fn declared_port_distinguishes_keys() {
    let bare = fingerprint(&desc("/h", "", "", "example.test", ""));
    let with_port = fingerprint(&desc("/h", "", "", "example.test", ":443"));
    assert_ne!(bare, with_port);
}

#[test]
fn host_distinguishes_keys() {
    let k1 = fingerprint(&desc("/h", "", "", "one.test", ""));
    let k2 = fingerprint(&desc("/h", "", "", "two.test", ""));
    assert_ne!(k1, k2);
}

#[test]
fn key_layout_is_length_prefixed() {
    // one concrete key, written out: 8 big-endian length bytes per
    // component, then the component's bytes
    let k = fingerprint(&desc("/a", "b", "", "h", ""));
    let mut expected: Vec<u8> = Vec::new();
    for part in [b("/a"), b("b"), b(""), b("h")] {
        expected.extend_from_slice(&(part.len() as u64).to_be_bytes());
        expected.extend_from_slice(&part);
    }
    assert_eq!(k, expected);
}
