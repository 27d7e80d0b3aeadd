//! Building the upstream request, with literal host forwarding.
//!
//! The forwarder's verified part turns a request descriptor into the bytes
//! sent upstream. The caller-declared host and `:port` suffix are carried
//! byte-for-byte — never rewritten — while the fingerprint may treat
//! equivalent forms as it is configured to; forwarding and keying are
//! independent concerns. Dispatching the bytes, the optional injected
//! delay, and turning connection failures into a [`crate::errors::FetchError`]
//! are the surrounding program's work.

use vstd::prelude::*;
use crate::bytes::append_bytes;
use crate::fingerprint::RequestDescriptor;

verus! {

/// The bytes of `"host: "`, which open the host line.
pub open spec fn host_prefix() -> Seq<u8> {
    seq![104u8, 111u8, 115u8, 116u8, 58u8, 32u8]
}

/// The host line of the upstream request: `"host: "`, the declared host,
/// the declared `:port` suffix, both literal.
pub open spec fn host_line(h: Seq<u8>, pt: Seq<u8>) -> Seq<u8> {
    host_prefix() + h + pt
}

/// The upstream request bytes: the path, `?`, the argument, a newline, the
/// host line, a blank line, and the body.
pub open spec fn upstream_request(
    p: Seq<u8>,
    a: Seq<u8>,
    h: Seq<u8>,
    pt: Seq<u8>,
    b: Seq<u8>,
) -> Seq<u8> {
    p + seq![63u8] + a + seq![10u8] + host_line(h, pt) + seq![10u8, 10u8] + b
}

/// Literal forwarding: in the built request, the span that follows the
/// request line is exactly `"host: "` followed by the declared host and
/// `:port` suffix, unmodified.
pub proof fn lemma_host_forwarded_literally(
    p: Seq<u8>,
    a: Seq<u8>,
    h: Seq<u8>,
    pt: Seq<u8>,
    b: Seq<u8>,
)
    ensures
        ({
            let r = upstream_request(p, a, h, pt, b);
            let start = p.len() + 2 + a.len();
            r.subrange(start as int, (start + 6 + h.len() + pt.len()) as int) == host_line(h, pt)
        }),
{
    let r = upstream_request(p, a, h, pt, b);
    let start = p.len() + 2 + a.len();
    assert(r.subrange(start as int, (start + 6 + h.len() + pt.len()) as int) =~= host_line(h, pt));
}

/// Builds the bytes of the one upstream request for a descriptor. The
/// declared host and `:port` suffix appear in them byte-for-byte.
pub fn build_upstream_request(d: &RequestDescriptor) -> (r: Vec<u8>)
    ensures
        r@ == upstream_request(d.path@, d.argument@, d.host@, d.port@, d.body@),
{
    let mut out: Vec<u8> = Vec::new();
    append_bytes(&mut out, &d.path);
    out.push(63u8);
    append_bytes(&mut out, &d.argument);
    out.push(10u8);
    out.push(104u8);
    out.push(111u8);
    out.push(115u8);
    out.push(116u8);
    out.push(58u8);
    out.push(32u8);
    append_bytes(&mut out, &d.host);
    append_bytes(&mut out, &d.port);
    out.push(10u8);
    out.push(10u8);
    append_bytes(&mut out, &d.body);
    proof {
        assert(out@ =~= upstream_request(d.path@, d.argument@, d.host@, d.port@, d.body@));
    }
    out
}

} // verus!
