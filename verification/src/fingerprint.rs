//! The request fingerprint: a deterministic key derived from a request's
//! identity.
//!
//! A request is identified by its path, its argument (query), its body, and
//! the target host with an optional `:port` suffix. The key is the
//! concatenation of the four components, each prefixed with its length in
//! eight big-endian bytes. Length prefixing makes the encoding unambiguous:
//! two requests produce the same key exactly when all four components are
//! byte-identical, so independently varying any one of them changes the key.

use vstd::prelude::*;
use crate::bytes::append_bytes;

verus! {

/// A request's identity as the core sees it: plain byte strings. `port`
/// holds the declared `:port` suffix, or nothing when no port was declared.
pub struct RequestDescriptor {
    pub path: Vec<u8>,
    pub argument: Vec<u8>,
    pub body: Vec<u8>,
    pub host: Vec<u8>,
    pub port: Vec<u8>,
}

/// The eight big-endian bytes of `n`.
pub open spec fn u64_be(n: u64) -> Seq<u8> {
    seq![
        (n >> 56) as u8,
        (n >> 48) as u8,
        (n >> 40) as u8,
        (n >> 32) as u8,
        (n >> 24) as u8,
        (n >> 16) as u8,
        (n >> 8) as u8,
        n as u8,
    ]
}

/// A field of the key: its length in eight big-endian bytes, then its bytes.
pub open spec fn length_prefixed(s: Seq<u8>) -> Seq<u8> {
    u64_be(s.len() as u64) + s
}

/// The key of a request: its four length-prefixed components, concatenated.
/// The host component is the declared host followed by the declared `:port`
/// suffix, both literal.
pub open spec fn fingerprint_spec(p: Seq<u8>, a: Seq<u8>, b: Seq<u8>, h: Seq<u8>) -> Seq<u8> {
    length_prefixed(p) + length_prefixed(a) + length_prefixed(b) + length_prefixed(h)
}

/// Two numbers with the same big-endian bytes are equal.
proof fn lemma_u64_be_injective(x: u64, y: u64)
    requires
        u64_be(x) == u64_be(y),
    ensures
        x == y,
{
    assert(u64_be(x)[0] == u64_be(y)[0]);
    assert(u64_be(x)[1] == u64_be(y)[1]);
    assert(u64_be(x)[2] == u64_be(y)[2]);
    assert(u64_be(x)[3] == u64_be(y)[3]);
    assert(u64_be(x)[4] == u64_be(y)[4]);
    assert(u64_be(x)[5] == u64_be(y)[5]);
    assert(u64_be(x)[6] == u64_be(y)[6]);
    assert(u64_be(x)[7] == u64_be(y)[7]);
    assert((x >> 56) as u8 == (y >> 56) as u8 && (x >> 48) as u8 == (y >> 48) as u8 && (x >> 40)
        as u8 == (y >> 40) as u8 && (x >> 32) as u8 == (y >> 32) as u8 && (x >> 24) as u8 == (y
        >> 24) as u8 && (x >> 16) as u8 == (y >> 16) as u8 && (x >> 8) as u8 == (y >> 8) as u8 && x
        as u8 == y as u8 ==> x == y) by (bit_vector);
}

/// A length-prefixed field determines itself and whatever follows it:
/// if two length-prefixed encodings agree once arbitrary suffixes are
/// appended, the fields agree and so do the suffixes.
proof fn lemma_length_prefixed_unambiguous(a: Seq<u8>, b: Seq<u8>, r1: Seq<u8>, r2: Seq<u8>)
    requires
        a.len() <= u64::MAX,
        b.len() <= u64::MAX,
        length_prefixed(a) + r1 == length_prefixed(b) + r2,
    ensures
        a == b,
        r1 == r2,
{
    let x = length_prefixed(a) + r1;
    let y = length_prefixed(b) + r2;
    assert(u64_be(a.len() as u64).len() == 8);
    assert(u64_be(b.len() as u64).len() == 8);
    assert(u64_be(a.len() as u64) =~= x.subrange(0, 8));
    assert(u64_be(b.len() as u64) =~= y.subrange(0, 8));
    lemma_u64_be_injective(a.len() as u64, b.len() as u64);
    assert(a.len() == b.len());
    let n = a.len() as int;
    assert(a =~= x.subrange(8, 8 + n));
    assert(b =~= y.subrange(8, 8 + n));
    assert(a == b);
    assert(r1 =~= x.subrange(8 + n, x.len() as int));
    assert(r2 =~= y.subrange(8 + n, y.len() as int));
}

/// Key discrimination: two requests have the same key exactly when path,
/// argument, body and declared host[:port] are all byte-identical; varying
/// any one of them independently changes the key.
pub proof fn lemma_fingerprint_discriminates(
    p1: Seq<u8>,
    a1: Seq<u8>,
    b1: Seq<u8>,
    h1: Seq<u8>,
    p2: Seq<u8>,
    a2: Seq<u8>,
    b2: Seq<u8>,
    h2: Seq<u8>,
)
    requires
        p1.len() <= u64::MAX,
        a1.len() <= u64::MAX,
        b1.len() <= u64::MAX,
        h1.len() <= u64::MAX,
        p2.len() <= u64::MAX,
        a2.len() <= u64::MAX,
        b2.len() <= u64::MAX,
        h2.len() <= u64::MAX,
    ensures
        fingerprint_spec(p1, a1, b1, h1) == fingerprint_spec(p2, a2, b2, h2) <==> (p1 == p2 && a1
            == a2 && b1 == b2 && h1 == h2),
{
    if fingerprint_spec(p1, a1, b1, h1) == fingerprint_spec(p2, a2, b2, h2) {
        let t1 = length_prefixed(a1) + length_prefixed(b1) + length_prefixed(h1);
        let t2 = length_prefixed(a2) + length_prefixed(b2) + length_prefixed(h2);
        assert(length_prefixed(p1) + t1 =~= fingerprint_spec(p1, a1, b1, h1));
        assert(length_prefixed(p2) + t2 =~= fingerprint_spec(p2, a2, b2, h2));
        lemma_length_prefixed_unambiguous(p1, p2, t1, t2);
        let u1 = length_prefixed(b1) + length_prefixed(h1);
        let u2 = length_prefixed(b2) + length_prefixed(h2);
        assert(length_prefixed(a1) + u1 =~= t1);
        assert(length_prefixed(a2) + u2 =~= t2);
        lemma_length_prefixed_unambiguous(a1, a2, u1, u2);
        lemma_length_prefixed_unambiguous(b1, b2, length_prefixed(h1), length_prefixed(h2));
        lemma_length_prefixed_unambiguous(h1, h2, Seq::<u8>::empty(), Seq::<u8>::empty());
    }
}

/// Appends the eight big-endian bytes of `n` to `out`.
fn push_u64_be(out: &mut Vec<u8>, n: u64)
    ensures
        final(out)@ == old(out)@ + u64_be(n),
{
    out.push((n >> 56) as u8);
    out.push((n >> 48) as u8);
    out.push((n >> 40) as u8);
    out.push((n >> 32) as u8);
    out.push((n >> 24) as u8);
    out.push((n >> 16) as u8);
    out.push((n >> 8) as u8);
    out.push(n as u8);
    proof {
        assert(out@ =~= old(out)@ + u64_be(n));
    }
}

/// Appends the length-prefixed bytes of `src` to `out`.
fn push_field(out: &mut Vec<u8>, src: &Vec<u8>)
    ensures
        final(out)@ == old(out)@ + length_prefixed(src@),
{
    push_u64_be(out, src.len() as u64);
    append_bytes(out, src);
    proof {
        assert(out@ =~= old(out)@ + length_prefixed(src@));
    }
}

/// Derives the deterministic key of a request: the length-prefixed path,
/// argument, body, and declared host[:port], concatenated. Equal keys mean
/// byte-identical request identities.
pub fn fingerprint(d: &RequestDescriptor) -> (r: Vec<u8>)
    ensures
        r@ == fingerprint_spec(d.path@, d.argument@, d.body@, d.host@ + d.port@),
{
    let mut out: Vec<u8> = Vec::new();
    push_field(&mut out, &d.path);
    push_field(&mut out, &d.argument);
    push_field(&mut out, &d.body);
    let mut hostport: Vec<u8> = Vec::new();
    append_bytes(&mut hostport, &d.host);
    append_bytes(&mut hostport, &d.port);
    push_field(&mut out, &hostport);
    proof {
        assert(out@ =~= fingerprint_spec(d.path@, d.argument@, d.body@, d.host@ + d.port@));
    }
    out
}

} // verus!
