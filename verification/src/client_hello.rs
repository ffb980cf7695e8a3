//! What a listener keeps of a client's first handshake message.
use std::sync::Arc;
use vstd::prelude::*;

verus! {

/// A number of two bytes, the high one first.
pub open spec fn be16(hi: u8, lo: u8) -> nat {
    hi as nat * 256 + lo as nat
}

/// A vector behind a length of one byte, and what follows it.
pub open spec fn vec8(b: Seq<u8>) -> Option<(Seq<u8>, Seq<u8>)> {
    if b.len() < 1 || b.len() < 1 + b[0] {
        None
    } else {
        Some((b.subrange(1, 1 + b[0]), b.skip(1 + b[0])))
    }
}

/// A vector behind a length of two bytes, and what follows it.
pub open spec fn vec16(b: Seq<u8>) -> Option<(Seq<u8>, Seq<u8>)> {
    if b.len() < 2 || b.len() < 2 + be16(b[0], b[1]) {
        None
    } else {
        let n = be16(b[0], b[1]) as int;
        Some((b.subrange(2, 2 + n), b.skip(2 + n)))
    }
}

/// How many bytes the version and the random take at the front of a body.
pub const FIXED_LEN: usize = 34;

/// What follows the compression methods of a ClientHello body: behind version
/// and random come the session id, the cipher suites and the compression
/// methods. Nothing for a body that ends before.
pub open spec fn after_compression(body: Seq<u8>) -> Option<Seq<u8>> {
    if body.len() < FIXED_LEN {
        None
    } else {
        match vec8(body.skip(FIXED_LEN as int)) {
            None => None,
            Some((session_id, b)) => match vec16(b) {
                None => None,
                Some((ciphers, c)) => match vec8(c) {
                    None => None,
                    Some((compression, d)) => Some(d),
                },
            },
        }
    }
}

/// The extensions block of a ClientHello body, without its length. A body may
/// end before it: then there are no extensions.
pub open spec fn extensions_of(body: Seq<u8>) -> Option<Seq<u8>> {
    match after_compression(body) {
        None => None,
        Some(d) => if d.len() == 0 {
            Some(seq![])
        } else {
            match vec16(d) {
                None => None,
                Some((extensions, rest)) => Some(extensions),
            }
        },
    }
}

/// Reads a vector behind a length of one byte.
fn read_vec8<'a>(b: &'a [u8]) -> (r: Option<(&'a [u8], &'a [u8])>)
    ensures
        match r {
            None => vec8(b@) is None,
            Some((v, rest)) => vec8(b@) == Some((v@, rest@)),
        },
{
    if b.len() < 1 {
        return None;
    }
    let n: usize = b[0] as usize;
    if n > b.len() - 1 {
        return None;
    }
    let v = vstd::slice::slice_subrange(b, 1, 1 + n);
    let rest = vstd::slice::slice_subrange(b, 1 + n, b.len());
    assert(rest@ =~= b@.skip(1 + n));
    Some((v, rest))
}

/// Reads a vector behind a length of two bytes.
fn read_vec16<'a>(b: &'a [u8]) -> (r: Option<(&'a [u8], &'a [u8])>)
    ensures
        match r {
            None => vec16(b@) is None,
            Some((v, rest)) => vec16(b@) == Some((v@, rest@)),
        },
{
    if b.len() < 2 {
        return None;
    }
    let n: usize = b[0] as usize * 256 + b[1] as usize;
    if n > b.len() - 2 {
        return None;
    }
    let v = vstd::slice::slice_subrange(b, 2, 2 + n);
    let rest = vstd::slice::slice_subrange(b, 2 + n, b.len());
    assert(rest@ =~= b@.skip(2 + n));
    Some((v, rest))
}

/// Calls `std::sync::Arc::from` on a slice: a shared copy of its bytes.
#[verifier::external_body]
fn shared_bytes(b: &[u8]) -> (r: Arc<[u8]>)
    ensures
        (*r)@ == b@,
{
    Arc::from(b)
}

/// Takes the extensions block out of a ClientHello body. Nothing for a body
/// that is malformed or cut short.
pub fn extract_extensions_bytes(body: &[u8]) -> (r: Option<Arc<[u8]>>)
    ensures
        match r {
            None => extensions_of(body@) is None,
            Some(extensions) => extensions_of(body@) == Some((*extensions)@),
        },
{
    if body.len() < FIXED_LEN {
        return None;
    }
    let after_fixed = vstd::slice::slice_subrange(body, FIXED_LEN, body.len());
    assert(after_fixed@ =~= body@.skip(FIXED_LEN as int));
    let (_, after_session) = match read_vec8(after_fixed) {
        Some(parts) => parts,
        None => return None,
    };
    let (_, after_ciphers) = match read_vec16(after_session) {
        Some(parts) => parts,
        None => return None,
    };
    let (_, after_comp) = match read_vec8(after_ciphers) {
        Some(parts) => parts,
        None => return None,
    };
    if after_comp.is_empty() {
        assert(after_comp@ =~= Seq::<u8>::empty());
        return Some(shared_bytes(after_comp));
    }
    match read_vec16(after_comp) {
        Some((extensions, _)) => Some(shared_bytes(extensions)),
        None => None,
    }
}

/// How many bytes the type and the length take in front of a handshake
/// message.
pub const HANDSHAKE_HEADER_LEN: usize = 4;

/// The type of a handshake message that is a ClientHello.
pub const CLIENT_HELLO: u8 = 1;

/// The body of a ClientHello, from the handshake message that it is. Nothing
/// for another message, or for one without a whole header.
pub fn client_hello_body(message: &[u8]) -> (r: Option<&[u8]>)
    ensures
        r is Some <==> message@.len() >= HANDSHAKE_HEADER_LEN && message@[0] == CLIENT_HELLO,
        r matches Some(body) ==> body@ == message@.skip(HANDSHAKE_HEADER_LEN as int),
{
    if message.len() < HANDSHAKE_HEADER_LEN || message[0] != CLIENT_HELLO {
        return None;
    }
    let body = vstd::slice::slice_subrange(message, HANDSHAKE_HEADER_LEN, message.len());
    assert(body@ =~= message@.skip(HANDSHAKE_HEADER_LEN as int));
    Some(body)
}

/// What a listener keeps of a ClientHello.
#[derive(Clone, Debug)]
pub struct TlsClientHello {
    pub legacy_version: u16,
    pub cipher_suites: Arc<[u8]>,
    pub sni: Option<String>,
    /// The extensions block, without its length.
    pub extensions: Arc<[u8]>,
}

/// The version that a body begins with.
pub fn legacy_version(body: &[u8]) -> (r: u16)
    ensures
        body@.len() >= 2 ==> r == be16(body@[0], body@[1]),
        body@.len() < 2 ==> r == 0,
{
    if body.len() >= 2 {
        body[0] as u16 * 256 + body[1] as u16
    } else {
        0
    }
}

/// Captures a ClientHello from its body, its cipher suites and the server
/// name that it asks for. A malformed body is not captured: what depends on
/// the extensions is then absent rather than wrong.
pub fn capture_client_hello(body: &[u8], ciphers: &[u8], sni: Option<&str>) -> (r: Option<
    TlsClientHello,
>)
    ensures
        r is Some <==> extensions_of(body@) is Some,
        r matches Some(hello) ==> {
            &&& hello.legacy_version == be16(body@[0], body@[1])
            &&& (*hello.cipher_suites)@ == ciphers@
            &&& (*hello.extensions)@ == extensions_of(body@)->0
            &&& hello.sni is Some <==> sni is Some
            &&& hello.sni matches Some(name) ==> name@ == sni->0@
        },
{
    match extract_extensions_bytes(body) {
        None => None,
        Some(extensions) => Some(
            TlsClientHello {
                legacy_version: legacy_version(body),
                cipher_suites: shared_bytes(ciphers),
                sni: match sni {
                    Some(name) => Some(name.to_owned()),
                    None => None,
                },
                extensions,
            },
        ),
    }
}

/// A vector of at most 255 bytes behind its length.
pub open spec fn with_len8(v: Seq<u8>) -> Seq<u8> {
    seq![v.len() as u8] + v
}

/// A vector of at most 65535 bytes behind its length.
pub open spec fn with_len16(v: Seq<u8>) -> Seq<u8> {
    seq![(v.len() / 256) as u8, (v.len() % 256) as u8] + v
}

proof fn lemma_vec8(v: Seq<u8>, rest: Seq<u8>)
    requires
        v.len() <= 255,
    ensures
        vec8(with_len8(v) + rest) == Some((v, rest)),
{
    let b = with_len8(v) + rest;
    assert(b.subrange(1, 1 + b[0]) =~= v);
    assert(b.skip(1 + b[0]) =~= rest);
}

proof fn lemma_vec16(v: Seq<u8>, rest: Seq<u8>)
    requires
        v.len() <= 65535,
    ensures
        vec16(with_len16(v) + rest) == Some((v, rest)),
{
    let b = with_len16(v) + rest;
    assert(be16(b[0], b[1]) == v.len());
    let n = v.len() as int;
    assert(b.subrange(2, 2 + n) =~= v);
    assert(b.skip(2 + n) =~= rest);
}

/// The body of a ClientHello, up to its extensions.
pub open spec fn hello_front(
    fixed: Seq<u8>,
    session_id: Seq<u8>,
    ciphers: Seq<u8>,
    compression: Seq<u8>,
) -> Seq<u8> {
    fixed + with_len8(session_id) + with_len16(ciphers) + with_len8(compression)
}

proof fn lemma_hello_front(
    fixed: Seq<u8>,
    session_id: Seq<u8>,
    ciphers: Seq<u8>,
    compression: Seq<u8>,
    rest: Seq<u8>,
)
    requires
        fixed.len() == FIXED_LEN,
        session_id.len() <= 255,
        ciphers.len() <= 65535,
        compression.len() <= 255,
    ensures
        after_compression(hello_front(fixed, session_id, ciphers, compression) + rest) == Some(
            rest,
        ),
{
    let body = hello_front(fixed, session_id, ciphers, compression) + rest;
    let c = with_len8(compression) + rest;
    let b = with_len16(ciphers) + c;
    assert(body.skip(FIXED_LEN as int) =~= with_len8(session_id) + b);
    lemma_vec8(session_id, b);
    lemma_vec16(ciphers, c);
    lemma_vec8(compression, rest);
}

/// The extensions that a client puts into a well-formed ClientHello are the
/// ones that are taken out of it, whatever its other fields hold.
pub proof fn law_extensions_round_trip(
    fixed: Seq<u8>,
    session_id: Seq<u8>,
    ciphers: Seq<u8>,
    compression: Seq<u8>,
    extensions: Seq<u8>,
)
    requires
        fixed.len() == FIXED_LEN,
        session_id.len() <= 255,
        ciphers.len() <= 65535,
        compression.len() <= 255,
        extensions.len() <= 65535,
    ensures
        extensions_of(
            hello_front(fixed, session_id, ciphers, compression) + with_len16(extensions),
        ) == Some(extensions),
        extensions_of(hello_front(fixed, session_id, ciphers, compression)) == Some(
            Seq::<u8>::empty(),
        ),
{
    let front = hello_front(fixed, session_id, ciphers, compression);
    let none = Seq::<u8>::empty();
    lemma_hello_front(fixed, session_id, ciphers, compression, with_len16(extensions));
    lemma_vec16(extensions, none);
    assert(with_len16(extensions) + none =~= with_len16(extensions));
    lemma_hello_front(fixed, session_id, ciphers, compression, none);
    assert(front + none =~= front);
}

/// A body that is cut short anywhere before the end of its extensions is
/// malformed, except right behind the compression methods.
pub proof fn law_truncated_hello(
    fixed: Seq<u8>,
    session_id: Seq<u8>,
    ciphers: Seq<u8>,
    compression: Seq<u8>,
    extensions: Seq<u8>,
    n: nat,
)
    requires
        fixed.len() == FIXED_LEN,
        session_id.len() <= 255,
        ciphers.len() <= 65535,
        compression.len() <= 255,
        extensions.len() <= 65535,
        n < (hello_front(fixed, session_id, ciphers, compression) + with_len16(extensions)).len(),
        n != hello_front(fixed, session_id, ciphers, compression).len(),
    ensures
        extensions_of(
            (hello_front(fixed, session_id, ciphers, compression) + with_len16(extensions)).take(
                n as int,
            ),
        ) is None,
{
    let front = hello_front(fixed, session_id, ciphers, compression);
    let whole = front + with_len16(extensions);
    let cut = whole.take(n as int);
    if n < front.len() {
        if n >= FIXED_LEN {
            let a = cut.skip(FIXED_LEN as int);
            let s1 = with_len8(session_id);
            if a.len() >= 1 {
                assert(a[0] == s1[0]);
                if a.len() >= s1.len() {
                    let b = a.skip(s1.len() as int);
                    let s2 = with_len16(ciphers);
                    if b.len() >= 2 {
                        assert(b[0] == s2[0]);
                        assert(b[1] == s2[1]);
                        assert(be16(b[0], b[1]) == ciphers.len());
                        if b.len() >= s2.len() {
                            let c = b.skip(s2.len() as int);
                            let s3 = with_len8(compression);
                            if c.len() >= 1 {
                                assert(c[0] == s3[0]);
                            }
                        }
                    }
                }
            }
        }
    } else {
        let d = with_len16(extensions).take(n - front.len());
        assert(cut =~= front + d);
        lemma_hello_front(fixed, session_id, ciphers, compression, d);
        if d.len() >= 2 {
            assert(d[0] == with_len16(extensions)[0]);
            assert(d[1] == with_len16(extensions)[1]);
            assert(be16(d[0], d[1]) == extensions.len());
        }
    }
}

/// A body whose extensions can be taken out is a whole ClientHello: its front
/// is well formed, and it ends there, without extensions, or goes on with the
/// block that is taken out and whatever follows that.
pub proof fn law_only_whole_hellos(body: Seq<u8>) -> (parts: (
    (Seq<u8>, Seq<u8>, Seq<u8>, Seq<u8>),
    Seq<u8>,
))
    requires
        extensions_of(body) is Some,
    ensures
        ({
            let ((fixed, session_id, ciphers, compression), rest) = parts;
            let front = hello_front(fixed, session_id, ciphers, compression);
            let extensions = extensions_of(body)->0;
            &&& fixed.len() == 34
            &&& session_id.len() <= 255
            &&& ciphers.len() <= 65535
            &&& compression.len() <= 255
            &&& extensions.len() <= 65535
            &&& (body == front && extensions.len() == 0) || body == front + with_len16(extensions)
                + rest
        }),
{
    let fixed = body.take(34);
    let a = body.skip(34);
    let (session_id, b) = vec8(a)->0;
    let (ciphers, c) = vec16(b)->0;
    let (compression, d) = vec8(c)->0;
    assert(a =~= with_len8(session_id) + b);
    lemma_with_len16(b);
    assert(c =~= with_len8(compression) + d);
    let front = hello_front(fixed, session_id, ciphers, compression);
    assert(body =~= front + d);
    if d.len() == 0 {
        assert(body =~= front);
        ((fixed, session_id, ciphers, compression), seq![])
    } else {
        let (extensions, rest) = vec16(d)->0;
        lemma_with_len16(d);
        assert(body =~= front + with_len16(extensions) + rest);
        ((fixed, session_id, ciphers, compression), rest)
    }
}

proof fn lemma_with_len16(b: Seq<u8>)
    requires
        vec16(b) is Some,
    ensures
        b == with_len16((vec16(b)->0).0) + (vec16(b)->0).1,
        (vec16(b)->0).0.len() <= 65535,
{
    let (v, rest) = vec16(b)->0;
    assert(v.len() == be16(b[0], b[1]));
    assert(b =~= with_len16(v) + rest);
}

/// Whatever follows the extensions block is not part of it.
pub proof fn law_rest_is_left_out(
    fixed: Seq<u8>,
    session_id: Seq<u8>,
    ciphers: Seq<u8>,
    compression: Seq<u8>,
    extensions: Seq<u8>,
    rest: Seq<u8>,
)
    requires
        fixed.len() == 34,
        session_id.len() <= 255,
        ciphers.len() <= 65535,
        compression.len() <= 255,
        extensions.len() <= 65535,
    ensures
        extensions_of(
            hello_front(fixed, session_id, ciphers, compression) + with_len16(extensions) + rest,
        ) == Some(extensions),
{
    let front = hello_front(fixed, session_id, ciphers, compression);
    lemma_hello_front(fixed, session_id, ciphers, compression, with_len16(extensions) + rest);
    lemma_vec16(extensions, rest);
    assert(front + with_len16(extensions) + rest =~= front + (with_len16(extensions) + rest));
}

/// Two bytes make a number, the high one first.
pub proof fn law_be16(hi: u8, lo: u8)
    ensures
        be16(hi, lo) == 256 * hi + lo,
{
}

} // verus!
