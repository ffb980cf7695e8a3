use pingora_core::alpn::{
    h1_only, h2_only, prefer_h2, select_protocol, valid_alpn, walk_stays_within, AlpnError,
    CustomALPN, ALPN,
};
use pingora_core::client_hello::{
    capture_client_hello, client_hello_body, extract_extensions_bytes, legacy_version,
};
use pingora_core::tls_settings::{
    Acceptor, AlpnReply, AlpnSelect, ErrorType, LoadFailure, ServerConf, TlsSettings,
};

/// Settings with stand-ins for the acceptor, the callbacks and the check.
type Settings = TlsSettings<u8, &'static str, char>;

const H2: &[u8] = b"\x02h2";
const H1: &[u8] = b"\x08http/1.1";
const BOTH: &[u8] = b"\x08http/1.1\x02h2";
const OTHER: &[u8] = b"\x05other";
/// A list whose last entry is longer than what is left.
const CUT: &[u8] = b"\x01a\x05ab";

#[test]
fn wire_preferences() {
    assert_eq!(ALPN::H1.to_wire_preference(), b"\x08http/1.1");
    assert_eq!(ALPN::H2.to_wire_preference(), b"\x02h2");
    assert_eq!(ALPN::H2H1.to_wire_preference(), b"\x02h2\x08http/1.1");
    let custom = CustomALPN::new(b"foo");
    assert_eq!(custom.protocol(), b"foo");
    assert_eq!(custom.as_wire(), b"\x03foo");
    assert_eq!(ALPN::Custom(custom).to_wire_preference(), b"\x03foo");
}

#[test]
fn empty_offer_is_not_valid() {
    assert!(!valid_alpn(b""));
    assert!(valid_alpn(b"\x00"));
}

#[test]
fn h2_is_preferred_whatever_the_client_prefers() {
    assert_eq!(prefer_h2(BOTH), Ok(&b"h2"[..]));
    assert_eq!(prefer_h2(H2), Ok(&b"h2"[..]));
    assert_eq!(prefer_h2(H1), Ok(&b"http/1.1"[..]));
    assert_eq!(prefer_h2(OTHER), Err(AlpnError::NoAck));
    assert_eq!(prefer_h2(b""), Err(AlpnError::NoAck));
}

#[test]
fn h1_alone() {
    assert_eq!(h1_only(BOTH), Ok(&b"http/1.1"[..]));
    assert_eq!(h1_only(H1), Ok(&b"http/1.1"[..]));
    assert_eq!(h1_only(H2), Err(AlpnError::NoAck));
    assert_eq!(h1_only(b""), Err(AlpnError::NoAck));
}

#[test]
fn h2_alone_ends_the_handshake_without_it() {
    assert_eq!(h2_only(BOTH), Ok(&b"h2"[..]));
    assert_eq!(h2_only(H2), Ok(&b"h2"[..]));
    assert_eq!(h2_only(H1), Err(AlpnError::AlertFatal));
    assert_eq!(h2_only(b""), Err(AlpnError::AlertFatal));
}

#[test]
fn protocol_is_found_in_the_offer() {
    let found = select_protocol(BOTH, b"h2").unwrap();
    assert_eq!(found, b"h2");
    // It is the client's own entry.
    assert_eq!(found.as_ptr(), BOTH[10..].as_ptr());
    assert_eq!(select_protocol(BOTH, b"http/1.1"), Some(&b"http/1.1"[..]));
    assert_eq!(select_protocol(BOTH, b"h"), None);
    assert_eq!(select_protocol(b"", b"h2"), None);
    assert_eq!(select_protocol(b"\x00\x02h2", b"h2"), Some(&b"h2"[..]));
}

#[test]
fn entry_behind_the_end_is_noticed() {
    assert!(walk_stays_within(CUT, b"a"));
    assert!(!walk_stays_within(CUT, b"b"));
    assert!(walk_stays_within(BOTH, b"zzz"));
    assert_eq!(select_protocol(CUT, b"a"), Some(&b"a"[..]));
}

fn settings() -> Settings {
    TlsSettings::from(7u8)
}

/// The answer of the settings to an offer.
fn answer(settings: Settings, offer: &'static [u8]) -> Option<Result<&'static [u8], AlpnError>> {
    let (_, select, _) = settings.build();
    assert!(select.can_read(offer));
    match select.select(offer) {
        AlpnReply::NotNegotiated => None,
        AlpnReply::Answer(a) => Some(a),
        AlpnReply::AskCheck => panic!("no check was set"),
    }
}

#[test]
fn h2_is_off_by_default() {
    assert_eq!(answer(settings(), BOTH), None);
}

#[test]
fn alpn_settings_select_as_named() {
    let mut s = settings();
    s.enable_h2();
    assert_eq!(answer(s, BOTH), Some(Ok(&b"h2"[..])));
    let mut s = settings();
    s.set_alpn(ALPN::H2H1);
    assert_eq!(answer(s, H1), Some(Ok(&b"http/1.1"[..])));
    let mut s = settings();
    s.set_alpn(ALPN::H1);
    assert_eq!(answer(s, H2), Some(Err(AlpnError::NoAck)));
    let mut s = settings();
    s.set_alpn(ALPN::H2);
    assert_eq!(answer(s, H1), Some(Err(AlpnError::AlertFatal)));
    let mut s = settings();
    s.set_alpn(ALPN::Custom(CustomALPN::new(b"other")));
    assert_eq!(answer(s, OTHER), Some(Ok(&b"other"[..])));
    let mut s = settings();
    s.set_alpn(ALPN::Custom(CustomALPN::new(b"other")));
    assert_eq!(answer(s, BOTH), Some(Err(AlpnError::NoAck)));
    let mut s = settings();
    s.set_alpn(ALPN::Custom(CustomALPN::new(b"other")));
    assert_eq!(answer(s, b""), Some(Err(AlpnError::NoAck)));
}

#[test]
fn offer_that_runs_over_cannot_be_read() {
    let select: AlpnSelect<char> = AlpnSelect::Custom(CustomALPN::new(b"b"));
    assert!(!select.can_read(CUT));
    let select: AlpnSelect<char> = AlpnSelect::PreferH2;
    assert!(select.can_read(CUT));
}

#[test]
fn checks_take_the_place_of_h2_answers() {
    let mut s = settings();
    s.enable_h2_with_http2_check('a', 'b');
    assert!(matches!(s.alpn, AlpnSelect::Checked('a')));
    assert!(matches!(s.alpn.select(BOTH), AlpnReply::AskCheck));
    s.set_alpn_with_http2_check(ALPN::H2, 'a', 'b');
    assert!(matches!(s.alpn, AlpnSelect::Checked('b')));
    s.set_alpn_with_http2_check(ALPN::H1, 'a', 'b');
    assert!(matches!(s.alpn, AlpnSelect::H1Only));
    s.set_alpn_with_http2_check(ALPN::Custom(CustomALPN::new(b"x")), 'a', 'b');
    assert!(matches!(s.alpn, AlpnSelect::Custom(_)));
}

#[test]
fn load_errors_name_what_failed() {
    let load = |loaded: Result<u8, (LoadFailure, i32)>| {
        Settings::intermediate(loaded, "/etc/cert.pem", "/etc/key.pem")
    };
    let s = load(Ok(9)).ok().unwrap();
    assert_eq!(s.accept_builder, 9);
    assert!(s.callbacks.is_none());
    assert_eq!(s.offload_threadpool, None);
    for (failure, context) in [
        (
            LoadFailure::Acceptor,
            "fail to create mozilla_intermediate_v5 Acceptor",
        ),
        (
            LoadFailure::PrivateKey,
            "fail to read key file /etc/key.pem",
        ),
        (
            LoadFailure::CertificateChain,
            "fail to read cert file /etc/cert.pem",
        ),
    ] {
        let e = load(Err((failure, 17))).err().unwrap();
        assert_eq!(e.cause, 17);
        assert_eq!(e.etype, ErrorType::TLSConfigError);
        assert_eq!(e.context, context);
    }
}

#[test]
fn callbacks_are_kept() {
    let s = Settings::with_callbacks(Ok::<u8, i32>(1), "cb").ok().unwrap();
    let (builder, _, acceptor) = s.build();
    assert_eq!(builder, 1);
    assert_eq!(acceptor.callbacks, Some("cb"));
    assert!(acceptor.tls_handshake(3).with_callback);
    let e = Settings::with_callbacks(Err(18), "cb").err().unwrap();
    assert_eq!(e.cause, 18);
    assert_eq!(e.etype, ErrorType::TLSConfigError);
    assert_eq!(e.context, "fail to create mozilla_intermediate_v5 Acceptor");
}

#[test]
fn offload_follows_the_server_conf() {
    let conf = |pools, threads| ServerConf {
        downstream_tls_offload_threadpools: pools,
        downstream_tls_offload_thread_per_pool: threads,
    };
    for (c, pool) in [
        (conf(Some(2), Some(3)), Some((2, 3))),
        (conf(None, Some(3)), None),
        (conf(Some(2), None), None),
        (conf(Some(0), Some(3)), None),
        (conf(Some(2), Some(0)), None),
        (conf(None, None), None),
    ] {
        assert_eq!(c.downstream_tls_offload_threadpool(), pool);
        let mut s = settings();
        s.set_offload_threadpool_from_server_conf(&c);
        assert_eq!(s.offload_threadpool, pool);
    }
    let mut s = settings();
    s.set_offload_threadpool(4, 1);
    s.set_offload_threadpool_from_server_conf(&conf(None, None));
    assert_eq!(s.offload_threadpool, Some((4, 1)));
}

#[test]
fn handshakes_are_offloaded_by_connection_id() {
    let mut s = settings();
    s.set_offload_threadpool(2, 1);
    let (_, _, acceptor) = s.build();
    let route = acceptor.tls_handshake(41);
    assert_eq!(route.offload_key, Some(41));
    assert!(!route.with_callback);
    let plain: Acceptor<()> = Acceptor {
        callbacks: None,
        offload: None,
    };
    assert_eq!(plain.tls_handshake(41).offload_key, None);
    let e = Acceptor::<()>::offload_failure("join");
    assert_eq!(e.cause, "join");
    assert_eq!(e.etype, ErrorType::InternalError);
    assert_eq!(e.context, "TLS offload runtime failure");
}

/// A ClientHello body: version 0x0303, a session id of three bytes, two cipher
/// suites and one compression method; then `tail`.
fn hello(tail: &[u8]) -> Vec<u8> {
    let mut body = vec![3, 3];
    body.extend_from_slice(&[0xaa; 32]);
    body.extend_from_slice(&[3, 1, 2, 3]);
    body.extend_from_slice(&[0, 4, 0x13, 0x01, 0x13, 0x02]);
    body.extend_from_slice(&[1, 0]);
    body.extend_from_slice(tail);
    body
}

#[test]
fn extensions_are_taken_out_of_the_body() {
    let body = hello(&[0, 5, 0, 23, 0, 1, 9]);
    let ext = extract_extensions_bytes(&body).unwrap();
    assert_eq!(&ext[..], &[0, 23, 0, 1, 9]);
    // What follows the block is not part of it.
    let body = hello(&[0, 1, 7, 8, 9]);
    assert_eq!(&extract_extensions_bytes(&body).unwrap()[..], &[7]);
}

#[test]
fn long_extensions_block() {
    let mut tail = vec![1, 2];
    tail.extend_from_slice(&[5; 258]);
    let body = hello(&tail);
    assert_eq!(extract_extensions_bytes(&body).unwrap().len(), 258);
}

#[test]
fn body_without_extensions() {
    assert_eq!(extract_extensions_bytes(&hello(&[])).unwrap().len(), 0);
    assert_eq!(extract_extensions_bytes(&hello(&[0, 0])).unwrap().len(), 0);
}

#[test]
fn body_cut_short_anywhere_is_malformed() {
    let body = hello(&[0, 5, 0, 23, 0, 1, 9]);
    let front = hello(&[]).len();
    for n in 0..body.len() {
        assert_eq!(
            extract_extensions_bytes(&body[..n]).is_some(),
            n == front,
            "{}",
            n
        );
    }
}

#[test]
fn body_of_the_handshake_message() {
    assert_eq!(client_hello_body(&[1, 0, 0, 2, 3, 3]), Some(&[3, 3][..]));
    assert_eq!(client_hello_body(&[1, 0, 0, 0]), Some(&[][..]));
    assert_eq!(client_hello_body(&[2, 0, 0, 2, 3, 3]), None);
    assert_eq!(client_hello_body(&[1, 0, 0]), None);
    assert_eq!(client_hello_body(&[]), None);
}

#[test]
fn version_of_the_body() {
    assert_eq!(legacy_version(&hello(&[])), 0x0303);
    assert_eq!(legacy_version(&[3, 1]), 0x0301);
    assert_eq!(legacy_version(&[3]), 0);
    assert_eq!(legacy_version(&[]), 0);
}

#[test]
fn client_hello_is_captured() {
    let body = hello(&[0, 2, 8, 9]);
    let ciphers = [0x13, 0x01, 0x13, 0x02];
    let captured = capture_client_hello(&body, &ciphers, Some("example.org")).unwrap();
    assert_eq!(captured.legacy_version, 0x0303);
    assert_eq!(&captured.cipher_suites[..], &ciphers);
    assert_eq!(captured.sni, Some("example.org".to_string()));
    assert_eq!(&captured.extensions[..], &[8, 9]);
    let captured = capture_client_hello(&body, &ciphers, None).unwrap();
    assert_eq!(captured.sni, None);
    assert!(capture_client_hello(&body[..49], &ciphers, None).is_none());
}
