//! The TLS settings of a listening endpoint, and how it carries out
//! handshakes.
use crate::alpn::{
    custom_only, h1_only, h2_only, prefer_h2, AlpnError, CustomALPN, ALPN,
};
use crate::alpn;
use vstd::prelude::*;

verus! {

/// What kind of thing went wrong.
#[derive(Clone, Copy, Debug, PartialEq, Eq, Structural)]
pub enum ErrorType {
    /// The TLS configuration cannot be used.
    TLSConfigError,
    /// Something of the server's own failed.
    InternalError,
}

/// An error, with what was being done when it came and what brought it about.
#[derive(Clone, Debug)]
pub struct Error<E> {
    pub etype: ErrorType,
    pub context: String,
    pub cause: E,
}

/// At which step the settings could not be loaded.
#[derive(Clone, Copy, Debug, PartialEq, Eq, Structural)]
pub enum LoadFailure {
    /// No acceptor could be made.
    Acceptor,
    /// The private key is invalid or not found.
    PrivateKey,
    /// The certificate chain is invalid or not found.
    CertificateChain,
}

/// The settings of a server that bear on TLS handshakes.
#[derive(Clone, Copy, Debug, PartialEq, Eq)]
pub struct ServerConf {
    /// Into how many shards connections are partitioned.
    pub downstream_tls_offload_threadpools: Option<usize>,
    /// How many single-threaded runtimes serve one shard.
    pub downstream_tls_offload_thread_per_pool: Option<usize>,
}

impl ServerConf {
    /// Both settings of the handshake offload, where both are set and neither
    /// is zero.
    pub open spec fn offload(&self) -> Option<(usize, usize)> {
        match (
            self.downstream_tls_offload_threadpools,
            self.downstream_tls_offload_thread_per_pool,
        ) {
            (Some(shards), Some(threads)) => if shards != 0 && threads != 0 {
                Some((shards, threads))
            } else {
                None
            },
            _ => None,
        }
    }

    /// Both settings of the handshake offload, where both are set and neither
    /// is zero.
    pub fn downstream_tls_offload_threadpool(&self) -> (r: Option<(usize, usize)>)
        ensures
            r == self.offload(),
    {
        match self.downstream_tls_offload_threadpools {
            Some(shards) => match self.downstream_tls_offload_thread_per_pool {
                Some(threads) => if shards != 0 && threads != 0 {
                    Some((shards, threads))
                } else {
                    None
                },
                None => None,
            },
            None => None,
        }
    }
}

/// How an endpoint answers the protocols that a client offers. `K` is a check
/// that the application brings along.
pub enum AlpnSelect<K> {
    /// It does not negotiate.
    Unset,
    PreferH2,
    H1Only,
    H2Only,
    Custom(CustomALPN),
    /// The application's check answers.
    Checked(K),
}

/// An endpoint's answer to the protocols that a client offers.
pub enum AlpnReply<'a> {
    /// None: the endpoint does not negotiate.
    NotNegotiated,
    /// This one.
    Answer(Result<&'a [u8], AlpnError>),
    /// The one that the application's check gives.
    AskCheck,
}

impl<K> AlpnSelect<K> {
    /// A protocol of the application's own is well formed.
    pub open spec fn wf(&self) -> bool {
        self matches AlpnSelect::Custom(custom) ==> custom.wf()
    }

    /// The entries of an offer that a protocol of the application's own is
    /// looked for in lie within the offer.
    pub open spec fn readable(&self, alpn_in: Seq<u8>) -> bool {
        self matches AlpnSelect::Custom(custom) ==> !(alpn::walk(alpn_in, custom.name())
            is Overrun)
    }

    /// Whether an offer can be answered.
    pub fn can_read(&self, alpn_in: &[u8]) -> (r: bool)
        requires
            self.wf(),
        ensures
            r == self.readable(alpn_in@),
    {
        match self {
            AlpnSelect::Custom(custom) => alpn::walk_stays_within(alpn_in, custom.protocol()),
            _ => true,
        }
    }

    /// Answers the protocols that a client offers.
    pub fn select<'a>(&self, alpn_in: &'a [u8]) -> (r: AlpnReply<'a>)
        requires
            self.wf(),
            self.readable(alpn_in@),
        ensures
            match self {
                AlpnSelect::Unset => r is NotNegotiated,
                AlpnSelect::PreferH2 => r matches AlpnReply::Answer(a) && (alpn::is_offer(alpn_in@)
                    ==> alpn::answers(
                    a,
                    alpn::first_common(
                        seq![alpn::h2(), alpn::http11()],
                        alpn::protocols(alpn_in@)->0,
                    ),
                    AlpnError::NoAck,
                )) && (alpn_in@.len() > 0 ==> alpn::library_answered(
                    seq![alpn::h2(), alpn::http11()],
                    alpn_in,
                    a,
                    AlpnError::NoAck,
                )) && (a matches Err(e) ==> e == AlpnError::NoAck),
                AlpnSelect::H1Only => r matches AlpnReply::Answer(a) && (alpn::is_offer(alpn_in@)
                    ==> alpn::answers(
                    a,
                    alpn::first_common(seq![alpn::http11()], alpn::protocols(alpn_in@)->0),
                    AlpnError::NoAck,
                )) && (alpn_in@.len() > 0 ==> alpn::library_answered(
                    seq![alpn::http11()],
                    alpn_in,
                    a,
                    AlpnError::NoAck,
                )) && (a matches Err(e) ==> e == AlpnError::NoAck),
                AlpnSelect::H2Only => r matches AlpnReply::Answer(a) && (alpn::is_offer(alpn_in@)
                    ==> alpn::answers(
                    a,
                    alpn::first_common(seq![alpn::h2()], alpn::protocols(alpn_in@)->0),
                    AlpnError::AlertFatal,
                )) && (alpn_in@.len() > 0 ==> alpn::library_answered(
                    seq![alpn::h2()],
                    alpn_in,
                    a,
                    AlpnError::AlertFatal,
                )) && (a matches Err(e) ==> e == AlpnError::AlertFatal),
                AlpnSelect::Custom(custom) => r matches AlpnReply::Answer(a) && alpn::answers(
                    a,
                    if alpn::walk(alpn_in@, custom.name()) is Found {
                        Some(custom.name())
                    } else {
                        None
                    },
                    AlpnError::NoAck,
                ),
                AlpnSelect::Checked(k) => r is AskCheck,
            },
    {
        match self {
            AlpnSelect::Unset => AlpnReply::NotNegotiated,
            AlpnSelect::PreferH2 => AlpnReply::Answer(prefer_h2(alpn_in)),
            AlpnSelect::H1Only => AlpnReply::Answer(h1_only(alpn_in)),
            AlpnSelect::H2Only => AlpnReply::Answer(h2_only(alpn_in)),
            AlpnSelect::Custom(custom) => AlpnReply::Answer(custom_only(custom, alpn_in)),
            AlpnSelect::Checked(_) => AlpnReply::AskCheck,
        }
    }
}

/// How a preference is answered without a check of the application's.
pub open spec fn selector<K>(alpn: ALPN) -> AlpnSelect<K> {
    match alpn {
        ALPN::H2H1 => AlpnSelect::PreferH2,
        ALPN::H1 => AlpnSelect::H1Only,
        ALPN::H2 => AlpnSelect::H2Only,
        ALPN::Custom(custom) => AlpnSelect::Custom(custom),
    }
}

/// How a preference is answered where the application checks before it speaks
/// HTTP/2.
pub open spec fn checked_selector<K>(alpn: ALPN, check_h2_h1: K, check_h2: K) -> AlpnSelect<K> {
    match alpn {
        ALPN::H2H1 => AlpnSelect::Checked(check_h2_h1),
        ALPN::H1 => AlpnSelect::H1Only,
        ALPN::H2 => AlpnSelect::Checked(check_h2),
        ALPN::Custom(custom) => AlpnSelect::Custom(custom),
    }
}

/// The TLS settings of a listening endpoint. `B` is the acceptor under
/// construction, `C` are callbacks that provide the certificate, and `K` is a
/// check of the protocols that a client offers.
pub struct TlsSettings<B, C, K> {
    pub accept_builder: B,
    pub callbacks: Option<C>,
    pub alpn: AlpnSelect<K>,
    pub offload_threadpool: Option<(usize, usize)>,
}

impl<B, C, K> vstd::std_specs::convert::FromSpecImpl<B> for TlsSettings<B, C, K> {
    open spec fn obeys_from_spec() -> bool {
        true
    }

    open spec fn from_spec(settings: B) -> Self {
        TlsSettings {
            accept_builder: settings,
            callbacks: None,
            alpn: AlpnSelect::Unset,
            offload_threadpool: None,
        }
    }
}

impl<B, C, K> From<B> for TlsSettings<B, C, K> {
    fn from(settings: B) -> (r: Self) {
        TlsSettings {
            accept_builder: settings,
            callbacks: None,
            alpn: AlpnSelect::Unset,
            offload_threadpool: None,
        }
    }
}

/// What settings that were just made hold.
pub open spec fn fresh<B, C, K>(builder: B, callbacks: Option<C>) -> TlsSettings<B, C, K> {
    TlsSettings {
        accept_builder: builder,
        callbacks,
        alpn: AlpnSelect::Unset,
        offload_threadpool: None,
    }
}

impl<B, C, K> TlsSettings<B, C, K> {
    /// The offload has at least one shard with at least one runtime, and a
    /// protocol of the application's own is well formed.
    pub open spec fn wf(&self) -> bool {
        &&& self.alpn.wf()
        &&& self.offload_threadpool matches Some((shards, threads)) ==> shards != 0 && threads != 0
    }

    /// Settings with the acceptor that was loaded with the key and the
    /// certificate of these paths, or the error that names what failed.
    pub fn intermediate<E>(
        loaded: Result<B, (LoadFailure, E)>,
        cert_path: &str,
        key_path: &str,
    ) -> (r: Result<Self, Error<E>>)
        ensures
            match loaded {
                Ok(builder) => r == Ok::<Self, Error<E>>(fresh(builder, None)),
                Err((failure, cause)) => r matches Err(e) && e.etype == ErrorType::TLSConfigError
                    && e.cause == cause && e.context@ == match failure {
                    LoadFailure::Acceptor => "fail to create mozilla_intermediate_v5 Acceptor"@,
                    LoadFailure::PrivateKey => "fail to read key file "@ + key_path@,
                    LoadFailure::CertificateChain => "fail to read cert file "@ + cert_path@,
                },
            },
    {
        match loaded {
            Ok(builder) => Ok(
                TlsSettings {
                    accept_builder: builder,
                    callbacks: None,
                    alpn: AlpnSelect::Unset,
                    offload_threadpool: None,
                },
            ),
            Err((failure, cause)) => {
                let context = match failure {
                    LoadFailure::Acceptor => {
                        "fail to create mozilla_intermediate_v5 Acceptor".to_owned()
                    },
                    LoadFailure::PrivateKey => {
                        let mut s = "fail to read key file ".to_owned();
                        s.append(key_path);
                        s
                    },
                    LoadFailure::CertificateChain => {
                        let mut s = "fail to read cert file ".to_owned();
                        s.append(cert_path);
                        s
                    },
                };
                Err(Error { etype: ErrorType::TLSConfigError, context, cause })
            },
        }
    }

    /// Settings whose callbacks provide the certificate during the handshake.
    /// The builder is missing where no acceptor could be made.
    pub fn with_callbacks<E>(created: Result<B, E>, callbacks: C) -> (r: Result<Self, Error<E>>)
        ensures
            match created {
                Ok(builder) => r == Ok::<Self, Error<E>>(fresh(builder, Some(callbacks))),
                Err(cause) => r matches Err(e) && e.etype == ErrorType::TLSConfigError && e.cause
                    == cause && e.context@ == "fail to create mozilla_intermediate_v5 Acceptor"@,
            },
    {
        match created {
            Ok(builder) => Ok(
                TlsSettings {
                    accept_builder: builder,
                    callbacks: Some(callbacks),
                    alpn: AlpnSelect::Unset,
                    offload_threadpool: None,
                },
            ),
            Err(cause) => Err(
                Error {
                    etype: ErrorType::TLSConfigError,
                    context: "fail to create mozilla_intermediate_v5 Acceptor".to_owned(),
                    cause,
                },
            ),
        }
    }

    /// Offloads handshakes to dedicated single-threaded runtimes: `shards`
    /// partitions connections by their id, and each shard has
    /// `threads_per_shard` runtimes. Neither may be zero.
    pub fn set_offload_threadpool(&mut self, shards: usize, threads_per_shard: usize)
        requires
            shards != 0,
            threads_per_shard != 0,
        ensures
            *final(self) == (TlsSettings {
                offload_threadpool: Some((shards, threads_per_shard)),
                ..*old(self)
            }),
            old(self).wf() ==> final(self).wf(),
    {
        self.offload_threadpool = Some((shards, threads_per_shard));
    }

    /// Offloads handshakes as the server's configuration says, where it sets
    /// both values and neither is zero; else changes nothing.
    pub fn set_offload_threadpool_from_server_conf(&mut self, server_conf: &ServerConf)
        ensures
            *final(self) == (match server_conf.offload() {
                Some(pool) => TlsSettings { offload_threadpool: Some(pool), ..*old(self) },
                None => *old(self),
            }),
            old(self).wf() ==> final(self).wf(),
    {
        if let Some((shards, threads_per_shard)) = server_conf.downstream_tls_offload_threadpool() {
            self.set_offload_threadpool(shards, threads_per_shard);
        }
    }

    /// Enables HTTP/2, which is off by default: HTTP/2 is preferred, and
    /// HTTP/1.1 is allowed.
    pub fn enable_h2(&mut self)
        ensures
            *final(self) == (TlsSettings { alpn: AlpnSelect::PreferH2, ..*old(self) }),
            old(self).wf() ==> final(self).wf(),
    {
        self.set_alpn(ALPN::H2H1);
    }

    /// Enables HTTP/2 under a check of the application's.
    pub fn enable_h2_with_http2_check(&mut self, check_h2_h1: K, check_h2: K)
        ensures
            *final(self) == (TlsSettings { alpn: AlpnSelect::Checked(check_h2_h1), ..*old(self) }),
            old(self).wf() ==> final(self).wf(),
    {
        self.set_alpn_with_http2_check(ALPN::H2H1, check_h2_h1, check_h2);
    }

    /// Sets which protocols the endpoint speaks.
    pub fn set_alpn(&mut self, alpn: ALPN)
        requires
            alpn.wf(),
        ensures
            *final(self) == (TlsSettings { alpn: selector(alpn), ..*old(self) }),
            old(self).wf() ==> final(self).wf(),
    {
        self.alpn = match alpn {
            ALPN::H2H1 => AlpnSelect::PreferH2,
            ALPN::H1 => AlpnSelect::H1Only,
            ALPN::H2 => AlpnSelect::H2Only,
            ALPN::Custom(custom) => AlpnSelect::Custom(custom),
        };
    }

    /// Sets which protocols the endpoint speaks, with a check of the
    /// application's in place of the answer that HTTP/2 would get.
    pub fn set_alpn_with_http2_check(&mut self, alpn: ALPN, check_h2_h1: K, check_h2: K)
        requires
            alpn.wf(),
        ensures
            *final(self) == (TlsSettings {
                alpn: checked_selector(alpn, check_h2_h1, check_h2),
                ..*old(self)
            }),
            old(self).wf() ==> final(self).wf(),
    {
        self.alpn = match alpn {
            ALPN::H2H1 => AlpnSelect::Checked(check_h2_h1),
            ALPN::H1 => AlpnSelect::H1Only,
            ALPN::H2 => AlpnSelect::Checked(check_h2),
            ALPN::Custom(custom) => AlpnSelect::Custom(custom),
        };
    }

    /// Takes the settings apart: the acceptor to finish, how it is to answer
    /// the protocols that a client offers, and what carries out handshakes.
    pub fn build(self) -> (r: (B, AlpnSelect<K>, Acceptor<C>))
        ensures
            r.0 == self.accept_builder,
            r.1 == self.alpn,
            r.2.callbacks == self.callbacks,
            r.2.offload == self.offload_threadpool,
    {
        (
            self.accept_builder,
            self.alpn,
            Acceptor { callbacks: self.callbacks, offload: self.offload_threadpool },
        )
    }
}

/// What carries out the handshakes of an endpoint.
pub struct Acceptor<C> {
    pub callbacks: Option<C>,
    pub offload: Option<(usize, usize)>,
}

/// Where a handshake runs, and whether callbacks take part.
#[derive(Clone, Copy, Debug, PartialEq, Eq)]
pub struct HandshakeRoute {
    /// The key by which an offload runtime is picked; none where the
    /// handshake runs in place.
    pub offload_key: Option<u64>,
    pub with_callback: bool,
}

impl<C> Acceptor<C> {
    /// Decides how the handshake of the connection with this id is carried
    /// out.
    pub fn tls_handshake(&self, stream_id: i32) -> (r: HandshakeRoute)
        ensures
            r.offload_key == (match self.offload {
                Some(pool) => Some(stream_id as u64),
                None => None,
            }),
            r.with_callback == self.callbacks.is_some(),
    {
        let offload_key: Option<u64> = match self.offload {
            Some(_) => Some(stream_id as u64),
            None => None,
        };
        HandshakeRoute { offload_key, with_callback: self.callbacks.is_some() }
    }

    /// The error of a handshake whose offload runtime broke down.
    pub fn offload_failure<E>(cause: E) -> (e: Error<E>)
        ensures
            e.cause == cause,
            e.etype == ErrorType::InternalError,
            e.context@ == "TLS offload runtime failure"@,
    {
        Error {
            etype: ErrorType::InternalError,
            context: "TLS offload runtime failure".to_owned(),
            cause,
        }
    }
}

/// Settings that were given a preference answer every offer in wire format with
/// the protocol that they prefer among those offered, and turn it down where
/// none of theirs is offered: an endpoint of HTTP/2 alone ends the handshake
/// then, and every other one goes on without. A protocol of the application's
/// own is answered with wherever it is offered.
pub proof fn law_settings_answer<K>(alpn: ALPN, offer: &[u8], r: AlpnReply)
    requires
        alpn.wf(),
        alpn::protocols(offer@) is Some,
        offer@.len() <= u32::MAX,
        call_ensures(AlpnSelect::<K>::select, (&selector::<K>(alpn), offer), r),
    ensures
        ({
            let offered = alpn::protocols(offer@)->0;
            let two = seq![0x68u8, 0x32];
            let one = seq![0x68u8, 0x74, 0x74, 0x70, 0x2f, 0x31, 0x2e, 0x31];
            r matches AlpnReply::Answer(a) && match alpn {
                ALPN::H2H1 => if offered.contains(two) {
                    a matches Ok(b) && b@ == two
                } else if offered.contains(one) {
                    a matches Ok(b) && b@ == one
                } else {
                    a == Err::<&[u8], AlpnError>(AlpnError::NoAck)
                },
                ALPN::H1 => if offered.contains(one) {
                    a matches Ok(b) && b@ == one
                } else {
                    a == Err::<&[u8], AlpnError>(AlpnError::NoAck)
                },
                ALPN::H2 => if offered.contains(two) {
                    a matches Ok(b) && b@ == two
                } else {
                    a == Err::<&[u8], AlpnError>(AlpnError::AlertFatal)
                },
                ALPN::Custom(custom) => if offered.contains(custom.name()) {
                    a matches Ok(b) && b@ == custom.name()
                } else {
                    a == Err::<&[u8], AlpnError>(AlpnError::NoAck)
                },
            }
        }),
{
    let offered = alpn::protocols(offer@)->0;
    alpn::law_h2_is_preferred(offered);
    assert(seq![alpn::http11()].skip(1) =~= Seq::<Seq<u8>>::empty());
    assert(seq![alpn::h2()].skip(1) =~= Seq::<Seq<u8>>::empty());
    reveal_with_fuel(alpn::first_common, 2);
    if let ALPN::Custom(custom) = alpn {
        alpn::law_walk_over_offer(offer@, custom.name());
    }
}

/// Every offer in wire format can be answered, whatever was set.
pub proof fn law_offers_can_be_read<K>(select: AlpnSelect<K>, offer: Seq<u8>)
    requires
        alpn::protocols(offer) is Some,
    ensures
        select.readable(offer),
        (select matches AlpnSelect::Custom(custom) ==> custom.wf()) <==> select.wf(),
{
    if let AlpnSelect::Custom(custom) = select {
        alpn::law_walk_over_offer(offer, custom.name());
    }
}

/// Where the application checks before HTTP/2 is spoken, its check answers in
/// place of the endpoint where HTTP/2 is preferred and where it is all that is
/// spoken, each by its own; every other preference is answered as without a
/// check.
pub proof fn law_checks_answer_for_h2<K>(alpn: ALPN, check_h2_h1: K, check_h2: K)
    ensures
        alpn is H2H1 ==> checked_selector(alpn, check_h2_h1, check_h2) == AlpnSelect::Checked(
            check_h2_h1,
        ),
        alpn is H2 ==> checked_selector(alpn, check_h2_h1, check_h2) == AlpnSelect::Checked(
            check_h2,
        ),
        alpn is H1 || alpn is Custom ==> checked_selector(alpn, check_h2_h1, check_h2)
            == selector::<K>(alpn),
        selector::<K>(alpn) is Checked ==> false,
        selector::<K>(alpn) is Unset ==> false,
{
}

/// Handshakes are offloaded exactly where both numbers are set and neither is
/// zero, and then to just as many shards and runtimes.
pub proof fn law_offload(conf: ServerConf, shards: usize, threads: usize)
    ensures
        conf.offload() == Some((shards, threads)) <==> conf.downstream_tls_offload_threadpools
            == Some(shards) && conf.downstream_tls_offload_thread_per_pool == Some(threads)
            && shards > 0 && threads > 0,
{
}

/// Settings that were just made negotiate no protocol and offload nothing.
pub proof fn law_fresh<B, C, K>(builder: B, callbacks: Option<C>)
    ensures
        ({
            let settings = fresh::<B, C, K>(builder, callbacks);
            &&& settings.accept_builder == builder
            &&& settings.callbacks == callbacks
            &&& settings.alpn is Unset
            &&& settings.offload_threadpool is None
        }),
{
}

/// An offer in any format can be answered, unless a protocol of the
/// application's own is looked for in it and an entry runs over before it is
/// met.
pub proof fn law_readable<K>(select: AlpnSelect<K>, offer: Seq<u8>)
    ensures
        select.readable(offer) <==> !(select matches AlpnSelect::Custom(custom) && alpn::walk(
            offer,
            custom.name(),
        ) is Overrun),
{
}

/// A protocol of the application's own is answered to any offer, in whatever
/// format, in which it is met before an entry runs over; where the end is met
/// first, the endpoint goes on without.
pub proof fn law_custom_answer<K>(custom: CustomALPN, offer: &[u8], r: AlpnReply)
    requires
        custom.wf(),
        !(alpn::walk(offer@, custom.name()) is Overrun),
        call_ensures(
            AlpnSelect::<K>::select,
            (&selector::<K>(ALPN::Custom(custom)), offer),
            r,
        ),
    ensures
        r matches AlpnReply::Answer(a) && if alpn::walk(offer@, custom.name()) is Found {
            a matches Ok(b) && b@ == custom.name()
        } else {
            a == Err::<&[u8], AlpnError>(AlpnError::NoAck)
        },
{
}

/// Settings made from an acceptor hold it, and nothing else is set.
pub proof fn law_from<B, C, K>(builder: B)
    ensures
        <TlsSettings<B, C, K> as vstd::std_specs::convert::FromSpec<B>>::from_spec(builder)
            == fresh::<B, C, K>(builder, None),
{
}

} // verus!
