//! Application-layer protocol negotiation: the lists that peers exchange, and
//! which protocol a server answers with.
use vstd::prelude::*;

verus! {

/// How an offer is turned down.
#[derive(Clone, Copy, Debug, PartialEq, Eq, Structural)]
pub enum AlpnError {
    /// Go on as if nothing had been offered.
    NoAck,
    /// End the handshake.
    AlertFatal,
}

/// The name of HTTP/2.
pub open spec fn h2() -> Seq<u8> {
    seq![0x68u8, 0x32]
}

/// The name of HTTP/1.1.
pub open spec fn http11() -> Seq<u8> {
    seq![0x68u8, 0x74, 0x74, 0x70, 0x2f, 0x31, 0x2e, 0x31]
}

/// The protocols of a list in wire format: names of one byte or more, each
/// behind its length. Nothing for bytes that are no such list.
pub open spec fn protocols(list: Seq<u8>) -> Option<Seq<Seq<u8>>>
    decreases list.len(),
{
    if list.len() == 0 {
        Some(seq![])
    } else if list[0] == 0 || list[0] + 1 > list.len() {
        None
    } else {
        let n = list[0] as int;
        match protocols(list.skip(n + 1)) {
            Some(rest) => Some(seq![list.subrange(1, n + 1)] + rest),
            None => None,
        }
    }
}

/// The first protocol of `server` that `client` has too.
pub open spec fn first_common(server: Seq<Seq<u8>>, client: Seq<Seq<u8>>) -> Option<Seq<u8>>
    decreases server.len(),
{
    if server.len() == 0 {
        None
    } else if client.contains(server[0]) {
        Some(server[0])
    } else {
        first_common(server.skip(1), client)
    }
}

/// The bytes of an optional slice.
pub open spec fn bytes_of(s: Option<&[u8]>) -> Option<Seq<u8>> {
    match s {
        Some(b) => Some(b@),
        None => None,
    }
}

/// A protocol of an application's own.
#[derive(Clone, Debug)]
pub struct CustomALPN {
    /// The name behind its length, as in a list of one.
    wire: Vec<u8>,
}

impl CustomALPN {
    /// The name of the protocol.
    pub closed spec fn name(&self) -> Seq<u8> {
        self.wire@.skip(1)
    }

    /// The length byte is the length of the name.
    pub closed spec fn wf(&self) -> bool {
        &&& 1 < self.wire@.len() <= 256
        &&& self.wire@[0] == self.wire@.len() - 1
    }

    /// A protocol with this name.
    pub fn new(name: &[u8]) -> (r: Self)
        requires
            0 < name@.len() <= 255,
        ensures
            r.wf(),
            r.name() == name@,
    {
        let mut wire: Vec<u8> = Vec::new();
        wire.push(name.len() as u8);
        wire.extend_from_slice(name);
        assert(wire@ =~= seq![name@.len() as u8] + name@);
        assert(wire@.skip(1) =~= name@);
        CustomALPN { wire }
    }

    /// The name of the protocol.
    pub fn protocol(&self) -> (r: &[u8])
        requires
            self.wf(),
        ensures
            r@ == self.name(),
    {
        vstd::slice::slice_subrange(self.wire.as_slice(), 1, self.wire.len())
    }

    /// The list in wire format of this protocol alone.
    pub fn as_wire(&self) -> (r: &[u8])
        requires
            self.wf(),
        ensures
            protocols(r@) == Some(seq![self.name()]),
    {
        proof {
            reveal_with_fuel(protocols, 2);
            let w = self.wire@;
            assert(w.skip(w.len() as int) =~= Seq::<u8>::empty());
            assert(w.subrange(1, w.len() as int) =~= self.name());
            assert(seq![self.name()] + Seq::<Seq<u8>>::empty() =~= seq![self.name()]);
        }
        self.wire.as_slice()
    }
}

/// Which protocols an endpoint speaks, the preferred one first.
#[derive(Clone, Debug)]
pub enum ALPN {
    /// HTTP/1.1 alone.
    H1,
    /// HTTP/2 alone.
    H2,
    /// HTTP/2, else HTTP/1.1.
    H2H1,
    /// A protocol of the application's own.
    Custom(CustomALPN),
}

const H1_WIRE: [u8; 9] = [8, 0x68, 0x74, 0x74, 0x70, 0x2f, 0x31, 0x2e, 0x31];

const H2_WIRE: [u8; 3] = [2, 0x68, 0x32];

const H2H1_WIRE: [u8; 12] = [2, 0x68, 0x32, 8, 0x68, 0x74, 0x74, 0x70, 0x2f, 0x31, 0x2e, 0x31];

/// HTTP/1.1 alone, in wire format.
fn h1_wire() -> (r: &'static [u8])
    ensures
        protocols(r@) == Some(seq![http11()]),
        r@.len() == 9,
{
    let r: &'static [u8] = &H1_WIRE;
    proof {
        reveal_with_fuel(protocols, 2);
        assert(r@.skip(9) =~= Seq::<u8>::empty());
        assert(r@.subrange(1, 9) =~= http11());
        assert(seq![http11()] + Seq::<Seq<u8>>::empty() =~= seq![http11()]);
    }
    r
}

/// HTTP/2 alone, in wire format.
fn h2_wire() -> (r: &'static [u8])
    ensures
        protocols(r@) == Some(seq![h2()]),
        r@.len() == 3,
{
    let r: &'static [u8] = &H2_WIRE;
    proof {
        reveal_with_fuel(protocols, 2);
        assert(r@.skip(3) =~= Seq::<u8>::empty());
        assert(r@.subrange(1, 3) =~= h2());
        assert(seq![h2()] + Seq::<Seq<u8>>::empty() =~= seq![h2()]);
    }
    r
}

/// HTTP/2 before HTTP/1.1, in wire format.
fn h2h1_wire() -> (r: &'static [u8])
    ensures
        protocols(r@) == Some(seq![h2(), http11()]),
        r@.len() == 12,
{
    let r: &'static [u8] = &H2H1_WIRE;
    proof {
        reveal_with_fuel(protocols, 3);
        let tail = r@.skip(3);
        assert(tail.skip(9) =~= Seq::<u8>::empty());
        assert(tail.subrange(1, 9) =~= http11());
        assert(r@.subrange(1, 3) =~= h2());
        assert(seq![http11()] + Seq::<Seq<u8>>::empty() =~= seq![http11()]);
        assert(seq![h2()] + seq![http11()] =~= seq![h2(), http11()]);
    }
    r
}

impl ALPN {
    /// The protocols, the preferred one first.
    pub open spec fn preference(&self) -> Seq<Seq<u8>> {
        match self {
            ALPN::H1 => seq![http11()],
            ALPN::H2 => seq![h2()],
            ALPN::H2H1 => seq![h2(), http11()],
            ALPN::Custom(custom) => seq![custom.name()],
        }
    }

    /// A protocol of the application's own is well formed.
    pub open spec fn wf(&self) -> bool {
        self matches ALPN::Custom(custom) ==> custom.wf()
    }

    /// The preference in wire format.
    pub fn to_wire_preference(&self) -> (r: &[u8])
        requires
            self.wf(),
        ensures
            protocols(r@) == Some(self.preference()),
    {
        match self {
            ALPN::H1 => h1_wire(),
            ALPN::H2 => h2_wire(),
            ALPN::H2H1 => h2h1_wire(),
            ALPN::Custom(custom) => custom.as_wire(),
        }
    }
}

/// Whether a list that a client offers is worth reading.
pub fn valid_alpn(alpn_in: &[u8]) -> (r: bool)
    ensures
        r == (alpn_in@.len() > 0),
{
    !alpn_in.is_empty()
}

/// Calls `openssl::ssl::select_next_proto`: of two lists in wire format, the
/// first protocol of the server's that the client's has too. Of lists in
/// another format nothing is said, nor of one whose length does not fit in 32
/// bits.
#[verifier::external_body]
fn select_next_proto<'a>(server: &'a [u8], client: &'a [u8]) -> (r: Option<&'a [u8]>)
    requires
        client@.len() > 0,
    ensures
        protocols(server@) is Some && protocols(client@) is Some && server@.len() <= u32::MAX
            && client@.len() <= u32::MAX ==> bytes_of(r) == first_common(
            protocols(server@)->0,
            protocols(client@)->0,
        ),
{
    openssl::ssl::select_next_proto(server, client)
}

/// A selected protocol is the answer; without one, the offer is turned down.
pub fn answer<'a>(selected: Option<&'a [u8]>, refusal: AlpnError) -> (r: Result<&'a [u8], AlpnError>)
    ensures
        match selected {
            Some(p) => r == Ok::<&[u8], AlpnError>(p),
            None => r == Err::<&[u8], AlpnError>(refusal),
        },
{
    match selected {
        Some(p) => Ok(p),
        None => Err(refusal),
    }
}

/// An offer that the contracts of the selectors speak of in full: a list in
/// wire format whose length fits in 32 bits.
pub open spec fn is_offer(alpn_in: Seq<u8>) -> bool {
    protocols(alpn_in) is Some && alpn_in.len() <= u32::MAX
}

/// `r` is the protocol, or the refusal where there is none.
pub open spec fn answers(
    r: Result<&[u8], AlpnError>,
    selected: Option<Seq<u8>>,
    refusal: AlpnError,
) -> bool {
    match selected {
        Some(p) => r matches Ok(b) && b@ == p,
        None => r == Err::<&[u8], AlpnError>(refusal),
    }
}

/// `r` is what the TLS library selects from the offer for a server with this
/// preference, or the refusal where it selects nothing. That holds of any
/// offer, also of one that is no list in wire format.
pub closed spec fn library_answered(
    server: Seq<Seq<u8>>,
    alpn_in: &[u8],
    r: Result<&[u8], AlpnError>,
    refusal: AlpnError,
) -> bool {
    exists|wire: &[u8], selected: Option<&[u8]>| #[trigger]
        call_ensures(select_next_proto, (wire, alpn_in), selected) && protocols(wire@) == Some(
            server,
        ) && answers(r, bytes_of(selected), refusal)
}

/// Answers an offer with HTTP/2, else with HTTP/1.1, else not at all.
///
/// Of an offer that is no list in wire format, it is left open which protocol
/// is selected, if any.
pub fn prefer_h2<'a>(alpn_in: &'a [u8]) -> (r: Result<&'a [u8], AlpnError>)
    ensures
        is_offer(alpn_in@) ==> answers(
            r,
            first_common(seq![h2(), http11()], protocols(alpn_in@)->0),
            AlpnError::NoAck,
        ),
        alpn_in@.len() > 0 ==> library_answered(seq![h2(), http11()], alpn_in, r, AlpnError::NoAck),
        alpn_in@.len() == 0 ==> r == Err::<&[u8], AlpnError>(AlpnError::NoAck),
        r matches Err(e) ==> e == AlpnError::NoAck,
{
    if !valid_alpn(alpn_in) {
        proof {
            reveal_with_fuel(first_common, 3);
        }
        return Err(AlpnError::NoAck);
    }
    answer(select_next_proto(h2h1_wire(), alpn_in), AlpnError::NoAck)
}

/// Answers an offer with HTTP/1.1, else not at all.
///
/// Of an offer that is no list in wire format, it is left open which protocol
/// is selected, if any.
pub fn h1_only<'a>(alpn_in: &'a [u8]) -> (r: Result<&'a [u8], AlpnError>)
    ensures
        is_offer(alpn_in@) ==> answers(
            r,
            first_common(seq![http11()], protocols(alpn_in@)->0),
            AlpnError::NoAck,
        ),
        alpn_in@.len() > 0 ==> library_answered(seq![http11()], alpn_in, r, AlpnError::NoAck),
        alpn_in@.len() == 0 ==> r == Err::<&[u8], AlpnError>(AlpnError::NoAck),
        r matches Err(e) ==> e == AlpnError::NoAck,
{
    if !valid_alpn(alpn_in) {
        proof {
            reveal_with_fuel(first_common, 2);
        }
        return Err(AlpnError::NoAck);
    }
    answer(select_next_proto(h1_wire(), alpn_in), AlpnError::NoAck)
}

/// Answers an offer with HTTP/2, else ends the handshake.
///
/// Of an offer that is no list in wire format, it is left open which protocol
/// is selected, if any.
pub fn h2_only<'a>(alpn_in: &'a [u8]) -> (r: Result<&'a [u8], AlpnError>)
    ensures
        is_offer(alpn_in@) ==> answers(
            r,
            first_common(seq![h2()], protocols(alpn_in@)->0),
            AlpnError::AlertFatal,
        ),
        alpn_in@.len() > 0 ==> library_answered(seq![h2()], alpn_in, r, AlpnError::AlertFatal),
        alpn_in@.len() == 0 ==> r == Err::<&[u8], AlpnError>(AlpnError::AlertFatal),
        r matches Err(e) ==> e == AlpnError::AlertFatal,
{
    if !valid_alpn(alpn_in) {
        proof {
            reveal_with_fuel(first_common, 2);
        }
        return Err(AlpnError::AlertFatal);
    }
    answer(select_next_proto(h2_wire(), alpn_in), AlpnError::AlertFatal)
}

/// What a walk over a list meets.
pub enum Walk {
    /// The protocol.
    Found,
    /// The end of the list.
    Missing,
    /// An entry that is longer than the rest of the list.
    Overrun,
}

/// Walks over a list, entry by entry, until it meets the protocol.
pub open spec fn walk(list: Seq<u8>, proto: Seq<u8>) -> Walk
    decreases list.len(),
{
    if list.len() == 0 {
        Walk::Missing
    } else {
        let n = list[0] as int;
        if n + 1 > list.len() {
            Walk::Overrun
        } else if list.subrange(1, n + 1) == proto {
            Walk::Found
        } else {
            walk(list.skip(n + 1), proto)
        }
    }
}

/// Whether two slices hold the same bytes.
fn same_bytes(a: &[u8], b: &[u8]) -> (r: bool)
    ensures
        r == (a@ == b@),
{
    if a.len() != b.len() {
        return false;
    }
    let mut i: usize = 0;
    while i < a.len()
        invariant
            a@.len() == b@.len(),
            i <= a@.len(),
            forall|j: int| 0 <= j < i ==> a@[j] == b@[j],
        decreases a@.len() - i,
    {
        if a[i] != b[i] {
            return false;
        }
        i = i + 1;
    }
    assert(a@ =~= b@);
    true
}

/// Whether a walk over the list stays within it until it meets the protocol
/// or the end.
pub fn walk_stays_within(client_protocols: &[u8], proto: &[u8]) -> (r: bool)
    ensures
        r == !(walk(client_protocols@, proto@) is Overrun),
{
    let mut i: usize = 0;
    assert(client_protocols@.skip(0) =~= client_protocols@);
    while i < client_protocols.len()
        invariant
            i <= client_protocols@.len(),
            walk(client_protocols@, proto@) == walk(client_protocols@.skip(i as int), proto@),
        decreases client_protocols@.len() - i,
    {
        let ghost rest = client_protocols@.skip(i as int);
        let n: usize = client_protocols[i] as usize;
        assert(rest[0] == n);
        if n > client_protocols.len() - i - 1 {
            return false;
        }
        let entry = vstd::slice::slice_subrange(client_protocols, i + 1, i + 1 + n);
        assert(rest.subrange(1, n + 1) =~= entry@);
        if same_bytes(entry, proto) {
            return true;
        }
        assert(rest.skip(n + 1) =~= client_protocols@.skip(i + 1 + n));
        i = i + 1 + n;
    }
    true
}

/// Finds the first entry of the client's list that is the protocol. The
/// entries up to it are to lie within the list.
pub fn select_protocol<'a>(client_protocols: &'a [u8], proto: &[u8]) -> (r: Option<&'a [u8]>)
    requires
        !(walk(client_protocols@, proto@) is Overrun),
    ensures
        r is Some <==> walk(client_protocols@, proto@) is Found,
        r matches Some(p) ==> p@ == proto@,
{
    let mut i: usize = 0;
    assert(client_protocols@.skip(0) =~= client_protocols@);
    while i < client_protocols.len()
        invariant
            i <= client_protocols@.len(),
            walk(client_protocols@, proto@) == walk(client_protocols@.skip(i as int), proto@),
            !(walk(client_protocols@, proto@) is Overrun),
        decreases client_protocols@.len() - i,
    {
        let ghost rest = client_protocols@.skip(i as int);
        let n: usize = client_protocols[i] as usize;
        assert(rest[0] == n);
        let entry = vstd::slice::slice_subrange(client_protocols, i + 1, i + 1 + n);
        assert(rest.subrange(1, n + 1) =~= entry@);
        if same_bytes(entry, proto) {
            return Some(entry);
        }
        assert(rest.skip(n + 1) =~= client_protocols@.skip(i + 1 + n));
        i = i + 1 + n;
    }
    None
}

/// Answers an offer with a protocol of the application's own, else not at all.
pub fn custom_only<'a>(custom: &CustomALPN, alpn_in: &'a [u8]) -> (r: Result<&'a [u8], AlpnError>)
    requires
        custom.wf(),
        !(walk(alpn_in@, custom.name()) is Overrun),
    ensures
        answers(
            r,
            if walk(alpn_in@, custom.name()) is Found {
                Some(custom.name())
            } else {
                None
            },
            AlpnError::NoAck,
        ),
{
    if !valid_alpn(alpn_in) {
        return Err(AlpnError::NoAck);
    }
    answer(select_protocol(alpn_in, custom.protocol()), AlpnError::NoAck)
}

/// In a list in wire format the walk stays within the list, and it meets the
/// protocol exactly where the client offers it.
pub proof fn law_walk_over_offer(list: Seq<u8>, proto: Seq<u8>)
    requires
        protocols(list) is Some,
    ensures
        !(walk(list, proto) is Overrun),
        walk(list, proto) is Found <==> protocols(list)->0.contains(proto),
    decreases list.len(),
{
    if list.len() > 0 {
        let n = list[0] as int;
        let rest = list.skip(n + 1);
        let head = list.subrange(1, n + 1);
        law_walk_over_offer(rest, proto);
        let all = protocols(list)->0;
        let others = protocols(rest)->0;
        assert(all == seq![head] + others);
        if all.contains(proto) {
            let i = choose|i: int| 0 <= i < all.len() && all[i] == proto;
            if i > 0 {
                assert(others[i - 1] == proto);
            }
        }
        if others.contains(proto) {
            let i = choose|i: int| 0 <= i < others.len() && others[i] == proto;
            assert(all[i + 1] == proto);
        }
        assert(all[0] == head);
    }
}

/// An endpoint that prefers HTTP/2 answers with it wherever it is offered,
/// with HTTP/1.1 where only that is, and with nothing where neither is.
pub proof fn law_h2_is_preferred(client: Seq<Seq<u8>>)
    ensures
        first_common(seq![h2(), http11()], client) == if client.contains(h2()) {
            Some(h2())
        } else if client.contains(http11()) {
            Some(http11())
        } else {
            None
        },
{
    reveal_with_fuel(first_common, 3);
    assert(seq![h2(), http11()].skip(1) =~= seq![http11()]);
    assert(seq![http11()].skip(1) =~= Seq::<Seq<u8>>::empty());
}

/// The answer is never a protocol that the client has not offered.
pub proof fn law_answer_was_offered(server: Seq<Seq<u8>>, client: Seq<Seq<u8>>)
    ensures
        first_common(server, client) matches Some(p) ==> client.contains(p) && server.contains(p),
        first_common(server, client) is None ==> forall|i: int|
            0 <= i < server.len() ==> !client.contains(#[trigger] server[i]),
    decreases server.len(),
{
    if server.len() > 0 {
        let rest = server.skip(1);
        law_answer_was_offered(rest, client);
        assert(server.contains(server[0]));
        assert forall|p: Seq<u8>| rest.contains(p) implies #[trigger] server.contains(p) by {
            let i = choose|i: int| 0 <= i < rest.len() && rest[i] == p;
            assert(server[i + 1] == p);
        }
        if first_common(server, client) is None {
            assert forall|i: int| 0 <= i < server.len() implies !client.contains(
                #[trigger] server[i],
            ) by {
                if i > 0 {
                    assert(rest[i - 1] == server[i]);
                }
            }
        }
    }
}

/// A list of names, each behind its length.
pub open spec fn entries(names: Seq<Seq<u8>>) -> Seq<u8>
    decreases names.len(),
{
    if names.len() == 0 {
        seq![]
    } else {
        seq![names[0].len() as u8] + names[0] + entries(names.skip(1))
    }
}

/// A list of names that are not empty is read as these names.
pub proof fn law_offer_is_read(names: Seq<Seq<u8>>)
    requires
        forall|i: int| 0 <= i < names.len() ==> 0 < (#[trigger] names[i]).len() <= 255,
    ensures
        protocols(entries(names)) == Some(names),
    decreases names.len(),
{
    if names.len() > 0 {
        let rest = names.skip(1);
        let list = entries(names);
        let n = names[0].len() as int;
        assert forall|i: int| 0 <= i < rest.len() implies 0 < (#[trigger] rest[i]).len() <= 255 by {
            assert(rest[i] == names[i + 1]);
        }
        law_offer_is_read(rest);
        assert(list[0] == n);
        assert(list.subrange(1, n + 1) =~= names[0]);
        assert(list.skip(n + 1) =~= entries(rest));
        assert(seq![names[0]] + rest =~= names);
    } else {
        assert(names =~= Seq::<Seq<u8>>::empty());
    }
}

/// What is read as names is the list of these names, and none of them is
/// empty or too long.
pub proof fn law_only_offers_are_read(list: Seq<u8>)
    ensures
        protocols(list) matches Some(names) ==> entries(names) == list && forall|i: int|
            0 <= i < names.len() ==> 0 < (#[trigger] names[i]).len() <= 255,
    decreases list.len(),
{
    if list.len() > 0 && protocols(list) is Some {
        let n = list[0] as int;
        let names = protocols(list)->0;
        let head = list.subrange(1, n + 1);
        let others = protocols(list.skip(n + 1))->0;
        law_only_offers_are_read(list.skip(n + 1));
        assert(names == seq![head] + others);
        assert(names.skip(1) =~= others);
        assert(entries(names) =~= list);
        assert forall|i: int| 0 <= i < names.len() implies 0 < (#[trigger] names[i]).len()
            <= 255 by {
            if i > 0 {
                assert(names[i] == others[i - 1]);
            }
        }
    } else if list.len() == 0 {
        assert(entries(protocols(list)->0) =~= list);
    }
}

/// What two endpoints agree on is the protocol of the server's list that has
/// no other one of the common protocols before it.
pub proof fn law_first_in_common(server: Seq<Seq<u8>>, client: Seq<Seq<u8>>, i: int)
    ensures
        0 <= i < server.len() && client.contains(server[i]) && (forall|j: int|
            0 <= j < i ==> !client.contains(#[trigger] server[j])) ==> first_common(server, client)
            == Some(server[i]),
        (forall|j: int| 0 <= j < server.len() ==> !client.contains(#[trigger] server[j]))
            ==> first_common(server, client) is None,
    decreases server.len(),
{
    if server.len() > 0 {
        let rest = server.skip(1);
        assert forall|j: int| 0 <= j < rest.len() implies #[trigger] rest[j] == server[j + 1] by {
        }
        if !client.contains(server[0]) {
            law_first_in_common(rest, client, i - 1);
            if 0 < i < server.len() {
                assert(rest[i - 1] == server[i]);
            }
        } else if 0 < i && (forall|j: int| 0 <= j < i ==> !client.contains(#[trigger] server[j])) {
            assert(!client.contains(server[0]));
        }
    }
}

/// Each preference names its protocols, the preferred one first.
pub proof fn law_preference(alpn: ALPN)
    ensures
        alpn is H1 ==> alpn.preference() == seq![
            seq![0x68u8, 0x74, 0x74, 0x70, 0x2f, 0x31, 0x2e, 0x31],
        ],
        alpn is H2 ==> alpn.preference() == seq![seq![0x68u8, 0x32]],
        alpn is H2H1 ==> alpn.preference() == seq![
            seq![0x68u8, 0x32],
            seq![0x68u8, 0x74, 0x74, 0x70, 0x2f, 0x31, 0x2e, 0x31],
        ],
        alpn matches ALPN::Custom(custom) ==> alpn.preference() == seq![custom.name()],
{
}

/// An answer is the protocol that was selected, byte for byte; without one it
/// is the refusal.
pub proof fn law_answers(
    r: Result<&[u8], AlpnError>,
    selected: Option<Seq<u8>>,
    refusal: AlpnError,
)
    ensures
        answers(r, selected, refusal) <==> match r {
            Ok(b) => selected == Some(b@),
            Err(e) => selected is None && e == refusal,
        },
{
}

/// A walk over entries, empty ones among them, meets a protocol exactly where
/// one of the entries is it. Where none is, it meets the end, or runs over
/// where a last entry is cut short.
pub proof fn law_walk(names: Seq<Seq<u8>>, proto: Seq<u8>, n: u8, cut: Seq<u8>)
    requires
        forall|i: int| 0 <= i < names.len() ==> (#[trigger] names[i]).len() <= 255,
        cut.len() < n,
    ensures
        names.contains(proto) ==> walk(entries(names), proto) is Found && walk(
            entries(names) + seq![n] + cut,
            proto,
        ) is Found,
        !names.contains(proto) ==> walk(entries(names), proto) is Missing && walk(
            entries(names) + seq![n] + cut,
            proto,
        ) is Overrun,
    decreases names.len(),
{
    let list = entries(names);
    let over = list + seq![n] + cut;
    if names.len() == 0 {
        assert(list =~= Seq::<u8>::empty());
        assert(over[0] == n);
        assert(!names.contains(proto));
    } else {
        let rest = names.skip(1);
        let k = names[0].len() as int;
        assert forall|i: int| 0 <= i < rest.len() implies (#[trigger] rest[i]).len() <= 255 by {
            assert(rest[i] == names[i + 1]);
        }
        law_walk(rest, proto, n, cut);
        assert(list[0] == k);
        assert(over[0] == k);
        assert(list.subrange(1, k + 1) =~= names[0]);
        assert(over.subrange(1, k + 1) =~= names[0]);
        assert(list.skip(k + 1) =~= entries(rest));
        assert(over.skip(k + 1) =~= entries(rest) + seq![n] + cut);
        if names.contains(proto) && names[0] != proto {
            let i = choose|i: int| 0 <= i < names.len() && names[i] == proto;
            assert(rest[i - 1] == proto);
        }
        if rest.contains(proto) {
            let i = choose|i: int| 0 <= i < rest.len() && rest[i] == proto;
            assert(names[i + 1] == proto);
        }
        if names[0] == proto {
            assert(names.contains(proto));
        }
    }
}

/// What the TLS library answered is what its selection gave for this offer, and
/// for the preference in wire format.
proof fn law_library_answered(
    server: Seq<Seq<u8>>,
    alpn_in: &[u8],
    r: Result<&[u8], AlpnError>,
    refusal: AlpnError,
)
    requires
        library_answered(server, alpn_in, r, refusal),
    ensures
        exists|wire: &[u8], selected: Option<&[u8]>| #[trigger]
            call_ensures(select_next_proto, (wire, alpn_in), selected) && protocols(wire@) == Some(
                server,
            ) && match selected {
                Some(p) => r matches Ok(b) && b@ == p@,
                None => r == Err::<&[u8], AlpnError>(refusal),
            },
{
}

} // verus!
