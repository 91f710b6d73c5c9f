//! Where an endpoint can be reached.
use crate::crypto::EndpointId;
use crate::message::{lemma_utf8_injective, text_less};
use crate::octets::{
    be_bytes, bytes_less, compare_bytes, lemma_be_bytes_len, lemma_be_limits,
    lemma_be_value_round_trip, lemma_bytes_less_irreflexive, lemma_bytes_less_total,
    lemma_bytes_less_transitive, push_be, read_be, to_array, Relation,
};
use crate::ordered::{Key, OrderedMap};
use vstd::prelude::*;
use vstd::utf8::encode_utf8;

verus! {

// Sockets

/// An IP address and a port, as a value: the version of the protocol and the bytes that spell the
/// address in a record.
#[verifier::ext_equal]
pub struct SocketView {
    pub v6: bool,
    pub bytes: Seq<u8>,
}

/// An IP address and a port.
#[allow(inconsistent_fields)]
#[derive(Debug, Clone, Copy, PartialEq, Eq, Hash)]
pub enum SocketAddress {
    V4 { ip: [u8; 4], port: u16 },
    V6 { ip: [u8; 16], port: u16, flow: u32, scope: u32 },
}

impl View for SocketAddress {
    type V = SocketView;

    open spec fn view(&self) -> SocketView {
        match *self {
            SocketAddress::V4 { ip, port } => SocketView {
                v6: false,
                bytes: ip@ + be_bytes(port as nat, 2),
            },
            SocketAddress::V6 { ip, port, flow, scope } => SocketView {
                v6: true,
                bytes: ip@ + (be_bytes(port as nat, 2) + (be_bytes(flow as nat, 4) + be_bytes(
                    scope as nat,
                    4,
                ))),
            },
        }
    }
}

/// Sockets of version four come first; within a version the bytes decide.
pub open spec fn socket_less(a: SocketView, b: SocketView) -> bool {
    if a.v6 != b.v6 {
        b.v6
    } else {
        bytes_less(a.bytes, b.bytes)
    }
}

impl SocketAddress {
    /// The bytes that spell this socket in a record.
    pub fn to_bytes(&self) -> (b: Vec<u8>)
        ensures
            b@ == self@.bytes,
    {
        let mut b: Vec<u8> = Vec::new();
        match self {
            SocketAddress::V4 { ip, port } => {
                b.extend_from_slice(ip);
                push_be(&mut b, *port as u64, 2);
                assert(b@ =~= self@.bytes);
            },
            SocketAddress::V6 { ip, port, flow, scope } => {
                b.extend_from_slice(ip);
                push_be(&mut b, *port as u64, 2);
                push_be(&mut b, *flow as u64, 4);
                push_be(&mut b, *scope as u64, 4);
                assert(b@ =~= self@.bytes);
            },
        }
        b
    }

    /// The socket of version four that six bytes spell.
    pub fn from_v4_bytes(b: &[u8; 6]) -> (a: SocketAddress)
        ensures
            a@ == (SocketView { v6: false, bytes: b@ }),
    {
        let s = b.as_slice();
        let port: u64 = read_be(&s[4..6]);
        proof {
            lemma_be_limits();
            lemma_be_value_round_trip(b@.subrange(4, 6));
        }
        let a = SocketAddress::V4 { ip: to_array(&s[0..4]), port: port as u16 };
        assert(a@.bytes =~= b@);
        a
    }

    /// The socket of version six that twenty-six bytes spell.
    pub fn from_v6_bytes(b: &[u8; 26]) -> (a: SocketAddress)
        ensures
            a@ == (SocketView { v6: true, bytes: b@ }),
    {
        let s = b.as_slice();
        let port: u64 = read_be(&s[16..18]);
        let flow: u64 = read_be(&s[18..22]);
        let scope: u64 = read_be(&s[22..26]);
        proof {
            lemma_be_limits();
            lemma_be_value_round_trip(b@.subrange(16, 18));
            lemma_be_value_round_trip(b@.subrange(18, 22));
            lemma_be_value_round_trip(b@.subrange(22, 26));
        }
        let a = SocketAddress::V6 {
            ip: to_array(&s[0..16]),
            port: port as u16,
            flow: flow as u32,
            scope: scope as u32,
        };
        assert(a@.bytes =~= b@);
        a
    }

    pub proof fn lemma_len(&self)
        ensures
            self@.bytes.len() == if self@.v6 { 26int } else { 6 },
    {
        match *self {
            SocketAddress::V4 { ip, port } => lemma_be_bytes_len(port as nat, 2),
            SocketAddress::V6 { ip, port, flow, scope } => {
                lemma_be_bytes_len(port as nat, 2);
                lemma_be_bytes_len(flow as nat, 4);
                lemma_be_bytes_len(scope as nat, 4);
            },
        }
    }
}

impl Key for SocketAddress {
    open spec fn less(a: SocketView, b: SocketView) -> bool {
        socket_less(a, b)
    }

    proof fn less_irreflexive(a: SocketView) {
        lemma_bytes_less_irreflexive(a.bytes);
    }

    proof fn less_transitive(a: SocketView, b: SocketView, c: SocketView) {
        if a.v6 == b.v6 && b.v6 == c.v6 {
            lemma_bytes_less_transitive(a.bytes, b.bytes, c.bytes);
        }
    }

    proof fn less_total(a: SocketView, b: SocketView) {
        lemma_bytes_less_total(a.bytes, b.bytes);
    }

    fn compare(&self, other: &Self) -> (r: Relation) {
        let left = self.to_bytes();
        let right = other.to_bytes();
        match (self, other) {
            (SocketAddress::V4 { .. }, SocketAddress::V6 { .. }) => Relation::Less,
            (SocketAddress::V6 { .. }, SocketAddress::V4 { .. }) => Relation::Greater,
            _ => compare_bytes(left.as_slice(), right.as_slice()),
        }
    }
}

// Relays

/// The normal form of the URL of a relay, as `iroh::RelayUrl` parses and prints it; `None` where it
/// refuses the text.
pub uninterp spec fn relay_form(text: Seq<char>) -> Option<Seq<char>>;

/// `iroh::RelayUrl::from_str` and the text of its result.
#[verifier::external_body]
fn parse_relay(text: &str) -> (r: Option<String>)
    ensures
        match r {
            Some(url) => relay_form(text@) == Some(url@),
            None => relay_form(text@) is None,
        },
{
    match text.parse::<iroh::RelayUrl>() {
        Ok(url) => Some(url.as_str().to_owned()),
        Err(_) => None,
    }
}

/// The URL of a relay server. Its view is the text.
#[derive(Debug, PartialEq, Eq, Hash, PartialOrd, Ord)]
pub struct RelayUrl {
    url: String,
}

impl View for RelayUrl {
    type V = Seq<char>;

    closed spec fn view(&self) -> Seq<char> {
        self.url@
    }
}

impl Clone for RelayUrl {
    fn clone(&self) -> (u: Self)
        ensures
            u@ == self@,
    {
        RelayUrl { url: self.url.clone() }
    }
}

impl RelayUrl {
    /// The relay that `text` names, in normal form.
    pub fn parse(text: &str) -> (r: Option<RelayUrl>)
        ensures
            match r {
                Some(u) => relay_form(text@) == Some(u@),
                None => relay_form(text@) is None,
            },
    {
        match parse_relay(text) {
            Some(url) => Some(RelayUrl { url }),
            None => None,
        }
    }

    pub fn as_str(&self) -> (s: &str)
        ensures
            s@ == self@,
    {
        self.url.as_str()
    }
}

impl Key for RelayUrl {
    open spec fn less(a: Seq<char>, b: Seq<char>) -> bool {
        text_less(a, b)
    }

    proof fn less_irreflexive(a: Seq<char>) {
        lemma_bytes_less_irreflexive(encode_utf8(a));
    }

    proof fn less_transitive(a: Seq<char>, b: Seq<char>, c: Seq<char>) {
        lemma_bytes_less_transitive(encode_utf8(a), encode_utf8(b), encode_utf8(c));
    }

    proof fn less_total(a: Seq<char>, b: Seq<char>) {
        lemma_bytes_less_total(encode_utf8(a), encode_utf8(b));
        lemma_utf8_injective(a, b);
    }

    fn compare(&self, other: &Self) -> (r: Relation) {
        let a = self.url.as_str();
        let b = other.url.as_str();
        proof {
            lemma_utf8_injective(a@, b@);
        }
        compare_bytes(a.as_bytes(), b.as_bytes())
    }
}

// Endpoints

/// Where an endpoint can be reached, as a value.
#[verifier::ext_equal]
pub struct AddressView {
    pub id: Seq<u8>,
    pub ips: Set<SocketView>,
    pub relays: Set<Seq<char>>,
}

/// Where an endpoint can be reached: its key, the sockets it listens on, and the relays that know
/// it.
pub struct EndpointAddr {
    id: EndpointId,
    ips: OrderedMap<SocketAddress, ()>,
    relays: OrderedMap<RelayUrl, ()>,
}

impl View for EndpointAddr {
    type V = AddressView;

    closed spec fn view(&self) -> AddressView {
        AddressView { id: self.id@, ips: self.ips@.dom(), relays: self.relays@.dom() }
    }
}

/// The members of a set in the order of their keys.
pub open spec fn members<K: Key>(set: Set<K::V>) -> Seq<(K::V, ())> {
    crate::ordered::listing::<K, ()>(Map::new(|k: K::V| set.contains(k), |k: K::V| ()))
}

/// The sockets of an address, in order.
pub open spec fn ip_list(a: AddressView) -> Seq<(SocketView, ())> {
    members::<SocketAddress>(a.ips)
}

/// The relays of an address, in order.
pub open spec fn relay_list(a: AddressView) -> Seq<(Seq<char>, ())> {
    members::<RelayUrl>(a.relays)
}

/// A relay is enough to find an endpoint; only where there is none do its sockets count.
pub open spec fn compact(a: AddressView) -> AddressView {
    if a.relays == Set::<Seq<char>>::empty() {
        a
    } else {
        AddressView { ips: Set::empty(), ..a }
    }
}

impl EndpointAddr {
    /// An endpoint of which only the key is known.
    pub fn new(id: EndpointId) -> (a: EndpointAddr)
        ensures
            a@ == (AddressView { id: id@, ips: Set::empty(), relays: Set::empty() }),
    {
        let a = EndpointAddr { id, ips: OrderedMap::new(), relays: OrderedMap::new() };
        assert(a@.ips =~= Set::<SocketView>::empty());
        assert(a@.relays =~= Set::<Seq<char>>::empty());
        a
    }

    pub fn id(&self) -> (id: EndpointId)
        ensures
            id@ == self@.id,
    {
        self.id
    }

    /// Adds a socket that the endpoint listens on.
    pub fn with_ip_addr(self, ip: SocketAddress) -> (a: EndpointAddr)
        ensures
            a@ == (AddressView { ips: self@.ips.insert(ip@), ..self@ }),
    {
        let ghost before = self@;
        let EndpointAddr { id, mut ips, relays } = self;
        ips.insert(ip, ());
        let a = EndpointAddr { id, ips, relays };
        assert(a@.ips =~= before.ips.insert(ip@));
        a
    }

    /// Adds a relay that knows the endpoint.
    pub fn with_relay_url(self, relay: RelayUrl) -> (a: EndpointAddr)
        ensures
            a@ == (AddressView { relays: self@.relays.insert(relay@), ..self@ }),
    {
        let ghost before = self@;
        let ghost added = relay@;
        let EndpointAddr { id, ips, mut relays } = self;
        relays.insert(relay, ());
        let a = EndpointAddr { id, ips, relays };
        assert(a@.relays =~= before.relays.insert(added));
        a
    }

    proof fn lemma_lists(&self)
        requires
            self.ips.wf(),
            self.relays.wf(),
        ensures
            self.ips.pairs() == ip_list(self@),
            self.relays.pairs() == relay_list(self@),
            self@.ips.finite(),
            self@.relays.finite(),
            self@.ips.len() == ip_list(self@).len(),
            self@.relays.len() == relay_list(self@).len(),
            self@.relays == Set::<Seq<char>>::empty() <==> relay_list(self@).len() == 0,
    {
        self.ips.lemma_pairs();
        self.relays.lemma_pairs();
        assert(self.ips@ =~= Map::new(|k: SocketView| self@.ips.contains(k), |k: SocketView| ()));
        assert(self.relays@ =~= Map::new(|k: Seq<char>| self@.relays.contains(k), |k: Seq<char>| ()));
        if self@.relays == Set::<Seq<char>>::empty() {
            assert(self@.relays.len() == 0);
        }
        if relay_list(self@).len() == 0 {
            assert(self@.relays =~= Set::<Seq<char>>::empty());
        }
    }

    /// The number of sockets.
    pub fn ip_count(&self) -> (n: usize)
        ensures
            n == ip_list(self@).len(),
            n == self@.ips.len(),
    {
        proof {
            use_type_invariant(&self.ips);
            use_type_invariant(&self.relays);
            self.lemma_lists();
        }
        self.ips.len()
    }

    /// The number of relays.
    pub fn relay_count(&self) -> (n: usize)
        ensures
            n == relay_list(self@).len(),
            n == self@.relays.len(),
            n == 0 <==> self@.relays == Set::<Seq<char>>::empty(),
    {
        proof {
            use_type_invariant(&self.ips);
            use_type_invariant(&self.relays);
            self.lemma_lists();
        }
        self.relays.len()
    }

    /// The `i`-th socket in order.
    pub fn ip_at(&self, i: usize) -> (ip: SocketAddress)
        requires
            i < ip_list(self@).len(),
        ensures
            ip@ == ip_list(self@)[i as int].0,
    {
        proof {
            use_type_invariant(&self.ips);
            use_type_invariant(&self.relays);
            self.lemma_lists();
        }
        *self.ips.key_at(i)
    }

    /// The `i`-th relay in order.
    pub fn relay_at(&self, i: usize) -> (relay: &RelayUrl)
        requires
            i < relay_list(self@).len(),
        ensures
            relay@ == relay_list(self@)[i as int].0,
    {
        proof {
            use_type_invariant(&self.ips);
            use_type_invariant(&self.relays);
            self.lemma_lists();
        }
        self.relays.key_at(i)
    }

    fn copy_ips(&self) -> (ips: OrderedMap<SocketAddress, ()>)
        ensures
            ips@.dom() == self@.ips,
    {
        proof {
            use_type_invariant(&self.ips);
            self.ips.lemma_pairs();
        }
        let mut ips: OrderedMap<SocketAddress, ()> = OrderedMap::new();
        let mut i: usize = 0;
        while i < self.ips.len()
            invariant
                i <= self.ips.pairs().len(),
                forall|x: SocketView| #[trigger]
                    ips@.dom().contains(x) <==> exists|k: int|
                        0 <= k < i && (#[trigger] self.ips.pairs()[k]).0 == x,
            decreases self.ips.pairs().len() - i,
        {
            let ip = *self.ips.key_at(i);
            ips.insert(ip, ());
            assert(self.ips.pairs()[i as int].0 == ip@);
            i = i + 1;
        }
        assert(ips@.dom() =~= self.ips@.dom());
        ips
    }

    fn copy_relays(&self) -> (relays: OrderedMap<RelayUrl, ()>)
        ensures
            relays@.dom() == self@.relays,
    {
        proof {
            use_type_invariant(&self.relays);
            self.relays.lemma_pairs();
        }
        let mut relays: OrderedMap<RelayUrl, ()> = OrderedMap::new();
        let mut i: usize = 0;
        while i < self.relays.len()
            invariant
                i <= self.relays.pairs().len(),
                forall|x: Seq<char>| #[trigger]
                    relays@.dom().contains(x) <==> exists|k: int|
                        0 <= k < i && (#[trigger] self.relays.pairs()[k]).0 == x,
            decreases self.relays.pairs().len() - i,
        {
            let url = self.relays.key_at(i).clone();
            relays.insert(url, ());
            assert(self.relays.pairs()[i as int].0 == url@);
            i = i + 1;
        }
        assert(relays@.dom() =~= self.relays@.dom());
        relays
    }

    /// The address with its relays alone, if it has any.
    pub fn compact(&self) -> (a: EndpointAddr)
        ensures
            a@ == compact(self@),
    {
        let relays = self.copy_relays();
        let mut ips: OrderedMap<SocketAddress, ()> = OrderedMap::new();
        assert(ips@.dom() =~= Set::<SocketView>::empty());
        if self.relay_count() == 0 {
            ips = self.copy_ips();
        }
        EndpointAddr { id: self.id, ips, relays }
    }
}

impl Clone for EndpointAddr {
    fn clone(&self) -> (a: Self)
        ensures
            a@ == self@,
    {
        EndpointAddr { id: self.id, ips: self.copy_ips(), relays: self.copy_relays() }
    }
}

} // verus!
