//! Reusable codes by which endpoints ask a host for admission to its realm.
use crate::address::{
    compact, ip_list, members, relay_form, relay_list, AddressView, EndpointAddr, RelayUrl,
    SocketAddress, SocketView,
};
use crate::armor::{
    armor, lemma_spelled_ascii, lemma_spelled_len, lemma_unspelled, spelled, unarmor, unspelled,
};
use crate::auth::{permission_views, CertificateLimits, Permission, PermissionView, MAX_PERMISSIONS};
use crate::cbor::{
    array_head, bytes_item, lemma_head_len, lemma_nothing_after, lemma_take_array,
    lemma_take_fixed, lemma_take_last_fixed, lemma_take_list, lemma_take_text, lemma_take_u,
    take_array, take_end, take_fixed, take_list, take_text, take_u, text_item, uint_item, Reader,
    Writer,
};
use crate::crypto::{digest, is_public_key, sha256, EndpointId, Id};
use crate::error::Error;
use crate::message::lemma_utf8_injective;
use crate::octets::{lemma_concat_assoc, same_bytes, to_array};
use crate::ordered::{lemma_listing_exists, lemma_pairs_map_index, pairs_map, Key};
use crate::record::{
    lemma_take_all_error, lemma_take_endpoint, put_all, read_endpoint, take_all,
    take_endpoint, Put, Take,
};
use crate::time::Duration;
use vstd::prelude::*;
use vstd::utf8::encode_utf8;

verus! {

/// The longest life of a code, or of a certificate that is issued for one, in seconds: ten years.
pub const MAX_JOIN_SECS: u64 = 315_360_000;

/// The longest life of a code, or of a certificate that is issued for one.
pub fn max_join_lifetime() -> (d: Duration)
    ensures
        d@ == MAX_JOIN_SECS * 1_000_000_000,
{
    Duration::from_secs(MAX_JOIN_SECS)
}

// Options

/// Permission and registration limits attached to a reusable code, as a value.
#[verifier::ext_equal]
pub struct OptionsView {
    pub permissions: Seq<PermissionView>,
    pub limits: CertificateLimits,
    pub lifetime: nat,
    pub certificate_lifetime: nat,
    pub max_uses: usize,
}

/// Permission and registration limits attached to a reusable code.
#[derive(Debug)]
pub struct JoinOptions {
    pub permissions: Vec<Permission>,
    pub limits: CertificateLimits,
    pub lifetime: Duration,
    pub certificate_lifetime: Duration,
    /// Maximum distinct endpoint identities admitted by this code (1..=256).
    pub max_uses: usize,
}

impl View for JoinOptions {
    type V = OptionsView;

    open spec fn view(&self) -> OptionsView {
        OptionsView {
            permissions: permission_views(self.permissions@),
            limits: self.limits,
            lifetime: self.lifetime@,
            certificate_lifetime: self.certificate_lifetime@,
            max_uses: self.max_uses,
        }
    }
}

/// Whether a span lasts at least a second and at most ten years.
pub open spec fn lasting(nanos: nat) -> bool {
    1_000_000_000 <= nanos <= MAX_JOIN_SECS * 1_000_000_000
}

/// The rules for what may be attached to a code.
pub open spec fn options_valid(o: OptionsView) -> bool {
    &&& o.permissions.len() <= MAX_PERMISSIONS
    &&& lasting(o.lifetime)
    &&& lasting(o.certificate_lifetime)
    &&& 1 <= o.max_uses <= 256
}

/// A copy of a list of permissions.
pub fn copy_permissions(permissions: &Vec<Permission>) -> (copy: Vec<Permission>)
    ensures
        permission_views(copy@) == permission_views(permissions@),
{
    let mut copy: Vec<Permission> = Vec::new();
    let mut i: usize = 0;
    while i < permissions.len()
        invariant
            i <= permissions@.len(),
            copy@.len() == i,
            forall|j: int| 0 <= j < i ==> (#[trigger] copy@[j])@ == permissions@[j]@,
        decreases permissions.len() - i,
    {
        copy.push(permissions[i].clone());
        i = i + 1;
    }
    assert(permission_views(copy@) =~= permission_views(permissions@));
    copy
}

impl Clone for JoinOptions {
    fn clone(&self) -> (o: Self)
        ensures
            o@ == self@,
    {
        JoinOptions {
            permissions: copy_permissions(&self.permissions),
            limits: self.limits,
            lifetime: self.lifetime,
            certificate_lifetime: self.certificate_lifetime,
            max_uses: self.max_uses,
        }
    }
}

impl JoinOptions {
    /// The given permissions for an hour, for as many endpoints as a code may admit.
    pub fn new(permissions: Vec<Permission>) -> (o: JoinOptions)
        ensures
            o@ == (OptionsView {
                permissions: permission_views(permissions@),
                limits: CertificateLimits { max_payload: 0, max_subscriptions: 0 },
                lifetime: 3600 * 1_000_000_000,
                certificate_lifetime: 3600 * 1_000_000_000,
                max_uses: 256,
            }),
    {
        JoinOptions {
            permissions,
            limits: CertificateLimits::default(),
            lifetime: Duration::from_secs(3600),
            certificate_lifetime: Duration::from_secs(3600),
            max_uses: 256,
        }
    }

    pub fn validate(&self) -> (r: Result<(), Error>)
        ensures
            r == (if options_valid(self@) {
                Ok::<(), Error>(())
            } else {
                Err::<(), Error>(Error::Config("invalid join code limits"))
            }),
    {
        let longest = max_join_lifetime();
        if self.permissions.len() > MAX_PERMISSIONS || self.lifetime.as_secs() == 0
            || self.lifetime.exceeds(&longest) || self.certificate_lifetime.as_secs() == 0
            || self.certificate_lifetime.exceeds(&longest) || self.max_uses < 1 || self.max_uses
            > 256 {
            return Err(Error::Config("invalid join code limits"));
        }
        Ok(())
    }
}

// Routes

/// One way to a host, as a code lists it.
#[verifier::ext_equal]
pub enum RouteView {
    Ip(SocketView),
    Relay(Seq<char>),
}

/// The longest URL of a relay in a code, in bytes.
pub const MAX_RELAY: usize = 1024;

/// The most routes in a code.
pub const MAX_ROUTES: usize = 16;

/// The longest code, in bytes.
pub const MAX_CODE: usize = 32768;

pub open spec fn route_bytes(r: RouteView) -> Seq<u8> {
    match r {
        RouteView::Ip(a) => array_head(2) + (uint_item(
            if a.v6 {
                1
            } else {
                0
            },
        ) + bytes_item(a.bytes)),
        RouteView::Relay(url) => array_head(2) + (uint_item(2) + text_item(url)),
    }
}

pub open spec fn take_route(s: Seq<u8>) -> Result<(RouteView, Seq<u8>), Error> {
    match take_array(s, 2) { Err(e) => Err(e), Ok(s) =>
    match take_u(s) { Err(e) => Err(e), Ok((kind, s)) =>
    if kind == 0 {
        match take_fixed(s, 6) {
            Err(e) => Err(e),
            Ok((bytes, s)) => Ok((RouteView::Ip(SocketView { v6: false, bytes }), s)),
        }
    } else if kind == 1 {
        match take_fixed(s, 26) {
            Err(e) => Err(e),
            Ok((bytes, s)) => Ok((RouteView::Ip(SocketView { v6: true, bytes }), s)),
        }
    } else if kind == 2 {
        match take_text(s, MAX_RELAY as nat) {
            Err(e) => Err(e),
            Ok((text, s)) => match relay_form(text) {
                None => Err(Error::Protocol("join relay address")),
                Some(url) => Ok((RouteView::Relay(url), s)),
            },
        }
    } else {
        Err(Error::Protocol("join address type"))
    } } }
}

pub open spec fn route_put() -> Put<RouteView> {
    |r: RouteView| route_bytes(r)
}

pub open spec fn route_take() -> Take<RouteView> {
    |s: Seq<u8>| take_route(s)
}

/// The routes of an address: its sockets in order, then its relays in order.
pub open spec fn routes_of(a: AddressView) -> Seq<RouteView> {
    Seq::new(
        ip_list(a).len() + relay_list(a).len(),
        |i: int|
            if i < ip_list(a).len() {
                RouteView::Ip(ip_list(a)[i].0)
            } else {
                RouteView::Relay(relay_list(a)[i - ip_list(a).len()].0)
            },
    )
}

/// The address of the host `id` with the given routes.
pub open spec fn address_of(id: Seq<u8>, routes: Seq<RouteView>) -> AddressView {
    AddressView {
        id,
        ips: Set::new(|a: SocketView| routes.contains(RouteView::Ip(a))),
        relays: Set::new(|url: Seq<char>| routes.contains(RouteView::Relay(url))),
    }
}

/// Whether a route can stand in a code.
pub open spec fn route_formed(r: RouteView) -> bool {
    match r {
        RouteView::Ip(a) => a.bytes.len() == if a.v6 { 26int } else { 6 },
        RouteView::Relay(url) => encode_utf8(url).len() <= MAX_RELAY,
    }
}

/// What a route that stands in a code is read as: the URL of a relay is put in its normal form, or
/// refused.
pub open spec fn route_read(r: RouteView) -> Option<RouteView> {
    match r {
        RouteView::Ip(_) => Some(r),
        RouteView::Relay(url) => match relay_form(url) {
            None => None,
            Some(form) => Some(RouteView::Relay(form)),
        },
    }
}

proof fn lemma_take_route(r: RouteView, rest: Seq<u8>)
    requires
        route_formed(r),
    ensures
        take_route(route_bytes(r) + rest) == match route_read(r) {
            Some(read) => Ok::<(RouteView, Seq<u8>), Error>((read, rest)),
            None => Err(Error::Protocol("join relay address")),
        },
{
    match r {
        RouteView::Ip(a) => {
            let kind = if a.v6 { 1u64 } else { 0u64 };
            lemma_concat_assoc(array_head(2), uint_item(kind) + bytes_item(a.bytes), rest);
            lemma_concat_assoc(uint_item(kind), bytes_item(a.bytes), rest);
            lemma_take_array(2, 2, uint_item(kind) + (bytes_item(a.bytes) + rest));
            lemma_take_u(kind, bytes_item(a.bytes) + rest);
            lemma_take_fixed(a.bytes, if a.v6 { 26 } else { 6 }, rest);
        },
        RouteView::Relay(url) => {
            lemma_concat_assoc(array_head(2), uint_item(2) + text_item(url), rest);
            lemma_concat_assoc(uint_item(2), text_item(url), rest);
            lemma_take_array(2, 2, uint_item(2) + (text_item(url) + rest));
            lemma_take_u(2, text_item(url) + rest);
            lemma_take_text(url, MAX_RELAY as nat, rest);
        },
    }
}

/// What a list of routes is read as.
spec fn routes_read(routes: Seq<RouteView>) -> Seq<RouteView> {
    Seq::new(routes.len(), |i: int| route_read(routes[i])->0)
}

/// Whether every route on a list can be read.
spec fn all_read(routes: Seq<RouteView>) -> bool {
    forall|i: int| 0 <= i < routes.len() ==> route_read(#[trigger] routes[i]) is Some
}

proof fn lemma_take_routes(routes: Seq<RouteView>, rest: Seq<u8>)
    requires
        forall|i: int| 0 <= i < routes.len() ==> route_formed(#[trigger] routes[i]),
    ensures
        all_read(routes) ==> take_all(
            put_all(routes, route_put()) + rest,
            routes.len(),
            route_take(),
        ) == Ok::<(Seq<RouteView>, Seq<u8>), Error>((routes_read(routes), rest)),
        !all_read(routes) ==> take_all(
            put_all(routes, route_put()) + rest,
            routes.len(),
            route_take(),
        ) is Err,
    decreases routes.len(),
{
    let put = route_put();
    if routes.len() == 0 {
        assert(put_all(routes, put) + rest =~= rest);
        assert(routes_read(routes) =~= Seq::<RouteView>::empty());
    } else {
        let most = routes.drop_last();
        let last = routes.last();
        assert forall|i: int| 0 <= i < most.len() implies route_formed(#[trigger] most[i]) by {
            assert(most[i] == routes[i]);
        }
        assert(route_formed(routes[routes.len() - 1]));
        lemma_concat_assoc(put_all(most, put), put(last), rest);
        lemma_take_routes(most, put(last) + rest);
        lemma_take_route(last, rest);
        if all_read(most) {
            assert forall|i: int| 0 <= i < routes.len() && route_read(last) is Some implies
                route_read(#[trigger] routes[i]) is Some by {
                if i < most.len() {
                    assert(route_read(most[i]) is Some);
                }
            }
            assert(route_read(routes[routes.len() - 1]) == route_read(last));
            if route_read(last) is Some {
                assert(routes_read(most).push(route_read(last)->0) =~= routes_read(routes));
            }
        } else {
            let i = choose|i: int| 0 <= i < most.len() && route_read(#[trigger] most[i]) is None;
            assert(route_read(routes[i]) is None);
        }
    }
}

// Codes

/// A code, as a value.
#[verifier::ext_equal]
pub struct CodeView {
    pub address: AddressView,
    pub secret: Seq<u8>,
}

/// What every code begins with.
pub open spec fn code_prefix() -> Seq<u8> {
    encode_utf8("rtn-mq://join/"@)
}

/// What a code spells.
pub open spec fn code_payload(a: AddressView, secret: Seq<u8>) -> Seq<u8> {
    array_head(4) + (uint_item(3) + (bytes_item(a.id) + (array_head(routes_of(a).len() as u64) + (
    put_all(routes_of(a), route_put()) + bytes_item(secret)))))
}

/// Whether the URL of some relay is too long for a code.
pub open spec fn relay_too_long(a: AddressView) -> bool {
    exists|i: int|
        0 <= i < relay_list(a).len() && encode_utf8((#[trigger] relay_list(a)[i]).0).len()
            > MAX_RELAY
}

/// The text of a code. Relay hints replace interface addresses when available.
pub open spec fn code_text(c: CodeView) -> Result<Seq<char>, Error> {
    let a = compact(c.address);
    let count = routes_of(a).len();
    if count == 0 || count > MAX_ROUTES {
        Err(Error::Protocol("join address count"))
    } else if relay_too_long(a) {
        Err(Error::MessageTooLarge)
    } else {
        Ok("rtn-mq://join/"@ + spelled(code_payload(a, c.secret)))
    }
}

/// The code that a text spells behind its prefix.
pub open spec fn code_of_payload(b: Seq<u8>) -> Result<CodeView, Error> {
    match take_array(b, 4) { Err(e) => Err(e), Ok(s) =>
    match take_u(s) { Err(e) => Err(e), Ok((version, s)) =>
    if version != 3 {
        Err(Error::Protocol("join code version"))
    } else {
        match take_endpoint(s) { Err(e) => Err(e), Ok((id, s)) =>
        match take_list(s, MAX_ROUTES as nat) { Err(e) => Err(e), Ok((count, s)) =>
        match take_all(s, count, route_take()) { Err(e) => Err(e), Ok((routes, s)) =>
        match take_fixed(s, 32) { Err(e) => Err(e), Ok((secret, s)) =>
        match take_end(s) {
            Err(e) => Err(e),
            Ok(()) => Ok(CodeView { address: address_of(id, routes), secret }),
        } } } } }
    } } }
}

/// The code that a text stands for.
pub open spec fn code_of(text: Seq<char>) -> Result<CodeView, Error> {
    let b = encode_utf8(text);
    let prefix = code_prefix();
    if b.len() > MAX_CODE {
        Err(Error::MessageTooLarge)
    } else if !prefix.is_prefix_of(b) {
        Err(Error::Protocol("join code prefix"))
    } else {
        match unspelled(b.skip(prefix.len() as int)) {
            None => Err(Error::Protocol("join code base64")),
            Some(payload) =>
            match code_of_payload(payload) { Err(e) => Err(e), Ok(c) =>
            match code_text(c) { Err(e) => Err(e), Ok(again) =>
            if again != text {
                Err(Error::Protocol("noncanonical join code"))
            } else {
                Ok(c)
            } } },
        }
    }
}

/// The public identifier of a code, which tells nothing of its secret.
pub open spec fn code_id(secret: Seq<u8>) -> Seq<u8> {
    sha256(encode_utf8("iroh-mq/join-code-id/v3"@) + secret).take(16)
}

/// A bearer credential. Share its encoding privately with intended peers.
pub struct JoinCode {
    address: EndpointAddr,
    secret: [u8; 32],
}

impl View for JoinCode {
    type V = CodeView;

    closed spec fn view(&self) -> CodeView {
        CodeView { address: self.address@, secret: self.secret@ }
    }
}

impl Clone for JoinCode {
    fn clone(&self) -> (c: Self)
        ensures
            c@ == self@,
    {
        JoinCode { address: self.address.clone(), secret: self.secret }
    }
}

impl JoinCode {
    pub fn from_parts(address: EndpointAddr, secret: [u8; 32]) -> (c: JoinCode)
        ensures
            c@ == (CodeView { address: address@, secret: secret@ }),
    {
        JoinCode { address, secret }
    }

    /// Where the host can be reached.
    pub fn address(&self) -> (a: &EndpointAddr)
        ensures
            a@ == self@.address,
    {
        &self.address
    }

    /// What proves that its bearer was given the code.
    pub fn secret(&self) -> (s: [u8; 32])
        ensures
            s@ == self@.secret,
    {
        self.secret
    }

    /// Domain separation keeps the public identifier distinct from the stored secret hash.
    pub fn id(&self) -> (id: Id)
        ensures
            id@ == code_id(self@.secret),
    {
        let mut input: Vec<u8> = Vec::new();
        input.extend_from_slice("iroh-mq/join-code-id/v3".as_bytes());
        input.extend_from_slice(&self.secret);
        proof {
            assert(input@ =~= encode_utf8("iroh-mq/join-code-id/v3"@) + self.secret@);
        }
        let d = digest(input.as_slice());
        let s = d.as_slice();
        to_array(&s[0..16])
    }

    pub fn host_id(&self) -> (id: EndpointId)
        ensures
            id@ == self@.address.id,
    {
        self.address.id()
    }

    /// Encodes a compact code. Relay hints replace interface addresses when available.
    pub fn encode(&self) -> (r: Result<String, Error>)
        ensures
            match code_text(self@) {
                Ok(text) => r is Ok && r->Ok_0@ == text,
                Err(e) => r is Err && r->Err_0 == e,
            },
    {
        let address = self.address.compact();
        let ghost a = address@;
        let ghost routes = routes_of(a);
        let ghost put = route_put();
        let ips: usize = address.ip_count();
        let relays: usize = address.relay_count();
        if ips > MAX_ROUTES || relays > MAX_ROUTES {
            return Err(Error::Protocol("join address count"));
        }
        let count: usize = ips + relays;
        if count == 0 || count > MAX_ROUTES {
            return Err(Error::Protocol("join address count"));
        }
        let id = address.id();
        let mut w = Writer::new();
        w.array(4);
        w.u(3);
        w.bytes(id.as_bytes());
        w.array(count);
        let ghost before = w@;
        let mut i: usize = 0;
        proof {
            assert(routes.take(0) =~= Seq::<RouteView>::empty());
            lemma_nothing_after(before);
        }
        while i < count
            invariant
                i <= count,
                a == address@,
                a == compact(self@.address),
                routes == routes_of(a),
                count == routes.len(),
                0 < count <= MAX_ROUTES,
                ips == ip_list(a).len(),
                relays == relay_list(a).len(),
                count == ips + relays,
                put == route_put(),
                w@ == before + put_all(routes.take(i as int), put),
                forall|j: int|
                    0 <= j < relay_list(a).len() && ips + j < i ==> encode_utf8(
                        (#[trigger] relay_list(a)[j]).0,
                    ).len() <= MAX_RELAY,
            decreases count - i,
        {
            if i < ips {
                let ip = address.ip_at(i);
                let bytes = ip.to_bytes();
                w.array(2);
                match ip {
                    SocketAddress::V4 { .. } => {
                        w.u(0);
                    },
                    SocketAddress::V6 { .. } => {
                        w.u(1);
                    },
                }
                w.bytes(bytes.as_slice());
            } else {
                let relay = address.relay_at(i - ips);
                let url = relay.as_str();
                if url.as_bytes().len() > MAX_RELAY {
                    assert(encode_utf8(relay_list(a)[i - ips].0).len() > MAX_RELAY);
                    return Err(Error::MessageTooLarge);
                }
                w.array(2);
                w.u(2);
                w.text(url);
            }
            proof {
                let next = routes.take(i + 1);
                assert(next.drop_last() =~= routes.take(i as int));
                assert(next.last() == routes[i as int]);
                lemma_concat_assoc(
                    before,
                    put_all(routes.take(i as int), put),
                    route_bytes(routes[i as int]),
                );
            }
            i = i + 1;
        }
        proof {
            assert(routes.take(i as int) =~= routes);
        }
        w.bytes(&self.secret);
        proof {
            lemma_concat_assoc(before, put_all(routes, put), bytes_item(self.secret@));
        }
        let payload = w.finish();
        let mut text = "rtn-mq://join/".to_owned();
        text.append(armor(payload.as_slice()).as_str());
        Ok(text)
    }

    fn decode_routes(r: &mut Reader, id: EndpointId, count: usize) -> (v: Result<
        EndpointAddr,
        Error,
    >)
        requires
            old(r).wf(),
        ensures
            final(r).wf(),
            match take_all(old(r)@, count as nat, route_take()) {
                Ok((routes, rest)) => v is Ok && v->Ok_0@ == address_of(id@, routes) && final(r)@
                    == rest,
                Err(e) => v is Err && v->Err_0 == e,
            },
    {
        let ghost start = r@;
        let ghost take = route_take();
        let ghost mut routes = Seq::<RouteView>::empty();
        let mut address = EndpointAddr::new(id);
        assert(address@ =~= address_of(id@, routes));
        let mut i: usize = 0;
        while i < count
            invariant
                i <= count,
                r.wf(),
                take == route_take(),
                start == old(r)@,
                address@ == address_of(id@, routes),
                take_all(start, i as nat, take) == Ok::<(Seq<RouteView>, Seq<u8>), Error>(
                    (routes, r@),
                ),
            decreases count - i,
        {
            proof {
                if take_route(r@) is Err {
                    assert(take_all(start, (i + 1) as nat, take) is Err);
                    lemma_take_all_error(start, (i + 1) as nat, count as nat, take);
                }
            }
            let ghost had = routes;
            r.array(2)?;
            let kind: u64 = r.u()?;
            if kind == 0 {
                let bytes: [u8; 6] = r.fixed()?;
                let ip = SocketAddress::from_v4_bytes(&bytes);
                address = address.with_ip_addr(ip);
                proof {
                    routes = routes.push(RouteView::Ip(ip@));
                }
            } else if kind == 1 {
                let bytes: [u8; 26] = r.fixed()?;
                let ip = SocketAddress::from_v6_bytes(&bytes);
                address = address.with_ip_addr(ip);
                proof {
                    routes = routes.push(RouteView::Ip(ip@));
                }
            } else if kind == 2 {
                let text = r.text(MAX_RELAY)?;
                match RelayUrl::parse(text) {
                    None => {
                        return Err(Error::Protocol("join relay address"));
                    },
                    Some(url) => {
                        proof {
                            routes = routes.push(RouteView::Relay(url@));
                        }
                        address = address.with_relay_url(url);
                    },
                }
            } else {
                return Err(Error::Protocol("join address type"));
            }
            proof {
                lemma_address_push(id@, had, routes.last());
                assert(routes =~= had.push(routes.last()));
            }
            i = i + 1;
        }
        Ok(address)
    }

    pub fn decode(code: &str) -> (r: Result<JoinCode, Error>)
        ensures
            match code_of(code@) {
                Ok(c) => r is Ok && r->Ok_0@ == c,
                Err(e) => r is Err && r->Err_0 == e,
            },
    {
        let text = code.as_bytes();
        if text.len() > MAX_CODE {
            return Err(Error::MessageTooLarge);
        }
        let prefix = "rtn-mq://join/".as_bytes();
        if text.len() < prefix.len() {
            return Err(Error::Protocol("join code prefix"));
        }
        if !same_bytes(&text[0..prefix.len()], prefix) {
            proof {
                if code_prefix().is_prefix_of(text@) {
                    assert(text@.subrange(0, prefix@.len() as int) =~= code_prefix());
                }
            }
            return Err(Error::Protocol("join code prefix"));
        }
        proof {
            assert(code_prefix().is_prefix_of(text@)) by {
                assert(text@.subrange(0, prefix@.len() as int) == code_prefix());
            }
        }
        let encoded = &text[prefix.len()..text.len()];
        assert(encoded@ =~= text@.skip(prefix@.len() as int));
        let bytes = match unarmor(encoded) {
            Some(bytes) => bytes,
            None => return Err(Error::Protocol("join code base64")),
        };
        let mut r = Reader::new(bytes.as_slice());
        r.array(4)?;
        let version: u64 = r.u()?;
        if version != 3 {
            return Err(Error::Protocol("join code version"));
        }
        let id = read_endpoint(&mut r)?;
        let count: usize = r.list(MAX_ROUTES)?;
        let address = JoinCode::decode_routes(&mut r, id, count)?;
        let secret: [u8; 32] = r.fixed()?;
        r.end()?;
        let value = JoinCode { address, secret };
        let again = value.encode()?;
        proof {
            lemma_utf8_injective(again@, code@);
        }
        if !same_bytes(again.as_str().as_bytes(), text) {
            return Err(Error::Protocol("noncanonical join code"));
        }
        Ok(value)
    }
}

proof fn lemma_address_push(id: Seq<u8>, routes: Seq<RouteView>, r: RouteView)
    ensures
        address_of(id, routes.push(r)) == match r {
            RouteView::Ip(a) => AddressView {
                ips: address_of(id, routes).ips.insert(a),
                ..address_of(id, routes)
            },
            RouteView::Relay(url) => AddressView {
                relays: address_of(id, routes).relays.insert(url),
                ..address_of(id, routes)
            },
        },
{
    let more = routes.push(r);
    assert forall|x: RouteView| #[trigger] more.contains(x) == (routes.contains(x) || x == r) by {
        if routes.contains(x) {
            let i = choose|i: int| 0 <= i < routes.len() && routes[i] == x;
            assert(more[i] == x);
        }
        if x == r {
            assert(more[routes.len() as int] == x);
        }
        if more.contains(x) {
            let i = choose|i: int| 0 <= i < more.len() && more[i] == x;
            if i < routes.len() {
                assert(routes[i] == x);
            }
        }
    }
    match r {
        RouteView::Ip(a) => {
            assert(address_of(id, more).ips =~= address_of(id, routes).ips.insert(a));
            assert(address_of(id, more).relays =~= address_of(id, routes).relays);
        },
        RouteView::Relay(url) => {
            assert(address_of(id, more).ips =~= address_of(id, routes).ips);
            assert(address_of(id, more).relays =~= address_of(id, routes).relays.insert(url));
        },
    }
}

// What codes promise

/// An address whose parts have the lengths and forms that their types give them.
pub open spec fn address_formed(a: AddressView) -> bool {
    &&& a.id.len() == 32 && is_public_key(a.id)
    &&& a.ips.finite()
    &&& a.relays.finite()
    &&& forall|ip: SocketView| #[trigger] a.ips.contains(ip) ==> route_formed(RouteView::Ip(ip))
}

/// Whether relays whose URLs are read again are the same relays.
pub open spec fn relays_read_back(relays: Set<Seq<char>>) -> bool {
    &&& forall|url: Seq<char>| #[trigger]
        relays.contains(url) ==> relay_form(url) is Some && relays.contains(relay_form(url)->0)
    &&& forall|url: Seq<char>| #[trigger]
        relays.contains(url) ==> exists|u: Seq<char>|
            relays.contains(u) && #[trigger] relay_form(u) == Some(url)
}

/// The list of a finite set holds its members.
proof fn lemma_members<K: Key>(set: Set<K::V>)
    requires
        set.finite(),
    ensures
        members::<K>(set).len() == set.len(),
        forall|i: int| 0 <= i < members::<K>(set).len() ==> set.contains((#[trigger] members::<K>(set)[i]).0),
        forall|k: K::V| #[trigger]
            set.contains(k) ==> exists|i: int|
                0 <= i < members::<K>(set).len() && (#[trigger] members::<K>(set)[i]).0 == k,
{
    let m = Map::new(|k: K::V| set.contains(k), |k: K::V| ());
    assert(m.dom() =~= set);
    lemma_listing_exists::<K, ()>(m);
    let s = members::<K>(set);
    assert forall|i: int| 0 <= i < s.len() implies set.contains((#[trigger] s[i]).0) by {
        lemma_pairs_map_index::<K, ()>(s, i);
    }
    assert forall|k: K::V| #[trigger] set.contains(k) implies exists|i: int|
        0 <= i < s.len() && (#[trigger] s[i]).0 == k by {
        assert(pairs_map(s).contains_key(k));
    }
}

/// The routes of an address make that address.
proof fn lemma_address_of_routes(a: AddressView)
    requires
        address_formed(a),
        !relay_too_long(a),
    ensures
        address_of(a.id, routes_of(a)) == a,
        forall|i: int| 0 <= i < routes_of(a).len() ==> route_formed(#[trigger] routes_of(a)[i]),
{
    lemma_members::<SocketAddress>(a.ips);
    lemma_members::<RelayUrl>(a.relays);
    let routes = routes_of(a);
    let n = ip_list(a).len() as int;
    assert forall|ip: SocketView| #[trigger] a.ips.contains(ip) == routes.contains(
        RouteView::Ip(ip),
    ) by {
        if a.ips.contains(ip) {
            let i = choose|i: int| 0 <= i < ip_list(a).len() && (#[trigger] ip_list(a)[i]).0 == ip;
            assert(routes[i] == RouteView::Ip(ip));
        }
        if routes.contains(RouteView::Ip(ip)) {
            let i = choose|i: int| 0 <= i < routes.len() && routes[i] == RouteView::Ip(ip);
            assert(ip_list(a)[i].0 == ip);
        }
    }
    assert forall|url: Seq<char>| #[trigger] a.relays.contains(url) == routes.contains(
        RouteView::Relay(url),
    ) by {
        if a.relays.contains(url) {
            let i = choose|i: int|
                0 <= i < relay_list(a).len() && (#[trigger] relay_list(a)[i]).0 == url;
            assert(routes[n + i] == RouteView::Relay(url));
        }
        if routes.contains(RouteView::Relay(url)) {
            let i = choose|i: int| 0 <= i < routes.len() && routes[i] == RouteView::Relay(url);
            assert(relay_list(a)[i - n].0 == url);
        }
    }
    assert(address_of(a.id, routes).ips =~= a.ips);
    assert(address_of(a.id, routes).relays =~= a.relays);
    assert forall|i: int| 0 <= i < routes.len() implies route_formed(#[trigger] routes[i]) by {
        if i < n {
            assert(a.ips.contains(ip_list(a)[i].0));
        } else {
            assert(a.relays.contains(relay_list(a)[i - n].0));
            assert(encode_utf8(relay_list(a)[i - n].0).len() <= MAX_RELAY);
        }
    }
}

proof fn lemma_routes_len(routes: Seq<RouteView>)
    requires
        forall|i: int| 0 <= i < routes.len() ==> route_formed(#[trigger] routes[i]),
    ensures
        put_all(routes, route_put()).len() <= 1051 * routes.len(),
    decreases routes.len(),
{
    if routes.len() > 0 {
        let most = routes.drop_last();
        assert forall|i: int| 0 <= i < most.len() implies route_formed(#[trigger] most[i]) by {
            assert(most[i] == routes[i]);
        }
        lemma_routes_len(most);
        let last = routes.last();
        assert(route_formed(routes[routes.len() - 1]));
        reveal(array_head);
        reveal(uint_item);
        reveal(bytes_item);
        reveal(text_item);
        lemma_head_len(4, 2);
        lemma_head_len(0, 0);
        lemma_head_len(0, 1);
        lemma_head_len(0, 2);
        match last {
            RouteView::Ip(a) => lemma_head_len(2, a.bytes.len() as u64),
            RouteView::Relay(url) => lemma_head_len(3, encode_utf8(url).len() as u64),
        }
    }
}

/// What is read of the routes of an address.
proof fn lemma_routes_read(a: AddressView)
    requires
        address_formed(a),
        !relay_too_long(a),
    ensures
        all_read(routes_of(a)) <==> forall|url: Seq<char>| #[trigger]
            a.relays.contains(url) ==> relay_form(url) is Some,
        all_read(routes_of(a)) ==> {
            let read = address_of(a.id, routes_read(routes_of(a)));
            &&& read.ips == a.ips
            &&& read.relays == a.relays <==> relays_read_back(a.relays)
        },
{
    lemma_members::<SocketAddress>(a.ips);
    lemma_members::<RelayUrl>(a.relays);
    let routes = routes_of(a);
    let n = ip_list(a).len() as int;
    if all_read(routes) {
        assert forall|url: Seq<char>| #[trigger] a.relays.contains(url) implies relay_form(url)
            is Some by {
            let i = choose|i: int|
                0 <= i < relay_list(a).len() && (#[trigger] relay_list(a)[i]).0 == url;
            assert(route_read(routes[n + i]) is Some);
        }
        let read = routes_read(routes);
        let b = address_of(a.id, read);
        assert forall|ip: SocketView| #[trigger] a.ips.contains(ip) == read.contains(
            RouteView::Ip(ip),
        ) by {
            if a.ips.contains(ip) {
                let i = choose|i: int|
                    0 <= i < ip_list(a).len() && (#[trigger] ip_list(a)[i]).0 == ip;
                assert(read[i] == RouteView::Ip(ip));
            }
            if read.contains(RouteView::Ip(ip)) {
                let i = choose|i: int| 0 <= i < read.len() && read[i] == RouteView::Ip(ip);
                assert(route_read(routes[i]) is Some);
                assert(ip_list(a)[i].0 == ip);
            }
        }
        assert(b.ips =~= a.ips);
        assert forall|url: Seq<char>| #[trigger] b.relays.contains(url) == exists|u: Seq<char>|
            a.relays.contains(u) && #[trigger] relay_form(u) == Some(url) by {
            if b.relays.contains(url) {
                let i = choose|i: int| 0 <= i < read.len() && read[i] == RouteView::Relay(url);
                assert(route_read(routes[i]) is Some);
                let u = relay_list(a)[i - n].0;
                assert(a.relays.contains(u) && relay_form(u) == Some(url));
            }
            if exists|u: Seq<char>| a.relays.contains(u) && #[trigger] relay_form(u) == Some(url) {
                let u = choose|u: Seq<char>|
                    a.relays.contains(u) && #[trigger] relay_form(u) == Some(url);
                let i = choose|i: int|
                    0 <= i < relay_list(a).len() && (#[trigger] relay_list(a)[i]).0 == u;
                assert(routes[n + i] == RouteView::Relay(u));
                assert(read[n + i] == RouteView::Relay(url));
            }
        }
        if relays_read_back(a.relays) {
            assert forall|url: Seq<char>| #[trigger]
                b.relays.contains(url) == a.relays.contains(url) by {
                if b.relays.contains(url) {
                    let u = choose|u: Seq<char>|
                        a.relays.contains(u) && #[trigger] relay_form(u) == Some(url);
                    assert(a.relays.contains(relay_form(u)->0));
                }
            }
            assert(b.relays =~= a.relays);
        }
        if b.relays == a.relays {
            assert forall|url: Seq<char>| #[trigger] a.relays.contains(url) implies relay_form(url)
                is Some && a.relays.contains(relay_form(url)->0) by {
                assert(b.relays.contains(relay_form(url)->0));
            }
            assert forall|url: Seq<char>| #[trigger] a.relays.contains(url) implies exists|
                u: Seq<char>,
            | a.relays.contains(u) && #[trigger] relay_form(u) == Some(url) by {
                assert(b.relays.contains(url));
            }
        }
    } else {
        let i = choose|i: int| 0 <= i < routes.len() && route_read(#[trigger] routes[i]) is None;
        let url = relay_list(a)[i - n].0;
        assert(a.relays.contains(url) && relay_form(url) is None);
    }
}

/// Whoever is given a code's text reads the code, with its relays alone if it has any, exactly if the
/// URLs of its relays are read as the same relays again. That holds of URLs in normal form, and of a
/// code without relays.
pub proof fn law_code_round_trip(c: CodeView)
    requires
        address_formed(c.address),
        c.secret.len() == 32,
    ensures
        code_text(c) matches Ok(text) ==> (code_of(text) == Ok::<CodeView, Error>(
            CodeView { address: compact(c.address), ..c },
        ) <==> relays_read_back(c.address.relays)),
        (forall|url: Seq<char>| #[trigger]
            c.address.relays.contains(url) ==> relay_form(url) == Some(url))
            ==> relays_read_back(c.address.relays),
{
    if code_text(c) is Ok {
        let a = compact(c.address);
        let text = code_text(c)->Ok_0;
        let routes = routes_of(a);
        let count = routes.len() as u64;
        let last = bytes_item(c.secret);
        assert(address_formed(a));
        lemma_address_of_routes(a);
        lemma_take_routes(routes, last);
        lemma_routes_read(a);
        let s3 = put_all(routes, route_put()) + last;
        let s2 = array_head(count) + s3;
        let s1 = bytes_item(a.id) + s2;
        lemma_take_array(4, 4, uint_item(3) + s1);
        lemma_take_u(3, s1);
        lemma_take_endpoint(a.id, s2);
        lemma_take_list(count, MAX_ROUTES as nat, s3);
        lemma_take_last_fixed(c.secret, 32);
        let payload = code_payload(a, c.secret);
        let read = CodeView {
            address: address_of(a.id, routes_read(routes)),
            secret: c.secret,
        };
        if all_read(routes) {
            assert(code_of_payload(payload) == Ok::<CodeView, Error>(read));
        } else {
            assert(code_of_payload(payload) is Err);
        }
        assert(compact(a) =~= a);
        let prefix = "rtn-mq://join/"@;
        lemma_code_encoding(payload);
        let b = encode_utf8(text);
        assert(b.skip(code_prefix().len() as int) =~= encode_utf8(spelled(payload)));
        assert(code_prefix().is_prefix_of(b));
        lemma_unspelled(payload);
        lemma_code_len(a, c.secret);
    }
}

/// No code is too long to be read.
proof fn lemma_code_len(a: AddressView, secret: Seq<u8>)
    requires
        a.id.len() == 32,
        secret.len() == 32,
        routes_of(a).len() <= MAX_ROUTES,
        forall|i: int| 0 <= i < routes_of(a).len() ==> route_formed(#[trigger] routes_of(a)[i]),
    ensures
        encode_utf8("rtn-mq://join/"@ + spelled(code_payload(a, secret))).len() <= MAX_CODE,
{
    let payload = code_payload(a, secret);
    let prefix = "rtn-mq://join/"@;
    assert(payload.len() <= 17000) by {
        reveal(array_head);
        reveal(uint_item);
        reveal(bytes_item);
        lemma_routes_len(routes_of(a));
        lemma_head_len(4, 4);
        lemma_head_len(0, 3);
        lemma_head_len(2, 32);
        lemma_head_len(4, routes_of(a).len() as u64);
    }
    lemma_spelled_len(payload);
    lemma_code_encoding(payload);
}

/// The text of a code is ASCII.
proof fn lemma_code_encoding(payload: Seq<u8>)
    ensures
        encode_utf8("rtn-mq://join/"@ + spelled(payload)) == code_prefix() + encode_utf8(
            spelled(payload),
        ),
        code_prefix().len() == 14,
        encode_utf8(spelled(payload)).len() == spelled(payload).len(),
{
    let prefix = "rtn-mq://join/"@;
    let rest = spelled(payload);
    let text = prefix + rest;
    lemma_spelled_ascii(payload);
    reveal_strlit("rtn-mq://join/");
    assert(vstd::utf8::is_ascii_chars(text)) by {
        assert forall|i: int| 0 <= i < text.len() implies '\0' <= #[trigger] text[i] <= '\u{7f}' by {
            if i >= prefix.len() {
                assert(text[i] == rest[i - prefix.len()]);
            }
        }
    }
    vstd::utf8::is_ascii_chars_encode_utf8(prefix);
    vstd::utf8::is_ascii_chars_encode_utf8(rest);
    vstd::utf8::is_ascii_chars_encode_utf8(text);
    assert forall|i: int| 0 <= i < text.len() implies encode_utf8(text)[i] == (encode_utf8(prefix)
        + encode_utf8(rest))[i] by {
        if i < prefix.len() {
            assert(text[i] == prefix[i]);
        } else {
            assert(text[i] == rest[i - prefix.len()]);
        }
    }
    assert(encode_utf8(text) =~= encode_utf8(prefix) + encode_utf8(rest));
}

/// A code that is read is the one text of what it says: what two texts are read as differs.
pub proof fn law_code_canonical(text: Seq<char>)
    ensures
        code_of(text) matches Ok(c) ==> code_text(c) == Ok::<Seq<char>, Error>(text),
{
}

} // verus!
