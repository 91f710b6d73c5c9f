//! Contacts: where an endpoint of a realm can be reached, as text that is handed on.
use crate::address::{relay_form, RelayUrl};
use crate::armor::{armor, lemma_spelled_ascii, lemma_spelled_len, lemma_unspelled, spelled, unarmor, unspelled};
use crate::cbor::{
    array_head, bytes_item, lemma_head_len, lemma_nothing_after, lemma_take_array,
    lemma_take_fixed, lemma_take_list, lemma_take_text, take_array, take_end, take_fixed,
    take_list, take_text, text_item, uint_item, Reader, Writer,
};
use crate::crypto::{is_public_key, EndpointId, Id};
use crate::error::Error;
use crate::message::{lemma_utf8_injective, text_less};
use crate::octets::{compare_bytes, lemma_concat_assoc, same_bytes, Relation};
use crate::record::{
    lemma_take_all, lemma_take_all_error, lemma_take_endpoint, lemma_take_version, put_all,
    read_endpoint, read_version, take_all, take_endpoint, take_version, Put, Take,
};
use vstd::prelude::*;
use vstd::utf8::encode_utf8;

verus! {

/// The most addresses of a contact.
pub const MAX_ADDRESSES: usize = 16;

/// The longest address of a contact, in bytes.
pub const MAX_ADDRESS: usize = 1024;

/// The longest contact, in bytes.
pub const MAX_INVITE: usize = 24576;

// Addresses as text

/// The label of the socket address that a text names, as `iroh::TransportAddr` prints it: the
/// prefix `ip:` and the address in normal form. `None` where the text names none.
pub uninterp spec fn socket_label(text: Seq<char>) -> Option<Seq<char>>;

/// Whether the socket address that one text names comes before the one that another names, in the
/// order of `iroh::TransportAddr`; never where a text names none.
pub uninterp spec fn socket_before(a: Seq<char>, b: Seq<char>) -> bool;

/// Reads a socket address and prints it as an `iroh::TransportAddr`.
#[verifier::external_body]
fn label_socket(text: &str) -> (r: Option<String>)
    ensures
        match r {
            Some(label) => socket_label(text@) == Some(label@) && "ip:"@.is_prefix_of(label@),
            None => socket_label(text@) is None,
        },
{
    match text.parse() {
        Ok(addr) => Some(iroh::TransportAddr::Ip(addr).to_string()),
        Err(_) => None,
    }
}

/// Compares two socket addresses as values of `iroh::TransportAddr`.
#[verifier::external_body]
fn compare_sockets(a: &str, b: &str) -> (r: bool)
    ensures
        r == socket_before(a@, b@),
{
    match (a.parse(), b.parse()) {
        (Ok(a), Ok(b)) => iroh::TransportAddr::Ip(a) < iroh::TransportAddr::Ip(b),
        _ => false,
    }
}

/// One address of a contact, by its label: a socket or a relay.
#[verifier::ext_equal]
pub enum ContactView {
    Ip(Seq<char>),
    Relay(Seq<char>),
}

/// The text behind a prefix, if there is one.
pub open spec fn behind(prefix: Seq<char>, text: Seq<char>) -> Option<Seq<char>> {
    if prefix.is_prefix_of(text) {
        Some(text.skip(prefix.len() as int))
    } else {
        None
    }
}

/// `str::strip_prefix` of std, with a string as the prefix: the text behind it, if the text starts
/// with it.
#[verifier::external_body]
fn strip<'a>(text: &'a str, prefix: &str) -> (r: Option<&'a str>)
    ensures
        match r {
            Some(rest) => behind(prefix@, text@) == Some(rest@),
            None => behind(prefix@, text@) is None,
        },
{
    text.strip_prefix(prefix)
}

/// Reads one address of a contact: the label that it has in normal form, and which kind it is.
pub open spec fn take_contact(s: Seq<u8>) -> Result<(ContactView, Seq<u8>), Error> {
    match take_text(s, MAX_ADDRESS as nat) { Err(e) => Err(e), Ok((text, s)) =>
    match behind("ip:"@, text) {
        Some(ip) => match socket_label(ip) {
            None => Err(Error::Protocol("invite IP")),
            Some(label) => Ok((ContactView::Ip(label), s)),
        },
        None => match behind("relay:"@, text) {
            None => Err(Error::Protocol("invite address type")),
            Some(relay) => match relay_form(relay) {
                None => Err(Error::Protocol("invite relay")),
                Some(url) => Ok((ContactView::Relay("relay:"@ + url), s)),
            },
        },
    } }
}

pub open spec fn contact_take() -> Take<ContactView> {
    |s: Seq<u8>| take_contact(s)
}

pub open spec fn label_put() -> Put<Seq<char>> {
    |label: Seq<char>| text_item(label)
}

// Invitations

/// A contact, as a value. Its sockets and its relays are given by their labels.
#[verifier::ext_equal]
pub struct InviteView {
    pub realm_id: Seq<u8>,
    pub authority: Seq<u8>,
    pub host: Seq<u8>,
    pub ips: Seq<Seq<char>>,
    pub relays: Seq<Seq<char>>,
}

/// Provision this contact over a trusted channel. It carries no authority private key or bearer
/// secret. Sockets and relays are given by their labels, such as `ip:192.0.2.1:4433`, in normal
/// form and in order.
#[derive(Debug)]
pub struct PeerInvite {
    pub realm_id: Id,
    pub authority: EndpointId,
    pub host: EndpointId,
    pub ips: Vec<String>,
    pub relays: Vec<String>,
}

/// The views of a list of texts.
pub open spec fn text_views(v: Seq<String>) -> Seq<Seq<char>> {
    Seq::new(v.len(), |i: int| v[i]@)
}

/// A list of texts, copied.
pub fn copy_texts(v: &Vec<String>) -> (copy: Vec<String>)
    ensures
        text_views(copy@) == text_views(v@),
{
    let mut copy: Vec<String> = Vec::new();
    let mut i: usize = 0;
    while i < v.len()
        invariant
            i <= v@.len(),
            copy@.len() == i,
            forall|j: int| 0 <= j < i ==> (#[trigger] copy@[j])@ == v@[j]@,
        decreases v.len() - i,
    {
        copy.push(v[i].clone());
        i = i + 1;
    }
    assert(text_views(copy@) =~= text_views(v@));
    copy
}

impl View for PeerInvite {
    type V = InviteView;

    open spec fn view(&self) -> InviteView {
        InviteView {
            realm_id: self.realm_id@,
            authority: self.authority@,
            host: self.host@,
            ips: text_views(self.ips@),
            relays: text_views(self.relays@),
        }
    }
}

impl Clone for PeerInvite {
    fn clone(&self) -> (i: Self)
        ensures
            i@ == self@,
    {
        PeerInvite {
            realm_id: self.realm_id,
            authority: self.authority,
            host: self.host,
            ips: copy_texts(&self.ips),
            relays: copy_texts(&self.relays),
        }
    }
}

/// Whether each text is the label of a socket.
pub open spec fn prefixed(v: Seq<String>) -> bool {
    forall|k: int| 0 <= k < v.len() ==> "ip:"@.is_prefix_of((#[trigger] v[k])@)
}

/// All labels of a contact: its sockets, then its relays.
pub open spec fn labels(i: InviteView) -> Seq<Seq<char>> {
    i.ips + i.relays
}

/// Whether a contact has too many addresses, or one that is too long.
pub open spec fn invite_too_long(i: InviteView) -> bool {
    ||| labels(i).len() > MAX_ADDRESSES
    ||| exists|k: int|
        0 <= k < labels(i).len() && encode_utf8(#[trigger] labels(i)[k]).len() > MAX_ADDRESS
}

/// What the text of a contact spells.
pub open spec fn invite_payload(i: InviteView) -> Seq<u8> {
    array_head(5) + (uint_item(1) + (bytes_item(i.realm_id) + (bytes_item(i.authority) + (bytes_item(
        i.host,
    ) + (array_head(labels(i).len() as u64) + put_all(labels(i), label_put()))))))
}

/// The text of a contact.
pub open spec fn invite_text(i: InviteView) -> Result<Seq<char>, Error> {
    if invite_too_long(i) {
        Err(Error::MessageTooLarge)
    } else {
        Ok(spelled(invite_payload(i)))
    }
}

/// Whether the sockets stand in their order and the relays in theirs, none twice. Each stands
/// there under its label; the text behind the prefix names it.
pub open spec fn invite_ordered(i: InviteView) -> bool {
    &&& forall|k: int, l: int|
        0 <= k && l == k + 1 && l < i.ips.len() ==> socket_before(
            (#[trigger] i.ips[k]).skip(3),
            (#[trigger] i.ips[l]).skip(3),
        )
    &&& forall|k: int, l: int|
        0 <= k && l == k + 1 && l < i.relays.len() ==> text_less(
            #[trigger] i.relays[k],
            #[trigger] i.relays[l],
        )
}

/// The labels of the sockets among addresses.
pub open spec fn ip_labels(cs: Seq<ContactView>) -> Seq<Seq<char>>
    decreases cs.len(),
{
    if cs.len() == 0 {
        Seq::empty()
    } else {
        match cs.last() {
            ContactView::Ip(label) => ip_labels(cs.drop_last()).push(label),
            ContactView::Relay(_) => ip_labels(cs.drop_last()),
        }
    }
}

/// The labels of the relays among addresses.
pub open spec fn relay_labels(cs: Seq<ContactView>) -> Seq<Seq<char>>
    decreases cs.len(),
{
    if cs.len() == 0 {
        Seq::empty()
    } else {
        match cs.last() {
            ContactView::Ip(_) => relay_labels(cs.drop_last()),
            ContactView::Relay(label) => relay_labels(cs.drop_last()).push(label),
        }
    }
}

/// The contact that a text spells, whatever its order.
pub open spec fn invite_of_payload(b: Seq<u8>) -> Result<InviteView, Error> {
    match take_array(b, 5) { Err(e) => Err(e), Ok(s) =>
    match take_version(s, 1) { Err(e) => Err(e), Ok(s) =>
    match take_fixed(s, 16) { Err(e) => Err(e), Ok((realm_id, s)) =>
    match take_endpoint(s) { Err(e) => Err(e), Ok((authority, s)) =>
    match take_endpoint(s) { Err(e) => Err(e), Ok((host, s)) =>
    match take_list(s, MAX_ADDRESSES as nat) { Err(e) => Err(e), Ok((count, s)) =>
    match take_all(s, count, contact_take()) { Err(e) => Err(e), Ok((contacts, s)) =>
    match take_end(s) {
        Err(e) => Err(e),
        Ok(()) => Ok(
            InviteView {
                realm_id,
                authority,
                host,
                ips: ip_labels(contacts),
                relays: relay_labels(contacts),
            },
        ),
    } } } } } } } }
}

/// The contact that a text stands for.
pub open spec fn invite_of(text: Seq<char>) -> Result<InviteView, Error> {
    let b = encode_utf8(text);
    if b.len() > MAX_INVITE {
        Err(Error::MessageTooLarge)
    } else {
        match unspelled(b) {
            None => Err(Error::Protocol("invite base64")),
            Some(payload) =>
            match invite_of_payload(payload) { Err(e) => Err(e), Ok(i) =>
            match invite_text(i) { Err(e) => Err(e), Ok(again) =>
            if !invite_ordered(i) || again != text {
                Err(Error::Protocol("noncanonical invite"))
            } else {
                Ok(i)
            } } },
        }
    }
}

fn write_labels(w: &mut Writer, list: &Vec<String>) -> (ok: bool)
    ensures
        ok ==> final(w)@ == old(w)@ + put_all(text_views(list@), label_put()),
        ok == !(exists|k: int|
            0 <= k < list@.len() && encode_utf8((#[trigger] list@[k])@).len() > MAX_ADDRESS),
{
    let ghost start = w@;
    let ghost views = text_views(list@);
    let ghost put = label_put();
    let mut i: usize = 0;
    proof {
        assert(views.take(0) =~= Seq::<Seq<char>>::empty());
        lemma_nothing_after(start);
    }
    while i < list.len()
        invariant
            i <= list.len(),
            views == text_views(list@),
            put == label_put(),
            start == old(w)@,
            w@ == start + put_all(views.take(i as int), put),
            forall|k: int| 0 <= k < i ==> encode_utf8((#[trigger] list@[k])@).len() <= MAX_ADDRESS,
        decreases list.len() - i,
    {
        let label = list[i].as_str();
        if label.as_bytes().len() > MAX_ADDRESS {
            assert(encode_utf8(list@[i as int]@).len() > MAX_ADDRESS);
            return false;
        }
        w.text(label);
        proof {
            let next = views.take(i + 1);
            assert(next.drop_last() =~= views.take(i as int));
            assert(next.last() == label@);
            lemma_concat_assoc(start, put_all(views.take(i as int), put), text_item(label@));
        }
        i = i + 1;
    }
    assert(views.take(i as int) =~= views);
    true
}

proof fn lemma_put_all_concat<T>(a: Seq<T>, b: Seq<T>, put: Put<T>)
    ensures
        put_all(a + b, put) == put_all(a, put) + put_all(b, put),
    decreases b.len(),
{
    if b.len() == 0 {
        assert(a + b =~= a);
        lemma_nothing_after(put_all(a, put));
    } else {
        lemma_put_all_concat(a, b.drop_last(), put);
        assert((a + b).drop_last() =~= a + b.drop_last());
        lemma_concat_assoc(put_all(a, put), put_all(b.drop_last(), put), put(b.last()));
    }
}

impl PeerInvite {
    /// Contact-only invitation, suitable for independently provisioned certificates.
    pub fn encode(&self) -> (r: Result<String, Error>)
        ensures
            match invite_text(self@) {
                Ok(text) => r is Ok && r->Ok_0@ == text,
                Err(e) => r is Err && r->Err_0 == e,
            },
    {
        let ghost view = self@;
        if self.ips.len() > MAX_ADDRESSES || self.relays.len() > MAX_ADDRESSES {
            return Err(Error::MessageTooLarge);
        }
        let count: usize = self.ips.len() + self.relays.len();
        if count > MAX_ADDRESSES {
            return Err(Error::MessageTooLarge);
        }
        let mut w = Writer::new();
        w.array(5);
        w.u(1);
        w.bytes(&self.realm_id);
        w.bytes(self.authority.as_bytes());
        w.bytes(self.host.as_bytes());
        w.array(count);
        let ghost head = w@;
        if !write_labels(&mut w, &self.ips) {
            proof {
                let k = choose|k: int|
                    0 <= k < self.ips@.len() && encode_utf8((#[trigger] self.ips@[k])@).len()
                        > MAX_ADDRESS;
                assert(labels(view)[k] == self.ips@[k]@);
            }
            return Err(Error::MessageTooLarge);
        }
        if !write_labels(&mut w, &self.relays) {
            proof {
                let k = choose|k: int|
                    0 <= k < self.relays@.len() && encode_utf8((#[trigger] self.relays@[k])@).len()
                        > MAX_ADDRESS;
                assert(labels(view)[self.ips@.len() + k] == self.relays@[k]@);
            }
            return Err(Error::MessageTooLarge);
        }
        proof {
            let put = label_put();
            lemma_put_all_concat(view.ips, view.relays, put);
            lemma_concat_assoc(head, put_all(view.ips, put), put_all(view.relays, put));
            assert forall|k: int| 0 <= k < labels(view).len() implies encode_utf8(
                #[trigger] labels(view)[k],
            ).len() <= MAX_ADDRESS by {
                if k < view.ips.len() {
                    assert(labels(view)[k] == self.ips@[k]@);
                } else {
                    assert(labels(view)[k] == self.relays@[k - view.ips.len()]@);
                }
            }
        }
        let payload = w.finish();
        Ok(armor(payload.as_slice()))
    }

    fn decode_addresses(r: &mut Reader, count: usize) -> (v: Result<
        (Vec<String>, Vec<String>),
        Error,
    >)
        requires
            old(r).wf(),
        ensures
            final(r).wf(),
            match take_all(old(r)@, count as nat, contact_take()) {
                Ok((contacts, rest)) => v is Ok && text_views(v->Ok_0.0@) == ip_labels(contacts)
                    && text_views(v->Ok_0.1@) == relay_labels(contacts) && final(r)@ == rest
                    && prefixed(v->Ok_0.0@),
                Err(e) => v is Err && v->Err_0 == e,
            },
    {
        let ghost start = r@;
        let ghost take = contact_take();
        let ghost mut contacts = Seq::<ContactView>::empty();
        let mut ips: Vec<String> = Vec::new();
        let mut relays: Vec<String> = Vec::new();
        let mut i: usize = 0;
        proof {
            assert(text_views(ips@) =~= ip_labels(contacts));
            assert(text_views(relays@) =~= relay_labels(contacts));
        }
        while i < count
            invariant
                i <= count,
                r.wf(),
                take == contact_take(),
                start == old(r)@,
                prefixed(ips@),
                text_views(ips@) == ip_labels(contacts),
                text_views(relays@) == relay_labels(contacts),
                take_all(start, i as nat, take) == Ok::<(Seq<ContactView>, Seq<u8>), Error>(
                    (contacts, r@),
                ),
            decreases count - i,
        {
            proof {
                if take_contact(r@) is Err {
                    assert(take_all(start, (i + 1) as nat, take) is Err);
                    lemma_take_all_error(start, (i + 1) as nat, count as nat, take);
                }
            }
            let ghost had = contacts;
            let text = r.text(MAX_ADDRESS)?;
            match strip(text, "ip:") {
                Some(ip) => match label_socket(ip) {
                    None => return Err(Error::Protocol("invite IP")),
                    Some(label) => {
                        let ghost before = ips@;
                        proof {
                            contacts = contacts.push(ContactView::Ip(label@));
                        }
                        ips.push(label);
                        assert(text_views(ips@) =~= text_views(before).push(label@));
                    },
                },
                None => match strip(text, "relay:") {
                    None => return Err(Error::Protocol("invite address type")),
                    Some(relay) => match RelayUrl::parse(relay) {
                        None => return Err(Error::Protocol("invite relay")),
                        Some(url) => {
                            let ghost before = relays@;
                            let mut label = "relay:".to_owned();
                            label.append(url.as_str());
                            proof {
                                contacts = contacts.push(ContactView::Relay(label@));
                            }
                            relays.push(label);
                            assert(text_views(relays@) =~= text_views(before).push(label@));
                        },
                    },
                },
            }
            assert(contacts.drop_last() =~= had);
            i = i + 1;
        }
        Ok((ips, relays))
    }

    /// Whether the addresses stand in order.
    fn ordered(&self) -> (r: bool)
        requires
            prefixed(self.ips@),
        ensures
            r == invite_ordered(self@),
    {
        proof {
            reveal_strlit("ip:");
        }
        let mut i: usize = 1;
        while i < self.ips.len()
            invariant
                1 <= i,
                "ip:"@.len() == 3,
                prefixed(self.ips@),
                forall|k: int, l: int|
                    0 <= k && l == k + 1 && l < i && l < self.ips@.len() ==> socket_before(
                        (#[trigger] self@.ips[k]).skip(3),
                        (#[trigger] self@.ips[l]).skip(3),
                    ),
            decreases self.ips.len() - i,
        {
            assert(self@.ips[i - 1] == self.ips@[i - 1]@);
            assert(self@.ips[i as int] == self.ips@[i as int]@);
            match (strip(self.ips[i - 1].as_str(), "ip:"), strip(self.ips[i].as_str(), "ip:")) {
                (Some(a), Some(b)) => {
                    if !compare_sockets(a, b) {
                        return false;
                    }
                },
                _ => return false,
            }
            i = i + 1;
        }
        let mut j: usize = 1;
        while j < self.relays.len()
            invariant
                1 <= j,
                forall|k: int, l: int|
                    0 <= k && l == k + 1 && l < self.ips@.len() ==> socket_before(
                        (#[trigger] self@.ips[k]).skip(3),
                        (#[trigger] self@.ips[l]).skip(3),
                    ),
                forall|k: int, l: int|
                    0 <= k && l == k + 1 && l < j && l < self.relays@.len() ==> text_less(
                        #[trigger] self@.relays[k],
                        #[trigger] self@.relays[l],
                    ),
            decreases self.relays.len() - j,
        {
            assert(self@.relays[j - 1] == self.relays@[j - 1]@);
            assert(self@.relays[j as int] == self.relays@[j as int]@);
            let a = self.relays[j - 1].as_str();
            let b = self.relays[j].as_str();
            match compare_bytes(a.as_bytes(), b.as_bytes()) {
                Relation::Less => {},
                Relation::Same => {
                    proof {
                        crate::octets::lemma_bytes_less_irreflexive(encode_utf8(a@));
                    }
                    return false;
                },
                Relation::Greater => {
                    proof {
                        if text_less(a@, b@) {
                            crate::octets::lemma_bytes_less_transitive(
                                encode_utf8(a@),
                                encode_utf8(b@),
                                encode_utf8(a@),
                            );
                            crate::octets::lemma_bytes_less_irreflexive(encode_utf8(a@));
                        }
                    }
                    return false;
                },
            }
            j = j + 1;
        }
        true
    }

    pub fn decode(code: &str) -> (r: Result<PeerInvite, Error>)
        ensures
            match invite_of(code@) {
                Ok(i) => r is Ok && r->Ok_0@ == i,
                Err(e) => r is Err && r->Err_0 == e,
            },
    {
        let text = code.as_bytes();
        if text.len() > MAX_INVITE {
            return Err(Error::MessageTooLarge);
        }
        let bytes = match unarmor(text) {
            Some(bytes) => bytes,
            None => return Err(Error::Protocol("invite base64")),
        };
        let mut r = Reader::new(bytes.as_slice());
        r.array(5)?;
        read_version(&mut r, 1)?;
        let realm_id: Id = r.fixed()?;
        let authority = read_endpoint(&mut r)?;
        let host = read_endpoint(&mut r)?;
        let count = r.list(MAX_ADDRESSES)?;
        let (ips, relays) = PeerInvite::decode_addresses(&mut r, count)?;
        r.end()?;
        let invite = PeerInvite { realm_id, authority, host, ips, relays };
        let again = invite.encode()?;
        proof {
            if encode_utf8(again@) == encode_utf8(code@) {
                lemma_utf8_injective(again@, code@);
            }
        }
        if !invite.ordered() || !same_bytes(again.as_str().as_bytes(), text) {
            return Err(Error::Protocol("noncanonical invite"));
        }
        Ok(invite)
    }
}

/// Whether a contact holds what an endpoint can give: each address in normal form, in order and
/// once.
pub open spec fn invite_formed(i: InviteView) -> bool {
    &&& i.realm_id.len() == 16
    &&& i.authority.len() == 32
    &&& i.host.len() == 32
    &&& is_public_key(i.authority)
    &&& is_public_key(i.host)
    &&& invite_ordered(i)
    &&& forall|k: int|
        0 <= k < i.ips.len() ==> {
            &&& "ip:"@.is_prefix_of(#[trigger] i.ips[k])
            &&& socket_label(i.ips[k].skip(3)) == Some(i.ips[k])
        }
    &&& forall|k: int|
        0 <= k < i.relays.len() ==> {
            &&& "relay:"@.is_prefix_of(#[trigger] i.relays[k])
            &&& relay_form(i.relays[k].skip(6)) == Some(i.relays[k].skip(6))
        }
}

/// The addresses of a contact, as they are read.
spec fn contacts_of(i: InviteView) -> Seq<ContactView> {
    Seq::new(i.ips.len(), |k: int| ContactView::Ip(i.ips[k])) + Seq::new(
        i.relays.len(),
        |k: int| ContactView::Relay(i.relays[k]),
    )
}

spec fn label_of(c: ContactView) -> Seq<char> {
    match c {
        ContactView::Ip(label) => label,
        ContactView::Relay(label) => label,
    }
}

spec fn contact_put() -> Put<ContactView> {
    |c: ContactView| text_item(label_of(c))
}

proof fn lemma_put_contacts(cs: Seq<ContactView>, ls: Seq<Seq<char>>)
    requires
        cs.len() == ls.len(),
        forall|k: int| 0 <= k < cs.len() ==> label_of(#[trigger] cs[k]) == ls[k],
    ensures
        put_all(cs, contact_put()) == put_all(ls, label_put()),
    decreases cs.len(),
{
    if cs.len() > 0 {
        lemma_put_contacts(cs.drop_last(), ls.drop_last());
        assert(label_of(cs.last()) == ls.last());
    }
}

proof fn lemma_labels_len(ls: Seq<Seq<char>>)
    requires
        forall|k: int| 0 <= k < ls.len() ==> encode_utf8(#[trigger] ls[k]).len() <= MAX_ADDRESS,
    ensures
        put_all(ls, label_put()).len() <= 1033 * ls.len(),
    decreases ls.len(),
{
    if ls.len() > 0 {
        lemma_labels_len(ls.drop_last());
        reveal(text_item);
        lemma_head_len(3, encode_utf8(ls.last()).len() as u64);
        assert(encode_utf8(ls.last()).len() <= MAX_ADDRESS);
    }
}

proof fn lemma_contact_labels(ips: Seq<Seq<char>>, relays: Seq<Seq<char>>)
    ensures
        ({
            let cs = Seq::new(ips.len(), |k: int| ContactView::Ip(ips[k])) + Seq::new(
                relays.len(),
                |k: int| ContactView::Relay(relays[k]),
            );
            ip_labels(cs) == ips && relay_labels(cs) == relays
        }),
    decreases ips.len() + relays.len(),
{
    let a = Seq::new(ips.len(), |k: int| ContactView::Ip(ips[k]));
    let b = Seq::new(relays.len(), |k: int| ContactView::Relay(relays[k]));
    if relays.len() > 0 {
        let most = relays.drop_last();
        lemma_contact_labels(ips, most);
        assert((a + b).drop_last() =~= a + Seq::new(
            most.len(),
            |k: int| ContactView::Relay(most[k]),
        ));
        assert(most.push(relays.last()) =~= relays);
    } else if ips.len() > 0 {
        let most = ips.drop_last();
        lemma_contact_labels(most, relays);
        assert((a + b).drop_last() =~= Seq::new(most.len(), |k: int| ContactView::Ip(most[k])) + b);
        assert(most.push(ips.last()) =~= ips);
    } else {
        assert(ip_labels(a + b) =~= ips);
        assert(relay_labels(a + b) =~= relays);
    }
}

/// Reading the text of a contact gives back the contact.
pub proof fn law_invite_round_trip(i: InviteView)
    requires
        invite_formed(i),
    ensures
        invite_text(i) matches Ok(text) ==> invite_of(text) == Ok::<InviteView, Error>(i),
{
    if invite_text(i) is Ok {
        let contacts = contacts_of(i);
        let put = contact_put();
        let take = contact_take();
        let count = labels(i).len() as u64;
        lemma_put_contacts(contacts, labels(i));
        lemma_contact_labels(i.ips, i.relays);
        reveal_strlit("ip:");
        reveal_strlit("relay:");
        assert forall|k: int, s: Seq<u8>| 0 <= k < contacts.len() implies #[trigger] take(
            put(contacts[k]) + s,
        ) == Ok::<(ContactView, Seq<u8>), Error>((contacts[k], s)) by {
            let label = label_of(contacts[k]);
            assert(label == labels(i)[k]);
            lemma_take_text(label, MAX_ADDRESS as nat, s);
            if k < i.ips.len() {
                assert("ip:"@.is_prefix_of(i.ips[k]));
            } else {
                let relay = i.relays[k - i.ips.len()];
                assert("relay:"@.is_prefix_of(relay));
                assert(relay.subrange(0, 6)[0] == 'r');
                assert(relay.subrange(0, 3) =~= "ip:"@ ==> relay.subrange(0, 3)[0] == 'i');
                assert("relay:"@ + relay.skip(6) =~= relay);
            }
        }
        let s5 = put_all(contacts, put);
        let s4 = array_head(count) + s5;
        let s3 = bytes_item(i.host) + s4;
        let s2 = bytes_item(i.authority) + s3;
        let s1 = bytes_item(i.realm_id) + s2;
        lemma_take_array(5, 5, uint_item(1) + s1);
        lemma_take_version(1, s1);
        lemma_take_fixed(i.realm_id, 16, s2);
        lemma_take_endpoint(i.authority, s3);
        lemma_take_endpoint(i.host, s4);
        lemma_take_list(count, MAX_ADDRESSES as nat, s5);
        lemma_take_all(contacts, Seq::empty(), put, take);
        lemma_nothing_after(s5);
        let payload = invite_payload(i);
        assert(invite_of_payload(payload) == Ok::<InviteView, Error>(i));
        lemma_unspelled(payload);
        lemma_invite_len(i);
    }
}

/// No contact is too long to be read.
pub proof fn lemma_invite_len(i: InviteView)
    requires
        invite_text(i) is Ok,
        i.realm_id.len() == 16,
        i.authority.len() == 32,
        i.host.len() == 32,
    ensures
        encode_utf8(invite_text(i)->Ok_0).len() <= 22400,
{
    let payload = invite_payload(i);
    let count = labels(i).len() as u64;
    lemma_labels_len(labels(i));
    reveal(array_head);
    reveal(uint_item);
    reveal(bytes_item);
    lemma_head_len(4, 5);
    lemma_head_len(0, 1);
    lemma_head_len(2, 16);
    lemma_head_len(2, 32);
    lemma_head_len(4, count);
    lemma_spelled_len(payload);
    lemma_spelled_ascii(payload);
    vstd::utf8::is_ascii_chars_encode_utf8(spelled(payload));
}

/// A contact that is read is the one text of what it says.
pub proof fn law_invite_canonical(text: Seq<char>)
    ensures
        invite_of(text) matches Ok(i) ==> invite_text(i) == Ok::<Seq<char>, Error>(text)
            && invite_ordered(i),
{
}

} // verus!
