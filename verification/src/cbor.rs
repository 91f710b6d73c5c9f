//! The fixed, definite-length CBOR schemas that every record of the library is written in.
//!
//! Reading accepts any spelling of a number that CBOR has; a record is taken only where writing it
//! again gives back the bytes that were read, which `canonical` tests.
use crate::error::Error;
use crate::octets::{
    be_bytes, be_value, lemma_be_bytes_len, lemma_be_limits, lemma_be_round_trip,
    lemma_concat_assoc, same_bytes, to_array,
};
use minicbor::decode::Error as DecodeError;
use vstd::prelude::*;
use vstd::utf8::{decode_utf8, encode_utf8, valid_utf8};

verus! {

// What the bytes mean

/// The shortest head of a data item: its major type and its argument.
pub open spec fn head(major: nat, n: u64) -> Seq<u8> {
    if n < 24 {
        seq![(32 * major + n) as u8]
    } else if n <= 0xff {
        seq![(32 * major + 24) as u8] + be_bytes(n as nat, 1)
    } else if n <= 0xffff {
        seq![(32 * major + 25) as u8] + be_bytes(n as nat, 2)
    } else if n <= 0xffff_ffff {
        seq![(32 * major + 26) as u8] + be_bytes(n as nat, 4)
    } else {
        seq![(32 * major + 27) as u8] + be_bytes(n as nat, 8)
    }
}

/// An unsigned integer.
#[verifier::opaque]
pub open spec fn uint_item(n: u64) -> Seq<u8> {
    head(0, n)
}

/// A byte string.
#[verifier::opaque]
pub open spec fn bytes_item(b: Seq<u8>) -> Seq<u8> {
    head(2, b.len() as u64) + b
}

/// A text string.
#[verifier::opaque]
pub open spec fn text_item(s: Seq<char>) -> Seq<u8> {
    head(3, encode_utf8(s).len() as u64) + encode_utf8(s)
}

/// The head of an array of `n` items, which follow it.
#[verifier::opaque]
pub open spec fn array_head(n: u64) -> Seq<u8> {
    head(4, n)
}

/// The map that has no entries.
#[verifier::opaque]
pub open spec fn empty_map_item() -> Seq<u8> {
    head(5, 0)
}

/// The number of bytes that spell the argument after an initial byte with the low bits `info`.
pub open spec fn argument_width(info: nat) -> nat {
    if info == 24 {
        1
    } else if info == 25 {
        2
    } else if info == 26 {
        4
    } else {
        8
    }
}

/// Reads a head of the given major type at the front of `s`, in any of its spellings: the argument
/// and what follows. `None` where `s` does not start so.
pub open spec fn read_head(major: nat, s: Seq<u8>) -> Option<(u64, Seq<u8>)> {
    if s.len() == 0 || s[0] / 32 != major {
        None
    } else {
        let info = (s[0] % 32) as nat;
        let width = argument_width(info);
        if info < 24 {
            Some((info as u64, s.skip(1)))
        } else if info <= 27 && width < s.len() {
            Some((be_value(s.subrange(1, 1 + width as int)) as u64, s.skip(1 + width as int)))
        } else {
            None
        }
    }
}

/// Reads the head of an array or map, whose length may be left open (`None`).
pub open spec fn read_open_head(major: nat, s: Seq<u8>) -> Option<(Option<u64>, Seq<u8>)> {
    if s.len() > 0 && s[0] == 32 * major + 31 {
        Some((None, s.skip(1)))
    } else {
        match read_head(major, s) {
            Some((n, rest)) => Some((Some(n), rest)),
            None => None,
        }
    }
}

/// Reads a byte or text string of definite length: its bytes and what follows.
pub open spec fn read_string(major: nat, s: Seq<u8>) -> Option<(Seq<u8>, Seq<u8>)> {
    match read_head(major, s) {
        Some((n, rest)) => if n <= rest.len() {
            Some((rest.take(n as int), rest.skip(n as int)))
        } else {
            None
        },
        None => None,
    }
}

// The outside encoder and decoder

/// The error of `minicbor`'s decoder, of which nothing is used but that it came.
#[verifier::external_type_specification]
#[verifier::external_body]
pub struct ExDecodeError(DecodeError);

/// `minicbor::Encoder::u64`, writing to the end of a vector: appends the shortest spelling of an
/// unsigned integer.
#[verifier::external_body]
fn encode_u64(out: &mut Vec<u8>, n: u64)
    ensures
        final(out)@ == old(out)@ + head(0, n),
{
    minicbor::Encoder::new(out).u64(n).unwrap();
}

/// `minicbor::Encoder::bytes`, writing to the end of a vector: appends a byte string of definite
/// length.
#[verifier::external_body]
fn encode_bytes(out: &mut Vec<u8>, b: &[u8])
    ensures
        final(out)@ == old(out)@ + (head(2, b@.len() as u64) + b@),
{
    minicbor::Encoder::new(out).bytes(b).unwrap();
}

/// `minicbor::Encoder::str`, writing to the end of a vector: appends a text string of definite
/// length.
#[verifier::external_body]
fn encode_str(out: &mut Vec<u8>, s: &str)
    ensures
        final(out)@ == old(out)@ + (head(3, encode_utf8(s@).len() as u64) + encode_utf8(s@)),
{
    minicbor::Encoder::new(out).str(s).unwrap();
}

/// `minicbor::Encoder::array`, writing to the end of a vector: appends the head of an array.
#[verifier::external_body]
fn encode_array(out: &mut Vec<u8>, len: u64)
    ensures
        final(out)@ == old(out)@ + head(4, len),
{
    minicbor::Encoder::new(out).array(len).unwrap();
}

/// `minicbor::Encoder::map`, writing to the end of a vector: appends the head of a map.
#[verifier::external_body]
fn encode_map(out: &mut Vec<u8>, len: u64)
    ensures
        final(out)@ == old(out)@ + head(5, len),
{
    minicbor::Encoder::new(out).map(len).unwrap();
}

/// `minicbor::Decoder::u64` from position `at`: the unsigned integer there, in any of its
/// spellings, and the position after it.
#[verifier::external_body]
fn decode_u64(input: &[u8], at: usize) -> (r: Result<(u64, usize), DecodeError>)
    requires
        at <= input@.len(),
    ensures
        match r {
            Ok((n, next)) => next <= input@.len() && read_head(0, input@.skip(at as int)) == Some(
                (n, input@.skip(next as int)),
            ),
            Err(_) => read_head(0, input@.skip(at as int)) is None,
        },
{
    let mut decoder = minicbor::Decoder::new(input);
    decoder.set_position(at);
    let n = decoder.u64()?;
    Ok((n, decoder.position()))
}

/// `minicbor::Decoder::bytes` from position `at`: the byte string of definite length there and the
/// position after it.
#[verifier::external_body]
fn decode_bytes(input: &[u8], at: usize) -> (r: Result<(&[u8], usize), DecodeError>)
    requires
        at <= input@.len(),
    ensures
        match r {
            Ok((b, next)) => next <= input@.len() && read_string(2, input@.skip(at as int)) == Some(
                (b@, input@.skip(next as int)),
            ),
            Err(_) => read_string(2, input@.skip(at as int)) is None,
        },
{
    let mut decoder = minicbor::Decoder::new(input);
    decoder.set_position(at);
    let b = decoder.bytes()?;
    Ok((b, decoder.position()))
}

/// `minicbor::Decoder::str` from position `at`: the text string of definite length there, which
/// must be UTF-8, and the position after it.
#[verifier::external_body]
fn decode_str(input: &[u8], at: usize) -> (r: Result<(&str, usize), DecodeError>)
    requires
        at <= input@.len(),
    ensures
        match r {
            Ok((s, next)) => next <= input@.len() && read_string(3, input@.skip(at as int)) == Some(
                (encode_utf8(s@), input@.skip(next as int)),
            ),
            Err(_) => match read_string(3, input@.skip(at as int)) {
                Some((b, _)) => !valid_utf8(b),
                None => true,
            },
        },
{
    let mut decoder = minicbor::Decoder::new(input);
    decoder.set_position(at);
    let s = decoder.str()?;
    Ok((s, decoder.position()))
}

/// `minicbor::Decoder::array` from position `at`: the length of the array there, `None` where it
/// is left open, and the position after its head.
#[verifier::external_body]
fn decode_array(input: &[u8], at: usize) -> (r: Result<
    (Option<u64>, usize),
    DecodeError,
>)
    requires
        at <= input@.len(),
    ensures
        match r {
            Ok((n, next)) => next <= input@.len() && read_open_head(4, input@.skip(at as int))
                == Some((n, input@.skip(next as int))),
            Err(_) => read_open_head(4, input@.skip(at as int)) is None,
        },
{
    let mut decoder = minicbor::Decoder::new(input);
    decoder.set_position(at);
    let n = decoder.array()?;
    Ok((n, decoder.position()))
}

/// `minicbor::Decoder::map` from position `at`: the number of entries of the map there, `None`
/// where it is left open, and the position after its head.
#[verifier::external_body]
fn decode_map(input: &[u8], at: usize) -> (r: Result<(Option<u64>, usize), DecodeError>)
    requires
        at <= input@.len(),
    ensures
        match r {
            Ok((n, next)) => next <= input@.len() && read_open_head(5, input@.skip(at as int))
                == Some((n, input@.skip(next as int))),
            Err(_) => read_open_head(5, input@.skip(at as int)) is None,
        },
{
    let mut decoder = minicbor::Decoder::new(input);
    decoder.set_position(at);
    let n = decoder.map()?;
    Ok((n, decoder.position()))
}

/// A decoder's failure, as this library reports it.
fn malformed(_error: DecodeError) -> (e: Error)
    ensures
        e == Error::Protocol("invalid CBOR"),
{
    Error::Protocol("invalid CBOR")
}

// Writing

/// A record under construction; its view is the bytes written so far.
///
/// What each call appends is also stated of the bytes with anything after them, so that a record
/// can be compared with its description from the front.
pub struct Writer {
    out: Vec<u8>,
}

impl View for Writer {
    type V = Seq<u8>;

    closed spec fn view(&self) -> Seq<u8> {
        self.out@
    }
}

impl Writer {
    pub fn new() -> (w: Self)
        ensures
            w@ == Seq::<u8>::empty(),
            forall|rest: Seq<u8>| #[trigger] (w@ + rest) == rest,
    {
        let w = Writer { out: Vec::new() };
        assert forall|rest: Seq<u8>| #[trigger] (w@ + rest) == rest by {
            assert(w@ + rest =~= rest);
        }
        w
    }

    pub fn array(&mut self, len: usize)
        ensures
            final(self)@ == old(self)@ + array_head(len as u64),
            forall|rest: Seq<u8>| #[trigger]
                (final(self)@ + rest) == old(self)@ + (array_head(len as u64) + rest),
    {
        broadcast use lemma_concat_assoc;

        reveal(array_head);
        encode_array(&mut self.out, len as u64);
    }

    pub fn u(&mut self, n: u64)
        ensures
            final(self)@ == old(self)@ + uint_item(n),
            forall|rest: Seq<u8>| #[trigger]
                (final(self)@ + rest) == old(self)@ + (uint_item(n) + rest),
    {
        broadcast use lemma_concat_assoc;

        reveal(uint_item);
        encode_u64(&mut self.out, n);
    }

    pub fn bytes(&mut self, b: &[u8])
        ensures
            final(self)@ == old(self)@ + bytes_item(b@),
            forall|rest: Seq<u8>| #[trigger]
                (final(self)@ + rest) == old(self)@ + (bytes_item(b@) + rest),
    {
        broadcast use lemma_concat_assoc;

        reveal(bytes_item);
        encode_bytes(&mut self.out, b);
    }

    pub fn text(&mut self, s: &str)
        ensures
            final(self)@ == old(self)@ + text_item(s@),
            forall|rest: Seq<u8>| #[trigger]
                (final(self)@ + rest) == old(self)@ + (text_item(s@) + rest),
    {
        broadcast use lemma_concat_assoc;

        reveal(text_item);
        encode_str(&mut self.out, s);
    }

    pub fn empty_map(&mut self)
        ensures
            final(self)@ == old(self)@ + empty_map_item(),
            forall|rest: Seq<u8>| #[trigger]
                (final(self)@ + rest) == old(self)@ + (empty_map_item() + rest),
    {
        broadcast use lemma_concat_assoc;

        reveal(empty_map_item);
        encode_map(&mut self.out, 0);
    }

    pub fn finish(self) -> (out: Vec<u8>)
        ensures
            out@ == self@,
    {
        self.out
    }
}

// Reading

/// Reads the head of an array of exactly `len` items.
#[verifier::opaque]
pub open spec fn take_array(s: Seq<u8>, len: nat) -> Result<Seq<u8>, Error> {
    match read_open_head(4, s) {
        None => Err(Error::Protocol("invalid CBOR")),
        Some((n, rest)) => if n == Some(len as u64) {
            Ok(rest)
        } else {
            Err(Error::Protocol("array length"))
        },
    }
}

/// Reads the head of an array of at most `max` items.
#[verifier::opaque]
pub open spec fn take_list(s: Seq<u8>, max: nat) -> Result<(nat, Seq<u8>), Error> {
    match read_open_head(4, s) {
        None => Err(Error::Protocol("invalid CBOR")),
        Some((None, _)) => Err(Error::Protocol("indefinite array")),
        Some((Some(n), rest)) => if n > max {
            Err(Error::Protocol("collection limit"))
        } else {
            Ok((n as nat, rest))
        },
    }
}

/// Reads an unsigned integer.
#[verifier::opaque]
pub open spec fn take_u(s: Seq<u8>) -> Result<(u64, Seq<u8>), Error> {
    match read_head(0, s) {
        None => Err(Error::Protocol("invalid CBOR")),
        Some((n, rest)) => Ok((n, rest)),
    }
}

/// Reads a byte string of at most `max` bytes.
#[verifier::opaque]
pub open spec fn take_bytes(s: Seq<u8>, max: nat) -> Result<(Seq<u8>, Seq<u8>), Error> {
    match read_string(2, s) {
        None => Err(Error::Protocol("invalid CBOR")),
        Some((b, rest)) => if b.len() > max {
            Err(Error::MessageTooLarge)
        } else {
            Ok((b, rest))
        },
    }
}

/// Reads a byte string of exactly `len` bytes.
#[verifier::opaque]
pub open spec fn take_fixed(s: Seq<u8>, len: nat) -> Result<(Seq<u8>, Seq<u8>), Error> {
    match take_bytes(s, len) {
        Err(e) => Err(e),
        Ok((b, rest)) => if b.len() != len {
            Err(Error::Protocol("byte string length"))
        } else {
            Ok((b, rest))
        },
    }
}

/// Reads a text string of at most `max` bytes.
#[verifier::opaque]
pub open spec fn take_text(s: Seq<u8>, max: nat) -> Result<(Seq<char>, Seq<u8>), Error> {
    match read_string(3, s) {
        None => Err(Error::Protocol("invalid CBOR")),
        Some((b, rest)) => if !valid_utf8(b) {
            Err(Error::Protocol("invalid CBOR"))
        } else if b.len() > max {
            Err(Error::MessageTooLarge)
        } else {
            Ok((decode_utf8(b), rest))
        },
    }
}

/// Reads a map that has no entries.
#[verifier::opaque]
pub open spec fn take_empty_map(s: Seq<u8>) -> Result<Seq<u8>, Error> {
    match read_open_head(5, s) {
        None => Err(Error::Protocol("invalid CBOR")),
        Some((n, rest)) => if n == Some(0u64) {
            Ok(rest)
        } else {
            Err(Error::Protocol("unprotected headers"))
        },
    }
}

/// Requires that nothing is left to read.
pub open spec fn take_end(s: Seq<u8>) -> Result<(), Error> {
    if s.len() == 0 {
        Ok(())
    } else {
        Err(Error::Protocol("trailing bytes"))
    }
}

/// A record being read; its view is what is left of it.
pub struct Reader<'a> {
    input: &'a [u8],
    at: usize,
}

impl<'a> View for Reader<'a> {
    type V = Seq<u8>;

    closed spec fn view(&self) -> Seq<u8> {
        self.input@.skip(self.at as int)
    }
}

impl<'a> Reader<'a> {
    pub closed spec fn wf(&self) -> bool {
        self.at <= self.input@.len()
    }

    pub fn new(b: &'a [u8]) -> (r: Self)
        ensures
            r.wf(),
            r@ == b@,
    {
        let r = Reader { input: b, at: 0 };
        assert(r@ =~= b@);
        r
    }

    pub fn array(&mut self, len: usize) -> (r: Result<(), Error>)
        requires
            old(self).wf(),
        ensures
            final(self).wf(),
            match take_array(old(self)@, len as nat) {
                Ok(rest) => r is Ok && final(self)@ == rest,
                Err(e) => r == Err::<(), Error>(e),
            },
    {
        proof {
            reveal(take_array);
        }
        match decode_array(self.input, self.at) {
            Ok((n, next)) => {
                self.at = next;
                match n {
                    Some(n) if n == len as u64 => Ok(()),
                    _ => Err(Error::Protocol("array length")),
                }
            },
            Err(e) => Err(malformed(e)),
        }
    }

    pub fn list(&mut self, max: usize) -> (r: Result<usize, Error>)
        requires
            old(self).wf(),
        ensures
            final(self).wf(),
            match take_list(old(self)@, max as nat) {
                Ok((n, rest)) => r is Ok && r->Ok_0 == n && final(self)@ == rest,
                Err(e) => r == Err::<usize, Error>(e),
            },
    {
        proof {
            reveal(take_list);
        }
        match decode_array(self.input, self.at) {
            Ok((n, next)) => {
                self.at = next;
                match n {
                    None => Err(Error::Protocol("indefinite array")),
                    Some(n) => if n > max as u64 {
                        Err(Error::Protocol("collection limit"))
                    } else {
                        Ok(n as usize)
                    },
                }
            },
            Err(e) => Err(malformed(e)),
        }
    }

    pub fn u(&mut self) -> (r: Result<u64, Error>)
        requires
            old(self).wf(),
        ensures
            final(self).wf(),
            match take_u(old(self)@) {
                Ok((n, rest)) => r == Ok::<u64, Error>(n) && final(self)@ == rest,
                Err(e) => r == Err::<u64, Error>(e),
            },
    {
        proof {
            reveal(take_u);
        }
        match decode_u64(self.input, self.at) {
            Ok((n, next)) => {
                self.at = next;
                Ok(n)
            },
            Err(e) => Err(malformed(e)),
        }
    }

    pub fn bytes(&mut self, max: usize) -> (r: Result<&'a [u8], Error>)
        requires
            old(self).wf(),
        ensures
            final(self).wf(),
            match take_bytes(old(self)@, max as nat) {
                Ok((b, rest)) => r is Ok && r->Ok_0@ == b && final(self)@ == rest,
                Err(e) => r is Err && r->Err_0 == e,
            },
    {
        proof {
            reveal(take_bytes);
        }
        match decode_bytes(self.input, self.at) {
            Ok((b, next)) => {
                self.at = next;
                if b.len() > max {
                    Err(Error::MessageTooLarge)
                } else {
                    Ok(b)
                }
            },
            Err(e) => Err(malformed(e)),
        }
    }

    pub fn fixed<const N: usize>(&mut self) -> (r: Result<[u8; N], Error>)
        requires
            old(self).wf(),
        ensures
            final(self).wf(),
            match take_fixed(old(self)@, N as nat) {
                Ok((b, rest)) => r is Ok && r->Ok_0@ == b && final(self)@ == rest,
                Err(e) => r is Err && r->Err_0 == e,
            },
    {
        proof {
            reveal(take_fixed);
        }
        let b = self.bytes(N)?;
        if b.len() != N {
            return Err(Error::Protocol("byte string length"));
        }
        Ok(to_array(b))
    }

    pub fn text(&mut self, max: usize) -> (r: Result<&'a str, Error>)
        requires
            old(self).wf(),
        ensures
            final(self).wf(),
            match take_text(old(self)@, max as nat) {
                Ok((s, rest)) => r is Ok && r->Ok_0@ == s && final(self)@ == rest,
                Err(e) => r is Err && r->Err_0 == e,
            },
    {
        proof {
            reveal(take_text);
        }
        match decode_str(self.input, self.at) {
            Ok((s, next)) => {
                self.at = next;
                proof {
                    vstd::utf8::encode_utf8_valid_utf8(s@);
                    vstd::utf8::encode_utf8_decode_utf8(s@);
                }
                if s.as_bytes().len() > max {
                    Err(Error::MessageTooLarge)
                } else {
                    Ok(s)
                }
            },
            Err(e) => Err(malformed(e)),
        }
    }

    pub fn empty_map(&mut self) -> (r: Result<(), Error>)
        requires
            old(self).wf(),
        ensures
            final(self).wf(),
            match take_empty_map(old(self)@) {
                Ok(rest) => r is Ok && final(self)@ == rest,
                Err(e) => r == Err::<(), Error>(e),
            },
    {
        proof {
            reveal(take_empty_map);
        }
        match decode_map(self.input, self.at) {
            Ok((n, next)) => {
                self.at = next;
                match n {
                    Some(0) => Ok(()),
                    _ => Err(Error::Protocol("unprotected headers")),
                }
            },
            Err(e) => Err(malformed(e)),
        }
    }

    pub fn end(self) -> (r: Result<(), Error>)
        requires
            self.wf(),
        ensures
            r == take_end(self@),
    {
        if self.at != self.input.len() {
            return Err(Error::Protocol("trailing bytes"));
        }
        Ok(())
    }
}

// What is written is read back

/// A head is one to nine bytes long.
pub proof fn lemma_head_len(major: nat, n: u64)
    ensures
        1 <= head(major, n).len() <= 9,
{
    lemma_be_bytes_len(n as nat, 1);
    lemma_be_bytes_len(n as nat, 2);
    lemma_be_bytes_len(n as nat, 4);
    lemma_be_bytes_len(n as nat, 8);
}

/// Reading a head that was just written gives its argument and what follows it.
pub proof fn lemma_read_head(major: nat, n: u64, rest: Seq<u8>)
    requires
        major < 7,
    ensures
        read_head(major, head(major, n) + rest) == Some((n, rest)),
        (head(major, n) + rest).len() > 0,
        (head(major, n) + rest)[0] != 32 * major + 31,
{
    lemma_be_limits();
    let s = head(major, n) + rest;
    if n < 24 {
        assert(s.skip(1) =~= rest);
    } else {
        let width: nat = if n <= 0xff {
            1
        } else if n <= 0xffff {
            2
        } else if n <= 0xffff_ffff {
            4
        } else {
            8
        };
        lemma_be_round_trip(n as nat, width);
        assert(s[0] % 32 >= 24);
        assert(argument_width((s[0] % 32) as nat) == width);
        assert(s.subrange(1, 1 + width as int) =~= be_bytes(n as nat, width));
        assert(s.skip(1 + width as int) =~= rest);
    }
}

pub broadcast proof fn lemma_take_u(n: u64, rest: Seq<u8>)
    ensures
        #[trigger] take_u(uint_item(n) + rest) == Ok::<(u64, Seq<u8>), Error>((n, rest)),
{
    reveal(take_u);
    reveal(uint_item);
    lemma_read_head(0, n, rest);
}

pub broadcast proof fn lemma_take_array(n: u64, len: nat, rest: Seq<u8>)
    requires
        len == n,
    ensures
        #[trigger] take_array(array_head(n) + rest, len) == Ok::<Seq<u8>, Error>(rest),
{
    reveal(take_array);
    reveal(array_head);
    lemma_read_head(4, n, rest);
}

pub broadcast proof fn lemma_take_list(n: u64, max: nat, rest: Seq<u8>)
    requires
        n <= max,
    ensures
        #[trigger] take_list(array_head(n) + rest, max) == Ok::<(nat, Seq<u8>), Error>(
            (n as nat, rest),
        ),
{
    reveal(take_list);
    reveal(array_head);
    lemma_read_head(4, n, rest);
}

pub proof fn lemma_read_string(major: nat, b: Seq<u8>, rest: Seq<u8>)
    requires
        major < 7,
        b.len() <= u64::MAX,
    ensures
        read_string(major, (head(major, b.len() as u64) + b) + rest) == Some((b, rest)),
{
    let h = head(major, b.len() as u64);
    assert((h + b) + rest =~= h + (b + rest));
    lemma_read_head(major, b.len() as u64, b + rest);
    assert((b + rest).take(b.len() as int) =~= b);
    assert((b + rest).skip(b.len() as int) =~= rest);
}

pub broadcast proof fn lemma_take_bytes(b: Seq<u8>, max: nat, rest: Seq<u8>)
    requires
        b.len() <= max,
        b.len() <= u64::MAX,
    ensures
        #[trigger] take_bytes(bytes_item(b) + rest, max) == Ok::<(Seq<u8>, Seq<u8>), Error>(
            (b, rest),
        ),
{
    reveal(take_bytes);
    reveal(bytes_item);
    lemma_read_string(2, b, rest);
}

pub broadcast proof fn lemma_take_fixed(b: Seq<u8>, len: nat, rest: Seq<u8>)
    requires
        b.len() == len,
        b.len() <= u64::MAX,
    ensures
        #[trigger] take_fixed(bytes_item(b) + rest, len) == Ok::<(Seq<u8>, Seq<u8>), Error>(
            (b, rest),
        ),
{
    reveal(take_fixed);
    reveal(take_bytes);
    reveal(bytes_item);
    lemma_read_string(2, b, rest);
}

pub broadcast proof fn lemma_take_text(s: Seq<char>, max: nat, rest: Seq<u8>)
    requires
        encode_utf8(s).len() <= max,
        encode_utf8(s).len() <= u64::MAX,
    ensures
        #[trigger] take_text(text_item(s) + rest, max) == Ok::<(Seq<char>, Seq<u8>), Error>(
            (s, rest),
        ),
{
    reveal(take_text);
    reveal(text_item);
    lemma_read_string(3, encode_utf8(s), rest);
    vstd::utf8::encode_utf8_valid_utf8(s);
    vstd::utf8::encode_utf8_decode_utf8(s);
}

pub broadcast proof fn lemma_take_empty_map(rest: Seq<u8>)
    ensures
        #[trigger] take_empty_map(empty_map_item() + rest) == Ok::<Seq<u8>, Error>(rest),
{
    reveal(take_empty_map);
    reveal(empty_map_item);
    lemma_read_head(5, 0, rest);
}

/// A byte string with nothing after it.
pub proof fn lemma_nothing_after(a: Seq<u8>)
    ensures
        a + Seq::<u8>::empty() == a,
{
    assert(a + Seq::<u8>::empty() =~= a);
}

pub broadcast proof fn lemma_take_last_u(n: u64)
    ensures
        #[trigger] take_u(uint_item(n)) == Ok::<(u64, Seq<u8>), Error>((n, Seq::empty())),
{
    lemma_nothing_after(uint_item(n));
    lemma_take_u(n, Seq::empty());
}

pub broadcast proof fn lemma_take_last_bytes(b: Seq<u8>, max: nat)
    requires
        b.len() <= max,
        b.len() <= u64::MAX,
    ensures
        #[trigger] take_bytes(bytes_item(b), max) == Ok::<(Seq<u8>, Seq<u8>), Error>(
            (b, Seq::empty()),
        ),
{
    lemma_nothing_after(bytes_item(b));
    lemma_take_bytes(b, max, Seq::empty());
}

pub broadcast proof fn lemma_take_last_fixed(b: Seq<u8>, len: nat)
    requires
        b.len() == len,
        b.len() <= u64::MAX,
    ensures
        #[trigger] take_fixed(bytes_item(b), len) == Ok::<(Seq<u8>, Seq<u8>), Error>(
            (b, Seq::empty()),
        ),
{
    lemma_nothing_after(bytes_item(b));
    lemma_take_fixed(b, len, Seq::empty());
}

/// Each item that was written is read back, whatever follows it.
pub broadcast group group_read_back {
    lemma_take_u,
    lemma_take_array,
    lemma_take_list,
    lemma_take_bytes,
    lemma_take_fixed,
    lemma_take_text,
    lemma_take_empty_map,
    lemma_take_last_u,
    lemma_take_last_bytes,
    lemma_take_last_fixed,
}

/// What is read is no longer than what it is read from, and is as long as asked.
pub proof fn lemma_take_sizes(s: Seq<u8>, n: nat)
    ensures
        take_bytes(s, n) matches Ok((b, rest)) ==> b.len() <= n && b.len() + rest.len() < s.len(),
        take_fixed(s, n) matches Ok((b, rest)) ==> b.len() == n && b.len() + rest.len() < s.len(),
        take_array(s, n) matches Ok(rest) ==> rest.len() < s.len(),
        take_empty_map(s) matches Ok(rest) ==> rest.len() < s.len(),
{
    reveal(take_bytes);
    reveal(take_fixed);
    reveal(take_array);
    reveal(take_empty_map);
}

/// The test of a record that was read against what writing it again gives.
pub open spec fn canonical_check(input: Seq<u8>, encoded: Seq<u8>) -> Result<(), Error> {
    if input == encoded {
        Ok(())
    } else {
        Err(Error::Protocol("noncanonical CBOR"))
    }
}

/// Accepts `input` where it is what the encoder writes for the value read from it.
pub fn canonical(input: &[u8], encoded: &[u8]) -> (r: Result<(), Error>)
    ensures
        r == canonical_check(input@, encoded@),
{
    if !same_bytes(input, encoded) {
        return Err(Error::Protocol("noncanonical CBOR"));
    }
    Ok(())
}

} // verus!
