//! Byte strings: big-endian integers, equality, and the dictionary order.
use vstd::prelude::*;

verus! {

/// The unsigned integer that `b` spells, most significant byte first.
pub open spec fn be_value(b: Seq<u8>) -> nat
    decreases b.len(),
{
    if b.len() == 0 {
        0
    } else {
        be_value(b.drop_last()) * 256 + b.last() as nat
    }
}

/// The `len` low-order bytes of `n`, most significant byte first.
pub open spec fn be_bytes(n: nat, len: nat) -> Seq<u8>
    decreases len,
{
    if len == 0 {
        Seq::empty()
    } else {
        be_bytes(n / 256, (len - 1) as nat).push((n % 256) as u8)
    }
}

/// The first number that `len` bytes cannot hold.
pub open spec fn be_limit(len: nat) -> nat
    decreases len,
{
    if len == 0 {
        1
    } else {
        256 * be_limit((len - 1) as nat)
    }
}

pub proof fn lemma_be_bytes_len(n: nat, len: nat)
    ensures
        be_bytes(n, len).len() == len,
    decreases len,
{
    if len > 0 {
        lemma_be_bytes_len(n / 256, (len - 1) as nat);
    }
}

/// Writing a number that fits and reading it again gives the number.
pub proof fn lemma_be_round_trip(n: nat, len: nat)
    requires
        n < be_limit(len),
    ensures
        be_bytes(n, len).len() == len,
        be_value(be_bytes(n, len)) == n,
    decreases len,
{
    if len > 0 {
        let low = (n % 256) as u8;
        lemma_be_round_trip(n / 256, (len - 1) as nat);
        assert(be_bytes(n, len).drop_last() =~= be_bytes(n / 256, (len - 1) as nat));
    }
}

/// Reading a byte string and writing the number again gives the byte string.
pub proof fn lemma_be_value_round_trip(b: Seq<u8>)
    ensures
        be_value(b) < be_limit(b.len()),
        be_bytes(be_value(b), b.len()) == b,
    decreases b.len(),
{
    if b.len() > 0 {
        lemma_be_value_round_trip(b.drop_last());
        let high = be_value(b.drop_last());
        assert((high * 256 + b.last() as nat) / 256 == high);
        assert((high * 256 + b.last() as nat) % 256 == b.last());
        assert(b =~= b.drop_last().push(b.last()));
    } else {
        assert(b =~= Seq::<u8>::empty());
    }
}

/// The limits that the fixed-width integer types have.
pub proof fn lemma_be_limits()
    ensures
        be_limit(1) == 0x100,
        be_limit(2) == 0x1_0000,
        be_limit(4) == 0x1_0000_0000,
        be_limit(8) == 0x1_0000_0000_0000_0000,
{
    reveal_with_fuel(be_limit, 9);
}

/// Concatenation of byte strings may be regrouped to the right.
pub broadcast proof fn lemma_concat_assoc(a: Seq<u8>, b: Seq<u8>, c: Seq<u8>)
    ensures
        #[trigger] ((a + b) + c) == a + (b + c),
{
    assert((a + b) + c =~= a + (b + c));
}

/// Whether two byte strings hold the same bytes.
pub fn same_bytes(a: &[u8], b: &[u8]) -> (same: bool)
    ensures
        same == (a@ == b@),
{
    if a.len() != b.len() {
        return false;
    }
    let mut i: usize = 0;
    while i < a.len()
        invariant
            i <= a.len(),
            a.len() == b.len(),
            forall|j: int| 0 <= j < i ==> a@[j] == b@[j],
        decreases a.len() - i,
    {
        if a[i] != b[i] {
            return false;
        }
        i = i + 1;
    }
    assert(a@ =~= b@);
    true
}

/// The dictionary order on byte strings: at the first difference the smaller byte comes first,
/// and a proper prefix comes before what extends it.
pub open spec fn bytes_less(a: Seq<u8>, b: Seq<u8>) -> bool
    decreases a.len(),
{
    if b.len() == 0 {
        false
    } else if a.len() == 0 {
        true
    } else if a[0] != b[0] {
        a[0] < b[0]
    } else {
        bytes_less(a.skip(1), b.skip(1))
    }
}

pub proof fn lemma_bytes_less_irreflexive(a: Seq<u8>)
    ensures
        !bytes_less(a, a),
    decreases a.len(),
{
    if a.len() > 0 {
        lemma_bytes_less_irreflexive(a.skip(1));
    }
}

pub proof fn lemma_bytes_less_transitive(a: Seq<u8>, b: Seq<u8>, c: Seq<u8>)
    requires
        bytes_less(a, b),
        bytes_less(b, c),
    ensures
        bytes_less(a, c),
    decreases a.len(),
{
    if a.len() > 0 && b.len() > 0 && c.len() > 0 && a[0] == b[0] && b[0] == c[0] {
        lemma_bytes_less_transitive(a.skip(1), b.skip(1), c.skip(1));
    }
}

pub proof fn lemma_bytes_less_total(a: Seq<u8>, b: Seq<u8>)
    ensures
        bytes_less(a, b) || a == b || bytes_less(b, a),
    decreases a.len(),
{
    if a.len() == 0 || b.len() == 0 {
        if a.len() == b.len() {
            assert(a =~= b);
        }
    } else if a[0] == b[0] {
        lemma_bytes_less_total(a.skip(1), b.skip(1));
        if a.skip(1) == b.skip(1) {
            assert(a =~= seq![a[0]] + a.skip(1));
            assert(b =~= seq![b[0]] + b.skip(1));
        }
    }
}

/// How one value stands to another.
#[derive(Debug, Clone, Copy, PartialEq, Eq, Structural)]
pub enum Relation {
    Less,
    Same,
    Greater,
}

/// Compares two byte strings in the dictionary order.
pub fn compare_bytes(a: &[u8], b: &[u8]) -> (r: Relation)
    ensures
        match r {
            Relation::Less => bytes_less(a@, b@),
            Relation::Same => a@ == b@,
            Relation::Greater => bytes_less(b@, a@),
        },
{
    let mut i: usize = 0;
    proof {
        assert(a@.skip(0) =~= a@);
        assert(b@.skip(0) =~= b@);
    }
    while i < a.len() && i < b.len()
        invariant
            i <= a.len(),
            i <= b.len(),
            a@.take(i as int) == b@.take(i as int),
            bytes_less(a@, b@) == bytes_less(a@.skip(i as int), b@.skip(i as int)),
            bytes_less(b@, a@) == bytes_less(b@.skip(i as int), a@.skip(i as int)),
        decreases a.len() - i,
    {
        if a[i] < b[i] {
            return Relation::Less;
        }
        if b[i] < a[i] {
            return Relation::Greater;
        }
        proof {
            assert(a@.skip(i as int).skip(1) =~= a@.skip(i + 1));
            assert(b@.skip(i as int).skip(1) =~= b@.skip(i + 1));
            assert(a@.take(i + 1) =~= a@.take(i as int).push(a@[i as int]));
            assert(b@.take(i + 1) =~= b@.take(i as int).push(b@[i as int]));
        }
        i = i + 1;
    }
    if i < b.len() {
        Relation::Less
    } else if i < a.len() {
        Relation::Greater
    } else {
        proof {
            assert(a@.take(i as int) =~= a@);
            assert(b@.take(i as int) =~= b@);
        }
        Relation::Same
    }
}

/// Appends the `len` low-order bytes of `n` to `out`, most significant byte first.
pub fn push_be(out: &mut Vec<u8>, n: u64, len: usize)
    requires
        len <= 8,
    ensures
        final(out)@ == old(out)@ + be_bytes(n as nat, len as nat),
    decreases len,
{
    if len > 0 {
        push_be(out, n / 256, len - 1);
        out.push((n % 256) as u8);
        proof {
            assert(out@ =~= old(out)@ + be_bytes(n as nat, len as nat));
        }
    } else {
        proof {
            assert(out@ =~= old(out)@ + be_bytes(n as nat, len as nat));
        }
    }
}

/// The number that at most eight bytes spell, most significant byte first.
pub fn read_be(b: &[u8]) -> (n: u64)
    requires
        b.len() <= 8,
    ensures
        n == be_value(b@),
{
    let mut n: u64 = 0;
    let mut i: usize = 0;
    while i < b.len()
        invariant
            i <= b.len() <= 8,
            n == be_value(b@.take(i as int)),
        decreases b.len() - i,
    {
        proof {
            let next = b@.take(i + 1);
            assert(next.drop_last() =~= b@.take(i as int));
            lemma_be_value_round_trip(next);
            reveal_with_fuel(be_limit, 9);
        }
        n = n * 256 + b[i] as u64;
        i = i + 1;
    }
    proof {
        assert(b@.take(i as int) =~= b@);
    }
    n
}

/// The bytes of `s` as an array.
pub fn to_array<const N: usize>(s: &[u8]) -> (a: [u8; N])
    requires
        s.len() == N,
    ensures
        a@ == s@,
{
    let mut a: [u8; N] = [0u8; N];
    let mut i: usize = 0;
    while i < N
        invariant
            i <= N,
            s.len() == N,
            forall|j: int| 0 <= j < i ==> a@[j] == s@[j],
        decreases N - i,
    {
        a[i] = s[i];
        i = i + 1;
    }
    assert(a@ =~= s@);
    a
}

} // verus!
