//! Maps that keep their entries in the order of their keys.
use crate::octets::Relation;
use vstd::prelude::*;

verus! {

/// A type whose values are totally ordered, as far as their views tell them apart.
pub trait Key: View + Sized {
    spec fn less(a: Self::V, b: Self::V) -> bool;

    proof fn less_irreflexive(a: Self::V)
        ensures
            !Self::less(a, a),
    ;

    proof fn less_transitive(a: Self::V, b: Self::V, c: Self::V)
        requires
            Self::less(a, b),
            Self::less(b, c),
        ensures
            Self::less(a, c),
    ;

    proof fn less_total(a: Self::V, b: Self::V)
        ensures
            Self::less(a, b) || a == b || Self::less(b, a),
    ;

    fn compare(&self, other: &Self) -> (r: Relation)
        ensures
            match r {
                Relation::Less => Self::less(self@, other@),
                Relation::Same => self@ == other@,
                Relation::Greater => Self::less(other@, self@),
            },
    ;
}

/// The pairs that `s` lists, as a map.
pub open spec fn pairs_map<A, B>(s: Seq<(A, B)>) -> Map<A, B> {
    Map::new(
        |a: A| exists|i: int| 0 <= i < s.len() && (#[trigger] s[i]).0 == a,
        |a: A| s[choose|i: int| 0 <= i < s.len() && (#[trigger] s[i]).0 == a].1,
    )
}

/// Strictly increasing first components.
pub open spec fn increasing<K: Key, B>(s: Seq<(K::V, B)>) -> bool {
    forall|i: int, j: int| 0 <= i < j < s.len() ==> K::less((#[trigger] s[i]).0, (#[trigger] s[j]).0)
}

/// In an increasing list no key comes twice, so each entry is what the map holds of its key.
pub proof fn lemma_pairs_map_index<K: Key, B>(s: Seq<(K::V, B)>, i: int)
    requires
        increasing::<K, B>(s),
        0 <= i < s.len(),
    ensures
        pairs_map(s).contains_key(s[i].0),
        pairs_map(s)[s[i].0] == s[i].1,
{
    let j = choose|j: int| 0 <= j < s.len() && (#[trigger] s[j]).0 == s[i].0;
    assert(0 <= j < s.len() && s[j].0 == s[i].0);
    K::less_irreflexive(s[i].0);
    if i < j {
        assert(K::less(s[i].0, s[j].0));
    } else if j < i {
        assert(K::less(s[j].0, s[i].0));
    }
}

/// The order of the keys leaves only one way to list a map.
pub proof fn lemma_pairs_unique<K: Key, B>(s: Seq<(K::V, B)>, t: Seq<(K::V, B)>)
    requires
        increasing::<K, B>(s),
        increasing::<K, B>(t),
        pairs_map(s) == pairs_map(t),
    ensures
        s == t,
    decreases s.len(),
{
    if s.len() == 0 {
        if t.len() > 0 {
            lemma_pairs_map_index::<K, B>(t, 0);
            assert(pairs_map(s).contains_key(t[0].0));
        }
        assert(s =~= t);
    } else if t.len() == 0 {
        lemma_pairs_map_index::<K, B>(s, 0);
        assert(pairs_map(t).contains_key(s[0].0));
    } else {
        let a = s.last().0;
        let b = t.last().0;
        lemma_pairs_map_index::<K, B>(s, s.len() - 1);
        lemma_pairs_map_index::<K, B>(t, t.len() - 1);
        assert(pairs_map(t).contains_key(a));
        assert(pairs_map(s).contains_key(b));
        let i = choose|i: int| 0 <= i < t.len() && (#[trigger] t[i]).0 == a;
        let j = choose|j: int| 0 <= j < s.len() && (#[trigger] s[j]).0 == b;
        if a != b {
            assert(K::less(t[i].0, t[t.len() - 1].0));
            assert(K::less(s[j].0, s[s.len() - 1].0));
            K::less_transitive(a, b, a);
            K::less_irreflexive(a);
        }
        assert(s.last() == t.last());
        let s1 = s.drop_last();
        let t1 = t.drop_last();
        assert forall|k: K::V| #[trigger]
            pairs_map(s1).dom().contains(k) implies pairs_map(t1).dom().contains(k)
            && pairs_map(s1)[k] == pairs_map(t1)[k] by {
            lemma_drop_last::<K, B>(s, t, k);
        }
        assert forall|k: K::V| #[trigger] pairs_map(t1).dom().contains(k) implies pairs_map(
            s1,
        ).dom().contains(k) by {
            lemma_drop_last::<K, B>(t, s, k);
        }
        assert(pairs_map(s1) =~= pairs_map(t1));
        lemma_pairs_unique::<K, B>(s1, t1);
        assert(s =~= s1.push(s.last()));
        assert(t =~= t1.push(t.last()));
    }
}

proof fn lemma_drop_last<K: Key, B>(s: Seq<(K::V, B)>, t: Seq<(K::V, B)>, k: K::V)
    requires
        increasing::<K, B>(s),
        increasing::<K, B>(t),
        pairs_map(s) == pairs_map(t),
        s.len() > 0,
        t.len() > 0,
        s.last() == t.last(),
        pairs_map(s.drop_last()).contains_key(k),
    ensures
        pairs_map(t.drop_last()).contains_key(k),
        pairs_map(s.drop_last())[k] == pairs_map(t.drop_last())[k],
{
    let s1 = s.drop_last();
    let t1 = t.drop_last();
    let i = choose|i: int| 0 <= i < s1.len() && (#[trigger] s1[i]).0 == k;
    assert(s1[i] == s[i]);
    lemma_pairs_map_index::<K, B>(s, i);
    lemma_pairs_map_index::<K, B>(s1, i);
    assert(pairs_map(t).contains_key(k));
    let j = choose|j: int| 0 <= j < t.len() && (#[trigger] t[j]).0 == k;
    lemma_pairs_map_index::<K, B>(t, j);
    if j == t.len() - 1 {
        assert(K::less(s[i].0, s[s.len() - 1].0));
        K::less_irreflexive(k);
    }
    assert(t1[j] == t[j]);
    lemma_pairs_map_index::<K, B>(t1, j);
}

/// A map has as many keys as its list has entries.
pub proof fn lemma_pairs_len<K: Key, B>(s: Seq<(K::V, B)>)
    requires
        increasing::<K, B>(s),
    ensures
        pairs_map(s).dom().finite(),
        pairs_map(s).dom().len() == s.len(),
    decreases s.len(),
{
    if s.len() == 0 {
        assert(pairs_map(s).dom() =~= Set::<K::V>::empty());
    } else {
        let most = s.drop_last();
        let k = s.last().0;
        lemma_pairs_len::<K, B>(most);
        assert forall|x: K::V| #[trigger]
            pairs_map(s).dom().contains(x) == pairs_map(most).dom().insert(k).contains(x) by {
            if pairs_map(s).dom().contains(x) {
                let i = choose|i: int| 0 <= i < s.len() && (#[trigger] s[i]).0 == x;
                if i < most.len() {
                    assert(most[i] == s[i]);
                }
            }
            if pairs_map(most).dom().contains(x) {
                let i = choose|i: int| 0 <= i < most.len() && (#[trigger] most[i]).0 == x;
                assert(most[i] == s[i]);
            }
            if x == k {
                assert(s[s.len() - 1].0 == x);
            }
        }
        assert(pairs_map(s).dom() =~= pairs_map(most).dom().insert(k));
        if pairs_map(most).dom().contains(k) {
            let i = choose|i: int| 0 <= i < most.len() && (#[trigger] most[i]).0 == k;
            assert(most[i] == s[i]);
            assert(K::less(s[i].0, s[s.len() - 1].0));
            K::less_irreflexive(k);
        }
    }
}

/// The entries of a map in the order of their keys.
pub open spec fn listing<K: Key, B>(m: Map<K::V, B>) -> Seq<(K::V, B)> {
    choose|s: Seq<(K::V, B)>| #[trigger] increasing::<K, B>(s) && pairs_map(s) == m
}

/// A list in order is the list of the map that it lists.
pub proof fn lemma_listing<K: Key, B>(s: Seq<(K::V, B)>)
    requires
        increasing::<K, B>(s),
    ensures
        listing::<K, B>(pairs_map(s)) == s,
{
    let t = listing::<K, B>(pairs_map(s));
    assert(increasing::<K, B>(t) && pairs_map(t) == pairs_map(s));
    lemma_pairs_unique::<K, B>(s, t);
}

/// A list with an entry put where the order of the keys wants it.
pub open spec fn placed<K: Key, B>(s: Seq<(K::V, B)>, k: K::V, b: B) -> Seq<(K::V, B)>
    decreases s.len(),
{
    if s.len() == 0 {
        seq![(k, b)]
    } else if K::less(s.last().0, k) {
        s.push((k, b))
    } else {
        placed::<K, B>(s.drop_last(), k, b).push(s.last())
    }
}

/// Placing an entry under a new key keeps the order and adds it to the map.
pub proof fn lemma_placed<K: Key, B>(s: Seq<(K::V, B)>, k: K::V, b: B)
    requires
        increasing::<K, B>(s),
        !pairs_map(s).contains_key(k),
    ensures
        increasing::<K, B>(placed::<K, B>(s, k, b)),
        pairs_map(placed::<K, B>(s, k, b)) == pairs_map(s).insert(k, b),
        placed::<K, B>(s, k, b).len() == s.len() + 1,
        forall|i: int|
            0 <= i < s.len() + 1 ==> (#[trigger] placed::<K, B>(s, k, b)[i]).0 == k || exists|j: int|
                0 <= j < s.len() && #[trigger] s[j] == placed::<K, B>(s, k, b)[i],
    decreases s.len(),
{
    let t = placed::<K, B>(s, k, b);
    if s.len() == 0 {
        assert(t =~= seq![(k, b)]);
        assert(pairs_map(t) =~= pairs_map(s).insert(k, b)) by {
            lemma_pairs_map_index::<K, B>(t, 0);
            assert(t[0].0 == k);
        }
    } else if K::less(s.last().0, k) {
        assert forall|i: int, j: int| 0 <= i < j < t.len() implies K::less(
            (#[trigger] t[i]).0,
            (#[trigger] t[j]).0,
        ) by {
            if j == s.len() && i < s.len() - 1 {
                assert(K::less(s[i].0, s[s.len() - 1].0));
                K::less_transitive(s[i].0, s.last().0, k);
            }
        }
        lemma_pushed::<K, B>(s, t, k, b);
        assert forall|i: int| 0 <= i < t.len() implies (#[trigger] t[i]).0 == k || exists|j: int|
            0 <= j < s.len() && #[trigger] s[j] == t[i] by {
            if i < s.len() {
                assert(s[i] == t[i]);
            }
        }
    } else {
        let most = s.drop_last();
        let last = s.last();
        let u = placed::<K, B>(most, k, b);
        assert(!pairs_map(most).contains_key(k)) by {
            if pairs_map(most).contains_key(k) {
                let i = choose|i: int| 0 <= i < most.len() && (#[trigger] most[i]).0 == k;
                assert(s[i].0 == k);
            }
        }
        lemma_placed::<K, B>(most, k, b);
        assert(last.0 != k) by {
            assert(s[s.len() - 1].0 == last.0);
        }
        K::less_total(last.0, k);
        assert forall|i: int, j: int| 0 <= i < j < t.len() implies K::less(
            (#[trigger] t[i]).0,
            (#[trigger] t[j]).0,
        ) by {
            if j < u.len() {
                assert(u[i] == t[i] && u[j] == t[j]);
            } else {
                assert(u[i] == t[i]);
                if u[i].0 != k {
                    let m = choose|m: int| 0 <= m < most.len() && #[trigger] most[m] == u[i];
                    assert(K::less(s[m].0, s[s.len() - 1].0));
                }
            }
        }
        assert(!pairs_map(u).contains_key(last.0)) by {
            if pairs_map(u).contains_key(last.0) {
                let i = choose|i: int| 0 <= i < u.len() && (#[trigger] u[i]).0 == last.0;
                let m = choose|m: int| 0 <= m < most.len() && #[trigger] most[m] == u[i];
                assert(K::less(s[m].0, s[s.len() - 1].0));
                K::less_irreflexive(last.0);
            }
        }
        lemma_pushed::<K, B>(u, t, last.0, last.1);
        assert(!pairs_map(most).contains_key(last.0)) by {
            if pairs_map(most).contains_key(last.0) {
                let m = choose|m: int| 0 <= m < most.len() && (#[trigger] most[m]).0 == last.0;
                assert(K::less(s[m].0, s[s.len() - 1].0));
                K::less_irreflexive(last.0);
            }
        }
        assert(s =~= most.push(last));
        lemma_pushed::<K, B>(most, s, last.0, last.1);
        assert(pairs_map(t) =~= pairs_map(s).insert(k, b));
        assert forall|i: int| 0 <= i < t.len() implies (#[trigger] t[i]).0 == k || exists|j: int|
            0 <= j < s.len() && #[trigger] s[j] == t[i] by {
            if i < u.len() {
                assert(u[i] == t[i]);
                if u[i].0 != k {
                    let m = choose|m: int| 0 <= m < most.len() && #[trigger] most[m] == u[i];
                    assert(s[m] == t[i]);
                }
            } else {
                assert(s[s.len() - 1] == t[i]);
            }
        }
    }
}

/// Appending an entry under a new key adds it to the map.
pub proof fn lemma_pushed<K: Key, B>(s: Seq<(K::V, B)>, t: Seq<(K::V, B)>, k: K::V, b: B)
    requires
        increasing::<K, B>(t),
        increasing::<K, B>(s),
        t == s.push((k, b)),
        !pairs_map(s).contains_key(k),
    ensures
        pairs_map(t) == pairs_map(s).insert(k, b),
{
    assert forall|x: K::V| #[trigger]
        pairs_map(t).dom().contains(x) == pairs_map(s).insert(k, b).dom().contains(x) && (pairs_map(
        t,
    ).dom().contains(x) ==> pairs_map(t)[x] == pairs_map(s).insert(k, b)[x]) by {
        if pairs_map(t).dom().contains(x) {
            let i = choose|i: int| 0 <= i < t.len() && (#[trigger] t[i]).0 == x;
            lemma_pairs_map_index::<K, B>(t, i);
            if i < s.len() {
                assert(s[i] == t[i]);
                lemma_pairs_map_index::<K, B>(s, i);
            }
        }
        if x == k {
            assert(t[s.len() as int].0 == x);
        } else if pairs_map(s).dom().contains(x) {
            let i = choose|i: int| 0 <= i < s.len() && (#[trigger] s[i]).0 == x;
            assert(t[i].0 == x);
        }
    }
    assert(pairs_map(t) =~= pairs_map(s).insert(k, b));
}

/// Every finite map has a list.
pub proof fn lemma_listing_exists<K: Key, B>(m: Map<K::V, B>)
    requires
        m.dom().finite(),
    ensures
        increasing::<K, B>(listing::<K, B>(m)),
        pairs_map(listing::<K, B>(m)) == m,
        listing::<K, B>(m).len() == m.dom().len(),
    decreases m.dom().len(),
{
    if m.dom().len() == 0 {
        let s = Seq::<(K::V, B)>::empty();
        assert(increasing::<K, B>(s));
        assert(m.dom() =~= Set::<K::V>::empty());
        assert(pairs_map(s) =~= m);
        lemma_listing::<K, B>(s);
    } else {
        let k = m.dom().choose();
        let rest = m.remove(k);
        lemma_listing_exists::<K, B>(rest);
        let s = listing::<K, B>(rest);
        lemma_placed::<K, B>(s, k, m[k]);
        let t = placed::<K, B>(s, k, m[k]);
        assert(pairs_map(t) =~= m);
        lemma_listing::<K, B>(t);
    }
}

/// Changing the value of an entry changes what the map holds of its key.
pub proof fn lemma_updated<K: Key, B>(s: Seq<(K::V, B)>, i: int, b: B)
    requires
        increasing::<K, B>(s),
        0 <= i < s.len(),
    ensures
        increasing::<K, B>(s.update(i, (s[i].0, b))),
        pairs_map(s.update(i, (s[i].0, b))) == pairs_map(s).insert(s[i].0, b),
{
    let k = s[i].0;
    let after = s.update(i, (k, b));
    let map = pairs_map(s).insert(k, b);
    assert forall|x: int, y: int| 0 <= x < y < after.len() implies K::less(
        (#[trigger] after[x]).0,
        (#[trigger] after[y]).0,
    ) by {
        assert(K::less(s[x].0, s[y].0));
    }
    assert forall|x: K::V| #[trigger]
        pairs_map(after).contains_key(x) == map.contains_key(x) && (pairs_map(after).contains_key(x)
            ==> pairs_map(after)[x] == map[x]) by {
        if pairs_map(after).contains_key(x) {
            let j = choose|j: int| 0 <= j < after.len() && (#[trigger] after[j]).0 == x;
            lemma_pairs_map_index::<K, B>(after, j);
            lemma_pairs_map_index::<K, B>(s, j);
            if j < i {
                assert(K::less(s[j].0, s[i].0));
                K::less_irreflexive(k);
            } else if j > i {
                assert(K::less(s[i].0, s[j].0));
                K::less_irreflexive(k);
            }
        } else if map.contains_key(x) {
            if x == k {
                assert(after[i].0 == x);
            } else {
                let j = choose|j: int| 0 <= j < s.len() && (#[trigger] s[j]).0 == x;
                assert(after[j].0 == x);
            }
        }
    }
    assert(pairs_map(after) =~= map);
}

/// The views of a list of keys and of the list of their values.
spec fn entry_views<K: Key, V: View>(keys: Seq<K>, values: Seq<V>) -> Seq<(K::V, V::V)> {
    Seq::new(keys.len(), |i: int| (keys[i]@, values[i]@))
}

/// Whether a list of keys strictly increases.
spec fn climbing<K: Key>(keys: Seq<K>) -> bool {
    forall|i: int, j: int| 0 <= i < j < keys.len() ==> K::less((#[trigger] keys[i])@, (#[trigger] keys[j])@)
}

proof fn lemma_climbing<K: Key, V: View>(keys: Seq<K>, values: Seq<V>)
    ensures
        climbing(keys) == increasing::<K, V::V>(entry_views(keys, values)),
{
    let views = entry_views(keys, values);
    if climbing(keys) {
        assert forall|i: int, j: int| 0 <= i < j < views.len() implies K::less(
            (#[trigger] views[i]).0,
            (#[trigger] views[j]).0,
        ) by {
            assert(K::less(keys[i]@, keys[j]@));
        }
    }
    if increasing::<K, V::V>(views) {
        assert forall|i: int, j: int| 0 <= i < j < keys.len() implies K::less(
            (#[trigger] keys[i])@,
            (#[trigger] keys[j])@,
        ) by {
            assert(K::less(views[i].0, views[j].0));
        }
    }
}

/// A map from `K` to `V` that can be walked in the order of its keys.
pub struct OrderedMap<K: Key, V: View> {
    keys: Vec<K>,
    values: Vec<V>,
}

impl<K: Key, V: View> View for OrderedMap<K, V> {
    type V = Map<K::V, V::V>;

    closed spec fn view(&self) -> Map<K::V, V::V> {
        pairs_map(self.pairs())
    }
}

impl<K: Key, V: View> OrderedMap<K, V> {
    /// The entries in the order of their keys.
    pub closed spec fn pairs(&self) -> Seq<(K::V, V::V)> {
        entry_views(self.keys@, self.values@)
    }

    /// The entries themselves, in the order of their keys.
    pub closed spec fn items(&self) -> Seq<(K, V)> {
        Seq::new(self.keys@.len(), |i: int| (self.keys@[i], self.values@[i]))
    }

    /// Whether this is the value of some entry.
    pub open spec fn holds(&self, v: V) -> bool {
        exists|i: int| 0 <= i < self.items().len() && (#[trigger] self.items()[i]).1 == v
    }

    /// The entries in order are the views of the entries themselves.
    pub proof fn lemma_items(&self)
        ensures
            self.pairs().len() == self.items().len(),
            forall|i: int|
                0 <= i < self.items().len() ==> (#[trigger] self.pairs()[i]) == (
                    self.items()[i].0@,
                    self.items()[i].1@,
                ),
    {
    }

    /// The keys increase.
    #[verifier::type_invariant]
    pub closed spec fn wf(&self) -> bool {
        self.keys@.len() == self.values@.len() && climbing(self.keys@)
    }

    /// What the entries in order have to do with the map.
    pub proof fn lemma_pairs(&self)
        requires
            self.wf(),
        ensures
            increasing::<K, V::V>(self.pairs()),
            pairs_map(self.pairs()) == self@,
            self.pairs() == listing::<K, V::V>(self@),
            self@.dom().finite(),
            self@.dom().len() == self.pairs().len(),
            forall|i: int|
                0 <= i < self.pairs().len() ==> {
                    &&& self@.contains_key((#[trigger] self.pairs()[i]).0)
                    &&& self@[self.pairs()[i].0] == self.pairs()[i].1
                },
            forall|k: K::V| #[trigger]
                self@.contains_key(k) ==> exists|i: int|
                    0 <= i < self.pairs().len() && (#[trigger] self.pairs()[i]).0 == k,
    {
        lemma_climbing(self.keys@, self.values@);
        lemma_pairs_len::<K, V::V>(self.pairs());
        lemma_listing::<K, V::V>(self.pairs());
        assert forall|i: int| 0 <= i < self.pairs().len() implies {
            &&& self@.contains_key((#[trigger] self.pairs()[i]).0)
            &&& self@[self.pairs()[i].0] == self.pairs()[i].1
        } by {
            lemma_pairs_map_index::<K, V::V>(self.pairs(), i);
        }
    }

    pub fn new() -> (m: Self)
        ensures
            m@ == Map::<K::V, V::V>::empty(),
            m.pairs().len() == 0,
            m.items().len() == 0,
    {
        let m = OrderedMap { keys: Vec::new(), values: Vec::new() };
        assert(m@ =~= Map::<K::V, V::V>::empty());
        m
    }

    pub fn len(&self) -> (n: usize)
        ensures
            n == self.pairs().len(),
            n == self@.dom().len(),
            self@.dom().finite(),
    {
        proof {
            use_type_invariant(self);
            lemma_climbing(self.keys@, self.values@);
            self.lemma_pairs();
        }
        self.keys.len()
    }

    pub fn is_empty(&self) -> (empty: bool)
        ensures
            empty == (self.pairs().len() == 0),
            empty == (self@ == Map::<K::V, V::V>::empty()),
    {
        proof {
            use_type_invariant(self);
            lemma_climbing(self.keys@, self.values@);
            self.lemma_pairs();
            if self.pairs().len() == 0 {
                assert(self@ =~= Map::<K::V, V::V>::empty());
            } else {
                assert(self@.contains_key(self.pairs()[0].0));
            }
        }
        self.keys.len() == 0
    }

    /// Where `key` is, or where it would be inserted.
    fn find(&self, key: &K) -> (r: (usize, bool))
        ensures
            r.0 <= self.keys@.len(),
            r.1 ==> r.0 < self.keys@.len() && self.pairs()[r.0 as int].0 == key@,
            !r.1 ==> !self@.contains_key(key@),
            forall|i: int| 0 <= i < r.0 && !r.1 ==> K::less((#[trigger] self.pairs()[i]).0, key@),
            forall|i: int|
                r.0 <= i < self.keys@.len() && !r.1 ==> K::less(
                    key@,
                    (#[trigger] self.pairs()[i]).0,
                ),
    {
        proof {
            use_type_invariant(self);
            lemma_climbing(self.keys@, self.values@);
        }
        let mut low: usize = 0;
        let mut high: usize = self.keys.len();
        while low < high
            invariant
                self.wf(),
                low <= high <= self.keys@.len(),
                forall|i: int| 0 <= i < low ==> K::less((#[trigger] self.pairs()[i]).0, key@),
                forall|i: int|
                    high <= i < self.keys@.len() ==> K::less(
                        key@,
                        (#[trigger] self.pairs()[i]).0,
                    ),
            decreases high - low,
        {
            let mid: usize = low + (high - low) / 2;
            let relation = self.keys[mid].compare(key);
            match relation {
                Relation::Same => {
                    return (mid, true);
                },
                Relation::Less => {
                    proof {
                        assert forall|i: int| 0 <= i < mid + 1 implies K::less(
                            (#[trigger] self.pairs()[i]).0,
                            key@,
                        ) by {
                            if low <= i < mid {
                                K::less_transitive(
                                    self.pairs()[i].0,
                                    self.pairs()[mid as int].0,
                                    key@,
                                );
                            }
                        }
                    }
                    low = mid + 1;
                },
                Relation::Greater => {
                    proof {
                        assert forall|i: int| mid <= i < self.keys@.len() implies K::less(
                            key@,
                            (#[trigger] self.pairs()[i]).0,
                        ) by {
                            if mid < i < high {
                                K::less_transitive(
                                    key@,
                                    self.pairs()[mid as int].0,
                                    self.pairs()[i].0,
                                );
                            }
                        }
                    }
                    high = mid;
                },
            }
        }
        proof {
            self.lemma_pairs();
            if self@.contains_key(key@) {
                let i = choose|i: int|
                    0 <= i < self.pairs().len() && (#[trigger] self.pairs()[i]).0 == key@;
                K::less_irreflexive(key@);
            }
        }
        (low, false)
    }

    pub fn contains_key(&self, key: &K) -> (found: bool)
        ensures
            found == self@.contains_key(key@),
    {
        let (i, found) = self.find(key);
        proof {
            use_type_invariant(self);
            lemma_climbing(self.keys@, self.values@);
            if found {
                lemma_pairs_map_index::<K, V::V>(self.pairs(), i as int);
            }
        }
        found
    }

    pub fn get(&self, key: &K) -> (value: Option<&V>)
        ensures
            match value {
                Some(v) => self@.contains_key(key@) && v@ == self@[key@],
                None => !self@.contains_key(key@),
            },
    {
        let (i, found) = self.find(key);
        if found {
            proof {
                use_type_invariant(self);
            lemma_climbing(self.keys@, self.values@);
                lemma_pairs_map_index::<K, V::V>(self.pairs(), i as int);
            }
            Some(&self.values[i])
        } else {
            None
        }
    }

    /// The key of the `i`-th entry.
    pub fn key_at(&self, i: usize) -> (key: &K)
        requires
            i < self.pairs().len(),
        ensures
            key@ == self.pairs()[i as int].0,
    {
        &self.keys[i]
    }

    /// The value of the `i`-th entry.
    pub fn value_at(&self, i: usize) -> (value: &V)
        requires
            i < self.pairs().len(),
        ensures
            value@ == self.pairs()[i as int].1,
            *value == self.items()[i as int].1,
            i < self.items().len(),
    {
        proof {
            use_type_invariant(self);
            lemma_climbing(self.keys@, self.values@);
        }
        &self.values[i]
    }

    /// The value of the `i`-th entry, to be changed in place.
    pub fn value_mut(&mut self, i: usize) -> (value: &mut V)
        requires
            i < old(self).pairs().len(),
        ensures
            value@ == old(self).pairs()[i as int].1,
            final(self).pairs() == old(self).pairs().update(
                i as int,
                (old(self).pairs()[i as int].0, final(value)@),
            ),
            final(self)@ == old(self)@.insert(old(self).pairs()[i as int].0, final(value)@),
    {
        proof {
            use_type_invariant(&*self);
            lemma_climbing(self.keys@, self.values@);
            assert forall|b: V::V| #[trigger]
                pairs_map(self.pairs().update(i as int, (self.pairs()[i as int].0, b)))
                    == self@.insert(self.pairs()[i as int].0, b) by {
                lemma_updated::<K, V::V>(self.pairs(), i as int, b);
            }
        }
        &mut self.values[i]
    }

    /// What is under `key`, to be changed in place.
    pub fn get_mut(&mut self, key: &K) -> (value: Option<&mut V>)
        ensures
            match value {
                Some(v) => {
                    &&& old(self)@.contains_key(key@)
                    &&& v@ == old(self)@[key@]
                    &&& final(self)@ == old(self)@.insert(key@, final(v)@)
                },
                None => !old(self)@.contains_key(key@) && *final(self) == *old(self),
            },
    {
        let (i, found) = self.find(key);
        if found {
            proof {
                use_type_invariant(&*self);
                lemma_climbing(self.keys@, self.values@);
                lemma_pairs_map_index::<K, V::V>(self.pairs(), i as int);
            }
            Some(self.value_mut(i))
        } else {
            None
        }
    }

    /// Puts `value` under `key`, and hands back what was there.
    pub fn insert(&mut self, key: K, value: V) -> (previous: Option<V>)
        ensures
            final(self)@ == old(self)@.insert(key@, value@),
            match previous {
                Some(v) => old(self)@.contains_key(key@) && v@ == old(self)@[key@] && final(self).pairs().len() == old(self).pairs().len(),
                None => !old(self)@.contains_key(key@) && final(self).pairs().len() == old(self).pairs().len() + 1,
            },
            forall|j: int|
                0 <= j < final(self).items().len() ==> (#[trigger] final(self).items()[j]).1 == value
                    || old(self).holds(final(self).items()[j].1),
    {
        let ghost before = self.pairs();
        let ghost map = self@;
        let ghost k = key@;
        let ghost v = value@;
        proof {
            use_type_invariant(&*self);
            lemma_climbing(self.keys@, self.values@);
            self.lemma_pairs();
        }
        let (i, found) = self.find(&key);
        let mut whole: OrderedMap<K, V> = OrderedMap::new();
        std::mem::swap(&mut whole, self);
        let OrderedMap { mut keys, mut values } = whole;
        if found {
            let old_value = values.remove(i);
            values.insert(i, value);
            proof {
                let after = entry_views(keys@, values@);
                assert(after =~= before.update(i as int, (k, v)));
                assert(increasing::<K, V::V>(after));
            }
            proof {
            lemma_climbing(keys@, values@);
        }
        *self = OrderedMap { keys, values };
            proof {
                lemma_updated::<K, V::V>(before, i as int, v);
                assert(self@ =~= map.insert(k, v));
                assert forall|j: int| 0 <= j < self.items().len() implies (
                #[trigger] self.items()[j]).1 == value || old(self).holds(self.items()[j].1) by {
                    if j != i {
                        assert(old(self).items()[j].1 == self.items()[j].1);
                    }
                }
            }
            Some(old_value)
        } else {
            keys.insert(i, key);
            values.insert(i, value);
            proof {
                let after = entry_views(keys@, values@);
                assert(after =~= before.insert(i as int, (k, v)));
                assert forall|a: int, b: int| 0 <= a < b < after.len() implies K::less(
                    (#[trigger] after[a]).0,
                    (#[trigger] after[b]).0,
                ) by {
                    let a0 = if a < i { a } else { a - 1 };
                    let b0 = if b < i { b } else { b - 1 };
                    if a == i {
                        assert(before[b0] == after[b]);
                    } else if b == i {
                        assert(before[a0] == after[a]);
                    } else {
                        assert(before[a0] == after[a]);
                        assert(before[b0] == after[b]);
                        assert(K::less(before[a0].0, before[b0].0));
                    }
                }
                assert(increasing::<K, V::V>(after));
            }
            proof {
            lemma_climbing(keys@, values@);
        }
        *self = OrderedMap { keys, values };
            proof {
                let after = self.pairs();
                self.lemma_pairs();
                assert forall|x: K::V| #[trigger]
                    self@.contains_key(x) == map.insert(k, v).contains_key(x) && (
                    self@.contains_key(x) ==> self@[x] == map.insert(k, v)[x]) by {
                    if self@.contains_key(x) {
                        let j = choose|j: int| 0 <= j < after.len() && (#[trigger] after[j]).0 == x;
                        lemma_pairs_map_index::<K, V::V>(after, j);
                        if j != i {
                            let j0 = if j < i { j } else { j - 1 };
                            assert(before[j0] == after[j]);
                            lemma_pairs_map_index::<K, V::V>(before, j0);
                        }
                    } else if map.insert(k, v).contains_key(x) {
                        if x == k {
                            assert(after[i as int].0 == x);
                        } else {
                            let j0 = choose|j: int|
                                0 <= j < before.len() && (#[trigger] before[j]).0 == x;
                            let j = if j0 < i { j0 } else { j0 + 1 };
                            assert(after[j].0 == x);
                        }
                    }
                }
                assert(self@ =~= map.insert(k, v));
                assert forall|j: int| 0 <= j < self.items().len() implies (
                #[trigger] self.items()[j]).1 == value || old(self).holds(self.items()[j].1) by {
                    if j != i {
                        let j0 = if j < i { j } else { j - 1 };
                        assert(old(self).items()[j0].1 == self.items()[j].1);
                    }
                }
            }
            None
        }
    }

    /// Takes the `i`-th entry out.
    pub fn remove_at(&mut self, i: usize) -> (entry: (K, V))
        requires
            i < old(self).pairs().len(),
        ensures
            (entry.0@, entry.1@) == old(self).pairs()[i as int],
            final(self).pairs() == old(self).pairs().remove(i as int),
            final(self)@ == old(self)@.remove(old(self).pairs()[i as int].0),
    {
        let ghost before = self.pairs();
        let ghost map = self@;
        proof {
            use_type_invariant(&*self);
            lemma_climbing(self.keys@, self.values@);
            self.lemma_pairs();
        }
        let mut whole: OrderedMap<K, V> = OrderedMap::new();
        std::mem::swap(&mut whole, self);
        let OrderedMap { mut keys, mut values } = whole;
        let entry = (keys.remove(i), values.remove(i));
        proof {
            let after = entry_views(keys@, values@);
            let k = before[i as int].0;
            assert(after =~= before.remove(i as int));
            assert forall|a: int, b: int| 0 <= a < b < after.len() implies K::less(
                (#[trigger] after[a]).0,
                (#[trigger] after[b]).0,
            ) by {
                let a0 = if a < i { a } else { a + 1 };
                let b0 = if b < i { b } else { b + 1 };
                assert(before[a0] == after[a]);
                assert(before[b0] == after[b]);
                assert(K::less(before[a0].0, before[b0].0));
            }
        }
        proof {
            lemma_climbing(keys@, values@);
        }
        *self = OrderedMap { keys, values };
        proof {
            let after = self.pairs();
            let k = before[i as int].0;
            self.lemma_pairs();
            assert forall|x: K::V| #[trigger]
                self@.contains_key(x) == map.remove(k).contains_key(x) && (self@.contains_key(x)
                ==> self@[x] == map.remove(k)[x]) by {
                if self@.contains_key(x) {
                    let j = choose|j: int| 0 <= j < after.len() && (#[trigger] after[j]).0 == x;
                    let j0 = if j < i { j } else { j + 1 };
                    assert(before[j0] == after[j]);
                    lemma_pairs_map_index::<K, V::V>(after, j);
                    lemma_pairs_map_index::<K, V::V>(before, j0);
                    K::less_irreflexive(k);
                    if j0 < i {
                        assert(K::less(before[j0].0, before[i as int].0));
                    } else {
                        assert(K::less(before[i as int].0, before[j0].0));
                    }
                } else if map.remove(k).contains_key(x) {
                    let j0 = choose|j: int| 0 <= j < before.len() && (#[trigger] before[j]).0 == x;
                    let j = if j0 < i { j0 } else { j0 - 1 };
                    assert(after[j] == before[j0]);
                }
            }
            assert(self@ =~= map.remove(k));
        }
        entry
    }

    /// Takes out what is under `key`, if anything is.
    pub fn remove(&mut self, key: &K) -> (previous: Option<V>)
        ensures
            final(self)@ == old(self)@.remove(key@),
            match previous {
                Some(v) => old(self)@.contains_key(key@) && v@ == old(self)@[key@] && final(self).pairs().len() + 1 == old(self).pairs().len(),
                None => !old(self)@.contains_key(key@) && final(self)@ == old(self)@ && final(self).pairs() == old(self).pairs(),
            },
    {
        let (i, found) = self.find(key);
        if found {
            proof {
                use_type_invariant(&*self);
            lemma_climbing(self.keys@, self.values@);
                lemma_pairs_map_index::<K, V::V>(self.pairs(), i as int);
            }
            let entry = self.remove_at(i);
            Some(entry.1)
        } else {
            proof {
                assert(self@ =~= self@.remove(key@));
            }
            None
        }
    }

    /// Puts what `f` makes of the `i`-th value in its place.
    pub fn exchange_at<F: FnOnce(V) -> V>(&mut self, i: usize, f: F)
        requires
            i < old(self).pairs().len(),
            f.requires((old(self).items()[i as int].1,)),
            forall|v: V| #[trigger] f.ensures((old(self).items()[i as int].1,), v) ==> v@ == old(self).items()[i as int].1@,
        ensures
            final(self)@ == old(self)@,
            final(self).pairs() == old(self).pairs(),
            final(self).items().len() == old(self).items().len(),
            f.ensures((old(self).items()[i as int].1,), final(self).items()[i as int].1),
            forall|j: int|
                0 <= j < final(self).items().len() && j != i ==> #[trigger] final(self).items()[j]
                    == old(self).items()[j],
    {
        proof {
            use_type_invariant(&*self);
            lemma_climbing(self.keys@, self.values@);
        }
        let mut whole: OrderedMap<K, V> = OrderedMap::new();
        std::mem::swap(&mut whole, self);
        let OrderedMap { mut keys, mut values } = whole;
        let value = values.remove(i);
        let value = f(value);
        values.insert(i, value);
        assert(entry_views(keys@, values@) =~= old(self).pairs());
        proof {
            lemma_climbing(keys@, values@);
        }
        *self = OrderedMap { keys, values };
    }

    /// Keeps the entries that `f` wants kept, and drops the others.
    pub fn retain<F: Fn(&K, &V) -> bool>(
        &mut self,
        f: F,
        Ghost(keep): Ghost<spec_fn(K::V, V::V) -> bool>,
    )
        requires
            forall|k: &K, v: &V| #[trigger] f.requires((k, v)),
            forall|k: &K, v: &V, b: bool| #[trigger] f.ensures((k, v), b) ==> b == keep(k@, v@),
        ensures
            final(self)@ == kept(old(self)@, keep),
    {
        let ghost map = self@;
        let mut i: usize = 0;
        while i < self.len()
            invariant
                i <= self.pairs().len(),
                map == old(self)@,
                forall|k: &K, v: &V| #[trigger] f.requires((k, v)),
                forall|k: &K, v: &V, b: bool| #[trigger] f.ensures((k, v), b) ==> b == keep(k@, v@),
                forall|j: int|
                    0 <= j < i ==> keep((#[trigger] self.pairs()[j]).0, self.pairs()[j].1),
                forall|k: K::V| #[trigger]
                    self@.contains_key(k) ==> map.contains_key(k) && self@[k] == map[k],
                forall|k: K::V| #[trigger]
                    map.contains_key(k) && keep(k, map[k]) ==> self@.contains_key(k),
            decreases self.pairs().len() - i,
        {
            proof {
                use_type_invariant(&*self);
            lemma_climbing(self.keys@, self.values@);
                self.lemma_pairs();
            }
            let wanted = f(self.key_at(i), self.value_at(i));
            if wanted {
                i = i + 1;
            } else {
                let ghost before = self.pairs();
                self.remove_at(i);
                proof {
                    assert forall|j: int| 0 <= j < i implies keep(
                        (#[trigger] self.pairs()[j]).0,
                        self.pairs()[j].1,
                    ) by {
                        assert(self.pairs()[j] == before[j]);
                    }
                }
            }
        }
        proof {
            use_type_invariant(&*self);
            lemma_climbing(self.keys@, self.values@);
            self.lemma_pairs();
            assert forall|k: K::V| #[trigger] self@.contains_key(k) implies keep(k, map[k]) by {
                let j = choose|j: int|
                    0 <= j < self.pairs().len() && (#[trigger] self.pairs()[j]).0 == k;
            }
            assert(self@ =~= kept(map, keep));
        }
    }
}

/// The entries of a map that `keep` accepts.
pub open spec fn kept<A, B>(m: Map<A, B>, keep: spec_fn(A, B) -> bool) -> Map<A, B> {
    Map::new(|k: A| m.contains_key(k) && keep(k, m[k]), |k: A| m[k])
}

/// A map with each value replaced by what `f` makes of it.
pub open spec fn mapped<A, B, C>(m: Map<A, B>, f: spec_fn(A, B) -> C) -> Map<A, C> {
    Map::new(|k: A| m.contains_key(k), |k: A| f(k, m[k]))
}

/// A list whose values are replaced one for one lists the map whose values are.
pub proof fn lemma_mapped<K: Key, B, C>(
    s: Seq<(K::V, B)>,
    t: Seq<(K::V, C)>,
    f: spec_fn(K::V, B) -> C,
)
    requires
        increasing::<K, B>(s),
        t.len() == s.len(),
        forall|i: int| 0 <= i < s.len() ==> #[trigger] t[i] == (s[i].0, f(s[i].0, s[i].1)),
    ensures
        increasing::<K, C>(t),
        pairs_map(t) == mapped(pairs_map(s), f),
        listing::<K, C>(mapped(pairs_map(s), f)) == t,
{
    assert forall|i: int, j: int| 0 <= i < j < t.len() implies K::less(
        (#[trigger] t[i]).0,
        (#[trigger] t[j]).0,
    ) by {
        assert(K::less(s[i].0, s[j].0));
    }
    let m = mapped(pairs_map(s), f);
    assert forall|x: K::V| #[trigger]
        pairs_map(t).contains_key(x) == m.contains_key(x) && (pairs_map(t).contains_key(x)
            ==> pairs_map(t)[x] == m[x]) by {
        if pairs_map(t).contains_key(x) {
            let i = choose|i: int| 0 <= i < t.len() && (#[trigger] t[i]).0 == x;
            lemma_pairs_map_index::<K, C>(t, i);
            lemma_pairs_map_index::<K, B>(s, i);
        } else if m.contains_key(x) {
            let i = choose|i: int| 0 <= i < s.len() && (#[trigger] s[i]).0 == x;
            assert(t[i].0 == x);
        }
    }
    assert(pairs_map(t) =~= m);
    lemma_listing::<K, C>(t);
}

} // verus!
