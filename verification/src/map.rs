//! Maps and sets whose keys are byte strings of a fixed length.

use crate::primitives::FixedBytes;
use vstd::prelude::*;

verus! {

/// `k` is the first position at which `a` and `b` differ.
pub open spec fn first_difference(a: Seq<u8>, b: Seq<u8>, k: int) -> bool {
    &&& 0 <= k < a.len()
    &&& k < b.len()
    &&& a[k] != b[k]
    &&& forall|j: int| 0 <= j < k ==> a[j] == b[j]
}

/// The lexicographic order of byte strings of one length.
pub open spec fn lex_less(a: Seq<u8>, b: Seq<u8>) -> bool {
    exists|k: int| #[trigger] first_difference(a, b, k) && a[k] < b[k]
}

/// The map that inserting the entries of `s` one after the other builds: of two entries with one
/// key, the later one counts.
pub open spec fn entries_map<const N: usize, V>(s: Seq<(FixedBytes<N>, V)>) -> Map<Seq<u8>, V>
    decreases s.len(),
{
    if s.len() == 0 {
        Map::empty()
    } else {
        entries_map(s.drop_last()).insert(s.last().0@, s.last().1)
    }
}

/// The keys of `s` strictly ascend.
pub open spec fn ascending<const N: usize, V>(s: Seq<(FixedBytes<N>, V)>) -> bool {
    forall|i: int, j: int| 0 <= i < j < s.len() ==> lex_less(#[trigger] s[i].0@, #[trigger] s[j].0@)
}

/// No key occurs twice in `s`.
pub open spec fn distinct_keys<const N: usize, V>(s: Seq<(FixedBytes<N>, V)>) -> bool {
    forall|i: int, j: int| 0 <= i < j < s.len() ==> (#[trigger] s[i].0@) != (#[trigger] s[j].0@)
}

proof fn lemma_lex_irreflexive(a: Seq<u8>)
    ensures
        !lex_less(a, a),
{
}

proof fn lemma_lex_transitive(a: Seq<u8>, b: Seq<u8>, c: Seq<u8>)
    requires
        a.len() == b.len() == c.len(),
        lex_less(a, b),
        lex_less(b, c),
    ensures
        lex_less(a, c),
{
    let i = choose|k: int| #[trigger] first_difference(a, b, k) && a[k] < b[k];
    let j = choose|k: int| #[trigger] first_difference(b, c, k) && b[k] < c[k];
    if i <= j {
        assert(first_difference(a, c, i) && a[i] < c[i]);
    } else {
        assert(first_difference(a, c, j) && a[j] < c[j]);
    }
}

proof fn lemma_ascending_distinct<const N: usize, V>(s: Seq<(FixedBytes<N>, V)>)
    requires
        ascending(s),
    ensures
        distinct_keys(s),
{
    assert forall|i: int, j: int| 0 <= i < j < s.len() implies (#[trigger] s[i].0@) != (
    #[trigger] s[j].0@) by {
        lemma_lex_irreflexive(s[i].0@);
    }
}

/// A key is in the map of `s` exactly if an entry holds it.
pub proof fn lemma_entries_map_dom<const N: usize, V>(s: Seq<(FixedBytes<N>, V)>, k: Seq<u8>)
    ensures
        entries_map(s).contains_key(k) <==> exists|i: int| 0 <= i < s.len() && #[trigger] s[i].0@ == k,
    decreases s.len(),
{
    if s.len() > 0 {
        lemma_entries_map_dom(s.drop_last(), k);
        if exists|i: int| 0 <= i < s.len() && #[trigger] s[i].0@ == k {
            let i = choose|i: int| 0 <= i < s.len() && #[trigger] s[i].0@ == k;
            if i < s.len() - 1 {
                assert(s.drop_last()[i].0@ == k);
            }
        }
        if entries_map(s).contains_key(k) && s.last().0@ != k {
            let i = choose|i: int|
                0 <= i < s.drop_last().len() && #[trigger] s.drop_last()[i].0@ == k;
            assert(s[i].0@ == k);
        }
    }
}

/// The map of `s` holds, for a key, the value of the last entry with that key.
pub proof fn lemma_entries_map_last<const N: usize, V>(s: Seq<(FixedBytes<N>, V)>, i: int)
    requires
        0 <= i < s.len(),
        forall|j: int| i < j < s.len() ==> (#[trigger] s[j].0@) != s[i].0@,
    ensures
        entries_map(s).contains_key(s[i].0@),
        entries_map(s)[s[i].0@] == s[i].1,
    decreases s.len(),
{
    if i < s.len() - 1 {
        assert forall|j: int| i < j < s.drop_last().len() implies (#[trigger] s.drop_last()[j].0@)
            != s.drop_last()[i].0@ by {
            assert(s[j].0@ != s[i].0@);
        }
        lemma_entries_map_last(s.drop_last(), i);
        assert(s[s.len() - 1].0@ != s[i].0@);
    }
}

/// The map of ascending entries holds these entries and nothing else.
pub proof fn lemma_ascending_entries<const N: usize, V>(s: Seq<(FixedBytes<N>, V)>)
    requires
        ascending(s),
    ensures
        forall|i: int|
            0 <= i < s.len() ==> entries_map(s).contains_key((#[trigger] s[i]).0@)
                && entries_map(s)[s[i].0@] == s[i].1,
        forall|k: Seq<u8>| #[trigger]
            entries_map(s).contains_key(k) ==> exists|i: int|
                0 <= i < s.len() && #[trigger] s[i].0@ == k,
{
    lemma_ascending_distinct(s);
    assert forall|i: int| 0 <= i < s.len() implies entries_map(s).contains_key((#[trigger] s[i]).0@)
        && entries_map(s)[s[i].0@] == s[i].1 by {
        lemma_entries_map_last(s, i);
    }
    assert forall|k: Seq<u8>| #[trigger] entries_map(s).contains_key(k) implies exists|i: int|
        0 <= i < s.len() && #[trigger] s[i].0@ == k by {
        lemma_entries_map_dom(s, k);
    }
}

/// A map of one entry more, put anywhere, when its key is new.
proof fn lemma_entries_map_insert<const N: usize, V>(
    s: Seq<(FixedBytes<N>, V)>,
    p: int,
    e: (FixedBytes<N>, V),
)
    requires
        0 <= p <= s.len(),
        distinct_keys(s),
        distinct_keys(s.insert(p, e)),
    ensures
        entries_map(s.insert(p, e)) == entries_map(s).insert(e.0@, e.1),
{
    let t = s.insert(p, e);
    assert forall|k: Seq<u8>| #[trigger]
        entries_map(t).contains_key(k) <==> entries_map(s).insert(e.0@, e.1).contains_key(k) by {
        lemma_entries_map_dom(s, k);
        lemma_entries_map_dom(t, k);
        if exists|i: int| 0 <= i < s.len() && #[trigger] s[i].0@ == k {
            let i = choose|i: int| 0 <= i < s.len() && #[trigger] s[i].0@ == k;
            let j = if i < p {
                i
            } else {
                i + 1
            };
            assert(t[j].0@ == k);
        }
        assert(t[p].0@ == e.0@);
        if exists|i: int| 0 <= i < t.len() && #[trigger] t[i].0@ == k {
            let i = choose|i: int| 0 <= i < t.len() && #[trigger] t[i].0@ == k;
            if i < p {
                assert(s[i].0@ == k);
            } else if i > p {
                assert(s[i - 1].0@ == k);
            }
        }
    }
    assert forall|k: Seq<u8>| #[trigger] entries_map(t).contains_key(k) implies entries_map(t)[k]
        == entries_map(s).insert(e.0@, e.1)[k] by {
        lemma_entries_map_dom(t, k);
        let i = choose|i: int| 0 <= i < t.len() && #[trigger] t[i].0@ == k;
        lemma_entries_map_last(t, i);
        if i < p {
            assert(s[i] == t[i]);
            lemma_entries_map_last(s, i);
            assert(t[p].0@ != t[i].0@);
        } else if i > p {
            assert(s[i - 1] == t[i]);
            lemma_entries_map_last(s, i - 1);
            assert(t[p].0@ != t[i].0@);
        }
    }
    assert(entries_map(t) =~= entries_map(s).insert(e.0@, e.1));
}

/// A map in which the entry at one place gets another value.
proof fn lemma_entries_map_update<const N: usize, V>(
    s: Seq<(FixedBytes<N>, V)>,
    p: int,
    e: (FixedBytes<N>, V),
)
    requires
        0 <= p < s.len(),
        distinct_keys(s),
        e.0@ == s[p].0@,
    ensures
        entries_map(s.update(p, e)) == entries_map(s).insert(e.0@, e.1),
{
    let t = s.update(p, e);
    assert forall|i: int| 0 <= i < s.len() implies #[trigger] t[i].0@ == s[i].0@ by {}
    assert forall|k: Seq<u8>| #[trigger]
        entries_map(t).contains_key(k) <==> entries_map(s).insert(e.0@, e.1).contains_key(k) by {
        lemma_entries_map_dom(s, k);
        lemma_entries_map_dom(t, k);
        if exists|i: int| 0 <= i < s.len() && #[trigger] s[i].0@ == k {
            let i = choose|i: int| 0 <= i < s.len() && #[trigger] s[i].0@ == k;
            assert(t[i].0@ == k);
        }
        if exists|i: int| 0 <= i < t.len() && #[trigger] t[i].0@ == k {
            let i = choose|i: int| 0 <= i < t.len() && #[trigger] t[i].0@ == k;
            assert(s[i].0@ == k);
        }
        assert(t[p].0@ == e.0@);
    }
    assert forall|k: Seq<u8>| #[trigger] entries_map(t).contains_key(k) implies entries_map(t)[k]
        == entries_map(s).insert(e.0@, e.1)[k] by {
        lemma_entries_map_dom(t, k);
        let i = choose|i: int| 0 <= i < t.len() && #[trigger] t[i].0@ == k;
        lemma_entries_map_last(t, i);
        lemma_entries_map_last(s, i);
        if i != p {
            assert(s[i].0@ != s[p].0@);
        }
    }
    assert(entries_map(t) =~= entries_map(s).insert(e.0@, e.1));
}

/// How two keys compare.
enum KeyOrder {
    Less,
    Equal,
    Greater,
}

/// Compares two keys lexicographically.
fn compare<const N: usize>(a: &FixedBytes<N>, b: &FixedBytes<N>) -> (r: KeyOrder)
    ensures
        r is Less <==> lex_less(a@, b@),
        r is Equal <==> a@ == b@,
        r is Greater <==> lex_less(b@, a@),
{
    let mut i: usize = 0;
    while i < N
        invariant
            i <= N,
            forall|j: int| 0 <= j < i ==> a@[j] == b@[j],
        decreases N - i,
    {
        if a.bytes[i] != b.bytes[i] {
            proof {
                let k = i as int;
                assert(first_difference(a@, b@, k) && first_difference(b@, a@, k));
                assert forall|j: int| #[trigger] first_difference(a@, b@, j) implies j == k by {}
                assert forall|j: int| #[trigger] first_difference(b@, a@, j) implies j == k by {}
            }
            return if a.bytes[i] < b.bytes[i] {
                KeyOrder::Less
            } else {
                KeyOrder::Greater
            };
        }
        i += 1;
    }
    assert(a@ =~= b@);
    KeyOrder::Equal
}

/// A map keyed by byte strings of length `N`, held in ascending order of its keys.
#[derive(Debug)]
pub struct OrderedMap<const N: usize, V> {
    entries: Vec<(FixedBytes<N>, V)>,
}

impl<const N: usize, V> View for OrderedMap<N, V> {
    type V = Map<Seq<u8>, V>;

    closed spec fn view(&self) -> Map<Seq<u8>, V> {
        entries_map(self.entries@)
    }
}

impl<const N: usize, V: Clone> Clone for OrderedMap<N, V> {
    fn clone(&self) -> (r: Self)
        ensures
            r@.dom() == self@.dom(),
            forall|k: Seq<u8>| #[trigger] self@.contains_key(k) ==> cloned(self@[k], r@[k]),
    {
        proof {
            use_type_invariant(self);
        }
        let mut entries: Vec<(FixedBytes<N>, V)> = Vec::new();
        let mut i: usize = 0;
        while i < self.entries.len()
            invariant
                i <= self.entries.len(),
                entries.len() == i,
                forall|j: int|
                    0 <= j < i ==> (#[trigger] entries@[j]).0 == self.entries@[j].0 && cloned(
                        self.entries@[j].1,
                        entries@[j].1,
                    ),
            decreases self.entries.len() - i,
        {
            entries.push((self.entries[i].0, self.entries[i].1.clone()));
            i += 1;
        }
        proof {
            lemma_ascending_entries(self.entries@);
            assert forall|j: int, k: int| 0 <= j < k < entries@.len() implies lex_less(
                #[trigger] entries@[j].0@,
                #[trigger] entries@[k].0@,
            ) by {
                assert(entries@[j].0 == self.entries@[j].0);
                assert(entries@[k].0 == self.entries@[k].0);
            }
            lemma_ascending_entries(entries@);
            assert forall|k: Seq<u8>| #[trigger] self@.contains_key(k) implies entries_map(
                entries@,
            ).contains_key(k) && cloned(self@[k], entries_map(entries@)[k]) by {
                let j = choose|j: int| 0 <= j < self.entries@.len() && #[trigger] self.entries@[j].0@
                    == k;
                assert(self.entries@[j].0@ == k);
                assert(entries@[j].0@ == k);
            }
            assert forall|k: Seq<u8>| #[trigger]
                entries_map(entries@).contains_key(k) implies self@.contains_key(k) by {
                let j = choose|j: int| 0 <= j < entries@.len() && #[trigger] entries@[j].0@ == k;
                assert(entries@[j].0@ == k);
                assert(self.entries@[j].0@ == k);
            }
            assert(entries_map(entries@).dom() =~= self@.dom());
        }
        OrderedMap { entries }
    }
}

impl<const N: usize, V> OrderedMap<N, V> {
    #[verifier::type_invariant]
    spec fn well_formed(self) -> bool {
        ascending(self.entries@)
    }

    /// The entries in ascending order of their keys.
    pub closed spec fn entries_spec(&self) -> Seq<(FixedBytes<N>, V)> {
        self.entries@
    }

    /// An empty map.
    pub fn new() -> (r: Self)
        ensures
            r@ == Map::<Seq<u8>, V>::empty(),
    {
        OrderedMap { entries: Vec::new() }
    }

    /// The position of `key`, and whether the entry there holds it; where none does, the position
    /// at which it belongs.
    fn search(entries: &Vec<(FixedBytes<N>, V)>, key: &FixedBytes<N>) -> (r: (usize, bool))
        requires
            ascending(entries@),
        ensures
            r.0 <= entries.len(),
            forall|i: int| 0 <= i < r.0 ==> lex_less(#[trigger] entries@[i].0@, key@),
            r.1 ==> r.0 < entries.len() && entries@[r.0 as int].0@ == key@,
            !r.1 ==> forall|i: int|
                r.0 <= i < entries.len() ==> lex_less(key@, #[trigger] entries@[i].0@),
    {
        let mut low: usize = 0;
        let mut high: usize = entries.len();
        while low < high
            invariant
                low <= high <= entries.len(),
                ascending(entries@),
                forall|i: int| 0 <= i < low ==> lex_less(#[trigger] entries@[i].0@, key@),
                forall|i: int|
                    high <= i < entries.len() ==> lex_less(key@, #[trigger] entries@[i].0@),
            decreases high - low,
        {
            let mid: usize = low + (high - low) / 2;
            match compare(&entries[mid].0, key) {
                KeyOrder::Equal => {
                    return (mid, true);
                },
                KeyOrder::Less => {
                    proof {
                        assert forall|i: int| 0 <= i < mid + 1 implies lex_less(
                            #[trigger] entries@[i].0@,
                            key@,
                        ) by {
                            if i < mid {
                                assert(lex_less(entries@[i].0@, entries@[mid as int].0@));
                                lemma_lex_transitive(
                                    entries@[i].0@,
                                    entries@[mid as int].0@,
                                    key@,
                                );
                            }
                        }
                    }
                    low = mid + 1;
                },
                KeyOrder::Greater => {
                    proof {
                        assert forall|i: int| mid <= i < entries.len() implies lex_less(
                            key@,
                            #[trigger] entries@[i].0@,
                        ) by {
                            if i > mid {
                                assert(lex_less(entries@[mid as int].0@, entries@[i].0@));
                                lemma_lex_transitive(
                                    key@,
                                    entries@[mid as int].0@,
                                    entries@[i].0@,
                                );
                            }
                        }
                    }
                    high = mid;
                },
            }
        }
        (low, false)
    }

    /// Sets the value of `key`.
    pub fn insert(&mut self, key: FixedBytes<N>, value: V)
        ensures
            final(self)@ == old(self)@.insert(key@, value),
    {
        proof {
            use_type_invariant(&*self);
        }
        let mut entries: Vec<(FixedBytes<N>, V)> = Vec::new();
        std::mem::swap(&mut entries, &mut self.entries);
        let ghost before = entries@;
        let (at, found) = Self::search(&entries, &key);
        proof {
            lemma_ascending_distinct(before);
        }
        if found {
            entries.set(at, (key, value));
            proof {
                assert(entries@ == before.update(at as int, (key, value)));
                lemma_entries_map_update(before, at as int, (key, value));
                assert(ascending(entries@)) by {
                    assert forall|i: int, j: int| 0 <= i < j < entries@.len() implies lex_less(
                        #[trigger] entries@[i].0@,
                        #[trigger] entries@[j].0@,
                    ) by {
                        assert(entries@[i].0@ == before[i].0@);
                        assert(entries@[j].0@ == before[j].0@);
                    }
                }
            }
        } else {
            entries.insert(at, (key, value));
            proof {
                assert(entries@ == before.insert(at as int, (key, value)));
                assert(ascending(entries@)) by {
                    assert forall|i: int, j: int| 0 <= i < j < entries@.len() implies lex_less(
                        #[trigger] entries@[i].0@,
                        #[trigger] entries@[j].0@,
                    ) by {
                        let a = at as int;
                        if i < a {
                            assert(entries@[i] == before[i]);
                        } else if i > a {
                            assert(entries@[i] == before[i - 1]);
                        }
                        if j < a {
                            assert(entries@[j] == before[j]);
                        } else if j > a {
                            assert(entries@[j] == before[j - 1]);
                        }
                    }
                }
                lemma_ascending_distinct(entries@);
                lemma_entries_map_insert(before, at as int, (key, value));
            }
        }
        self.entries = entries;
    }

    /// The value of `key`.
    pub fn get(&self, key: &FixedBytes<N>) -> (r: Option<&V>)
        ensures
            r == (if self@.contains_key(key@) {
                Some(&self@[key@])
            } else {
                None
            }),
    {
        proof {
            use_type_invariant(self);
            lemma_ascending_distinct(self.entries@);
            lemma_entries_map_dom(self.entries@, key@);
        }
        let (at, found) = Self::search(&self.entries, key);
        if found {
            proof {
                lemma_entries_map_last(self.entries@, at as int);
            }
            Some(&self.entries[at].1)
        } else {
            proof {
                assert forall|i: int| 0 <= i < self.entries@.len() implies (#[trigger]
                self.entries@[i].0@) != key@ by {
                    lemma_lex_irreflexive(key@);
                }
            }
            None
        }
    }

    /// Whether `key` has a value.
    pub fn contains_key(&self, key: &FixedBytes<N>) -> (r: bool)
        ensures
            r == self@.contains_key(key@),
    {
        match self.get(key) {
            Some(_) => true,
            None => false,
        }
    }

    /// The number of keys.
    pub fn len(&self) -> (r: usize)
        ensures
            self@.dom().finite(),
            r == self@.dom().len(),
            r == self.entries_spec().len(),
    {
        proof {
            use_type_invariant(self);
            lemma_ascending_distinct(self.entries@);
            let keys = self.entries@.map_values(|e: (FixedBytes<N>, V)| e.0@);
            assert(keys.no_duplicates()) by {
                assert forall|i: int, j: int|
                    0 <= i < keys.len() && 0 <= j < keys.len() && i != j implies keys[i]
                    != keys[j] by {
                    assert(keys[i] == self.entries@[i].0@);
                    assert(keys[j] == self.entries@[j].0@);
                }
            }
            keys.unique_seq_to_set();
            assert(self@.dom() =~= keys.to_set()) by {
                assert forall|k: Seq<u8>| self@.dom().contains(k) <==> keys.to_set().contains(
                    k,
                ) by {
                    lemma_entries_map_dom(self.entries@, k);
                    if self@.dom().contains(k) {
                        let i = choose|i: int|
                            0 <= i < self.entries@.len() && #[trigger] self.entries@[i].0@ == k;
                        assert(keys[i] == k);
                    }
                    if keys.to_set().contains(k) {
                        let i = choose|i: int| 0 <= i < keys.len() && keys[i] == k;
                        assert(self.entries@[i].0@ == k);
                    }
                }
            }
        }
        self.entries.len()
    }

    /// Whether there is no key.
    pub fn is_empty(&self) -> (r: bool)
        ensures
            r == (self@ == Map::<Seq<u8>, V>::empty()),
    {
        let n: usize = self.len();
        proof {
            if n == 0 {
                assert(self.entries@ =~= Seq::empty());
            } else {
                assert(Map::<Seq<u8>, V>::empty().dom() =~= Set::empty());
            }
        }
        n == 0
    }

    /// The entries, in ascending order of their keys.
    pub fn as_slice(&self) -> (r: &[(FixedBytes<N>, V)])
        ensures
            r@ == self.entries_spec(),
            ascending(r@),
            entries_map(r@) == self@,
    {
        proof {
            use_type_invariant(self);
        }
        self.entries.as_slice()
    }

    /// Takes the map apart into its entries, in ascending order of their keys.
    pub fn into_entries(self) -> (r: Vec<(FixedBytes<N>, V)>)
        ensures
            r@ == self.entries_spec(),
            ascending(r@),
            entries_map(r@) == self@,
    {
        proof {
            use_type_invariant(&self);
        }
        self.entries
    }
}

/// The value that `key` has in the map of `s`.
pub open spec fn entry_of<const N: usize, V>(s: Seq<(FixedBytes<N>, V)>, key: Seq<u8>) -> Option<V> {
    if entries_map(s).contains_key(key) {
        Some(entries_map(s)[key])
    } else {
        None
    }
}

/// `positions` tells for each key of `s` where the entry stands that counts.
pub open spec fn is_index<const N: usize, V>(
    s: Seq<(FixedBytes<N>, V)>,
    positions: Map<Seq<u8>, usize>,
) -> bool {
    &&& forall|k: Seq<u8>| #[trigger]
        positions.contains_key(k) <==> entries_map(s).contains_key(k)
    &&& forall|k: Seq<u8>| #[trigger]
        positions.contains_key(k) ==> positions[k] < s.len() && s[positions[k] as int].1
            == entries_map(s)[k]
}

/// Finds out where the entry of each key stands.
pub fn index_entries<const N: usize, V>(entries: &Vec<(FixedBytes<N>, V)>) -> (r: OrderedMap<
    N,
    usize,
>)
    ensures
        is_index(entries@, r@),
{
    let mut positions: OrderedMap<N, usize> = OrderedMap::new();
    let mut i: usize = 0;
    while i < entries.len()
        invariant
            i <= entries.len(),
            is_index(entries@.take(i as int), positions@),
        decreases entries.len() - i,
    {
        let ghost before = positions@;
        positions.insert(entries[i].0, i);
        proof {
            let t = entries@.take(i + 1);
            assert(t.drop_last() =~= entries@.take(i as int));
            assert(t.last() == entries@[i as int]);
            assert forall|k: Seq<u8>| #[trigger] positions@.contains_key(k) implies positions@[k]
                < t.len() && t[positions@[k] as int].1 == entries_map(t)[k] by {
                if k != entries@[i as int].0@ {
                    assert(before.contains_key(k));
                    assert(t[before[k] as int] == t.drop_last()[before[k] as int]);
                }
            }
        }
        i += 1;
    }
    proof {
        assert(entries@.take(i as int) =~= entries@);
    }
    positions
}

/// The value of `key`, found through the index of the entries.
pub fn find_entry<'a, const N: usize, V>(
    entries: &'a Vec<(FixedBytes<N>, V)>,
    positions: &OrderedMap<N, usize>,
    key: &FixedBytes<N>,
) -> (r: Option<&'a V>)
    requires
        is_index(entries@, positions@),
    ensures
        match r {
            Some(v) => entry_of(entries@, key@) == Some(*v),
            None => entry_of(entries@, key@) is None,
        },
{
    match positions.get(key) {
        Some(at) => Some(&entries[*at].1),
        None => None,
    }
}

/// A key has a value exactly if an entry holds it, and it is the value of the last such entry.
pub proof fn lemma_entry_of<const N: usize, V>(s: Seq<(FixedBytes<N>, V)>, key: Seq<u8>)
    ensures
        entry_of(s, key) is None <==> forall|i: int|
            0 <= i < s.len() ==> (#[trigger] s[i]).0@ != key,
        forall|i: int|
            0 <= i < s.len() && (#[trigger] s[i]).0@ == key && (forall|j: int|
                i < j < s.len() ==> (#[trigger] s[j]).0@ != key) ==> entry_of(s, key) == Some(s[i].1),
{
    lemma_entries_map_dom(s, key);
    if entry_of(s, key) is None {
        assert forall|i: int| 0 <= i < s.len() implies (#[trigger] s[i]).0@ != key by {
            if s[i].0@ == key {
                assert(s[i].0@ == key);
            }
        }
    }
    assert forall|i: int|
        0 <= i < s.len() && (#[trigger] s[i]).0@ == key && (forall|j: int|
            i < j < s.len() ==> (#[trigger] s[j]).0@ != key) implies entry_of(s, key) == Some(
        s[i].1,
    ) by {
        assert forall|j: int| i < j < s.len() implies (#[trigger] s[j].0@) != s[i].0@ by {
            assert(s[j].0@ != key);
        }
        lemma_entries_map_last(s, i);
    }
}

/// The entries of a map come in the order of their keys: at the first byte at which the keys of two
/// entries differ, the earlier entry has the smaller byte. Gives the position of that byte.
pub proof fn lemma_entries_in_order<const N: usize, V>(
    map: OrderedMap<N, V>,
    slice: &[(FixedBytes<N>, V)],
    entries: Vec<(FixedBytes<N>, V)>,
    i: int,
    j: int,
) -> (k: int)
    requires
        call_ensures(OrderedMap::<N, V>::as_slice, (&map,), slice),
        call_ensures(OrderedMap::<N, V>::into_entries, (map,), entries),
        0 <= i < j < slice@.len(),
    ensures
        0 <= k < N,
        slice@[i].0.bytes@[k] < slice@[j].0.bytes@[k],
        forall|l: int|
            0 <= l < k ==> #[trigger] slice@[i].0.bytes@[l] == slice@[j].0.bytes@[l],
        entries@ == slice@,
{
    let (a, b) = (slice@[i].0, slice@[j].0);
    assert(lex_less(a@, b@));
    choose|k: int| #[trigger] first_difference(a@, b@, k) && a@[k] < b@[k]
}

/// A map gives the value that stands with a key among its entries, and none where the key does not
/// stand there. It counts its entries, and is empty exactly if it has none.
pub proof fn lemma_map_lookup<const N: usize, V>(
    map: OrderedMap<N, V>,
    slice: &[(FixedBytes<N>, V)],
    key: FixedBytes<N>,
    value: Option<&V>,
    has: bool,
    count: usize,
    empty: bool,
)
    requires
        call_ensures(OrderedMap::<N, V>::as_slice, (&map,), slice),
        call_ensures(OrderedMap::<N, V>::get, (&map, &key), value),
        call_ensures(OrderedMap::<N, V>::contains_key, (&map, &key), has),
        call_ensures(OrderedMap::<N, V>::len, (&map,), count),
        call_ensures(OrderedMap::<N, V>::is_empty, (&map,), empty),
    ensures
        has <==> exists|i: int| 0 <= i < slice@.len() && #[trigger] slice@[i].0.bytes@ == key.bytes@,
        value is Some <==> has,
        forall|i: int|
            0 <= i < slice@.len() && #[trigger] slice@[i].0.bytes@ == key.bytes@ ==> value == Some(
                &slice@[i].1,
            ),
        count == slice@.len(),
        empty <==> slice@.len() == 0,
{
    let s = slice@;
    lemma_entries_map_dom(s, key@);
    if exists|i: int| 0 <= i < s.len() && #[trigger] s[i].0.bytes@ == key.bytes@ {
        let i = choose|i: int| 0 <= i < s.len() && #[trigger] s[i].0.bytes@ == key.bytes@;
        assert(s[i].0@ == key@);
    }
    if entries_map(s).contains_key(key@) {
        let i = choose|i: int| 0 <= i < s.len() && #[trigger] s[i].0@ == key@;
        assert(s[i].0.bytes@ == key.bytes@);
    }
    lemma_ascending_distinct(s);
    assert forall|i: int| 0 <= i < s.len() && #[trigger] s[i].0.bytes@ == key.bytes@ implies value
        == Some(&s[i].1) by {
        assert(s[i].0@ == key@);
        assert forall|j: int| i < j < s.len() implies (#[trigger] s[j].0@) != s[i].0@ by {}
        lemma_entries_map_last(s, i);
    }
    if s.len() > 0 {
        lemma_entries_map_dom(s, s[0].0@);
        assert(entries_map(s).contains_key(s[0].0@));
    }
}

} // verus!
