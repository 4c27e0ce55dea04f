//! A header map: header names mapped to header values, each name held once,
//! kept in ascending order of the names.
use crate::order::{
    lemma_lt_asymmetric, lemma_lt_connected, lemma_lt_irreflexive, lemma_lt_transitive, str_lt,
    text_lt,
};
use crate::text::str_eq;
use vstd::prelude::*;
use vstd::string::*;

verus! {

/// A list of headers: pairs of a name and a value.
pub type Listing = Seq<(Seq<char>, Seq<char>)>;

/// Whether the names of `l` stand in strictly ascending order.
pub open spec fn ascending(l: Listing) -> bool {
    forall|i: int, j: int| 0 <= i < j < l.len() ==> text_lt(#[trigger] l[i].0, #[trigger] l[j].0)
}

/// The map that a list of pairs stands for; of two pairs with one name the
/// later one counts.
pub open spec fn map_of(l: Listing) -> Map<Seq<char>, Seq<char>>
    decreases l.len(),
{
    if l.len() == 0 {
        Map::empty()
    } else {
        map_of(l.drop_last()).insert(l.last().0, l.last().1)
    }
}

/// Whether `l` lists the pairs of `m`, each once, by ascending name.
pub open spec fn lists(l: Listing, m: Map<Seq<char>, Seq<char>>) -> bool {
    ascending(l) && map_of(l) == m
}

/// The pairs of `m` by ascending name.
pub open spec fn ascending_listing(m: Map<Seq<char>, Seq<char>>) -> Listing {
    choose|l: Listing| lists(l, m)
}

/// Whether some pair of `l` has the name `k`.
pub open spec fn names(l: Listing, k: Seq<char>) -> bool {
    exists|i: int| 0 <= i < l.len() && #[trigger] l[i].0 == k
}

proof fn lemma_map_of_names(l: Listing)
    ensures
        forall|k: Seq<char>| #[trigger] map_of(l).contains_key(k) <==> names(l, k),
    decreases l.len(),
{
    if l.len() > 0 {
        let p = l.drop_last();
        lemma_map_of_names(p);
        assert forall|k: Seq<char>| #[trigger] map_of(l).contains_key(k) <==> names(l, k) by {
            if map_of(l).contains_key(k) {
                if k == l.last().0 {
                    assert(l[l.len() - 1].0 == k);
                } else {
                    assert(map_of(p).contains_key(k));
                    assert(names(p, k));
                    let i = choose|i: int| 0 <= i < p.len() && #[trigger] p[i].0 == k;
                    assert(l[i].0 == k);
                }
            }
            if names(l, k) {
                let i = choose|i: int| 0 <= i < l.len() && #[trigger] l[i].0 == k;
                if i < l.len() - 1 {
                    assert(p[i].0 == k);
                    assert(names(p, k));
                    assert(map_of(p).contains_key(k));
                }
            }
        }
    }
}

proof fn lemma_front_ascends(l: Listing)
    requires
        ascending(l),
        l.len() > 0,
    ensures
        ascending(l.drop_last()),
{
    let p = l.drop_last();
    assert forall|a: int, b: int| 0 <= a < b < p.len() implies text_lt(
        #[trigger] p[a].0,
        #[trigger] p[b].0,
    ) by {
        assert(text_lt(l[a].0, l[b].0));
    }
}

proof fn lemma_ascending_distinct(l: Listing, i: int, j: int)
    requires
        ascending(l),
        0 <= i < l.len(),
        0 <= j < l.len(),
        l[i].0 == l[j].0,
    ensures
        i == j,
{
    lemma_lt_irreflexive(l[i].0);
}

proof fn lemma_map_of_value(l: Listing, i: int)
    requires
        ascending(l),
        0 <= i < l.len(),
    ensures
        map_of(l).contains_key(l[i].0),
        map_of(l)[l[i].0] == l[i].1,
    decreases l.len(),
{
    let p = l.drop_last();
    if i < l.len() - 1 {
        lemma_front_ascends(l);
        lemma_map_of_value(p, i);
        assert(p[i] == l[i]);
        if l[i].0 == l.last().0 {
            lemma_ascending_distinct(l, i, l.len() - 1);
        }
    }
}

/// Two ascending lists that stand for one map are the same list.
pub proof fn lemma_listing_unique(
    a: Listing,
    b: Listing,
    m: Map<Seq<char>, Seq<char>>,
)
    requires
        lists(a, m),
        lists(b, m),
    ensures
        a == b,
    decreases a.len(),
{
    lemma_map_of_names(a);
    lemma_map_of_names(b);
    if a.len() == 0 {
        if b.len() > 0 {
            assert(names(b, b[0].0));
            assert(map_of(b).contains_key(b[0].0));
        }
        assert(a =~= b);
    } else if b.len() == 0 {
        assert(names(a, a[0].0));
        assert(map_of(a).contains_key(a[0].0));
    } else {
        let x = a.last();
        let y = b.last();
        // The last name of each list is the greatest name of the map.
        assert(names(a, x.0)) by {
            assert(a[a.len() - 1].0 == x.0);
        }
        assert(names(b, y.0)) by {
            assert(b[b.len() - 1].0 == y.0);
        }
        assert(map_of(a).contains_key(x.0));
        assert(map_of(b).contains_key(y.0));
        assert(map_of(b).contains_key(x.0));
        assert(map_of(a).contains_key(y.0));
        assert(names(b, x.0));
        assert(names(a, y.0));
        let i = choose|i: int| 0 <= i < b.len() && #[trigger] b[i].0 == x.0;
        let j = choose|j: int| 0 <= j < a.len() && #[trigger] a[j].0 == y.0;
        if x.0 != y.0 {
            assert(i < b.len() - 1);
            assert(j < a.len() - 1);
            assert(text_lt(b[i].0, b[b.len() - 1].0));
            assert(text_lt(a[j].0, a[a.len() - 1].0));
            lemma_lt_asymmetric(x.0, y.0);
        }
        lemma_map_of_value(a, a.len() - 1);
        lemma_map_of_value(b, b.len() - 1);
        assert(x == y);
        let p = a.drop_last();
        let q = b.drop_last();
        lemma_drop_last_lists(a);
        lemma_drop_last_lists(b);
        lemma_listing_unique(p, q, m.remove(x.0));
        assert(a =~= p.push(x));
        assert(b =~= q.push(y));
    }
}

proof fn lemma_drop_last_lists(l: Listing)
    requires
        ascending(l),
        l.len() > 0,
    ensures
        lists(l.drop_last(), map_of(l).remove(l.last().0)),
{
    let p = l.drop_last();
    lemma_front_ascends(l);
    lemma_map_of_names(p);
    if names(p, l.last().0) {
        let i = choose|i: int| 0 <= i < p.len() && #[trigger] p[i].0 == l.last().0;
        assert(p[i] == l[i]);
        lemma_ascending_distinct(l, i, l.len() - 1);
    }
    assert(map_of(p) =~= map_of(l).remove(l.last().0));
}

/// A new pair put where its name belongs keeps the list ascending, and the
/// list then stands for the map with that pair added.
proof fn lemma_insert_lists(l: Listing, p: int, k: Seq<char>, v: Seq<char>)
    requires
        ascending(l),
        0 <= p <= l.len(),
        forall|i: int| 0 <= i < p ==> text_lt(#[trigger] l[i].0, k),
        forall|i: int| p <= i < l.len() ==> text_lt(k, #[trigger] l[i].0),
    ensures
        lists(l.insert(p, (k, v)), map_of(l).insert(k, v)),
{
    let n = l.insert(p, (k, v));
    assert(ascending(n)) by {
        assert forall|a: int, b: int| 0 <= a < b < n.len() implies text_lt(
            #[trigger] n[a].0,
            #[trigger] n[b].0,
        ) by {
            if b < p {
                assert(text_lt(l[a].0, l[b].0));
            } else if b == p {
                assert(text_lt(l[a].0, k));
            } else if a < p {
                assert(text_lt(l[a].0, k));
                assert(text_lt(k, l[b - 1].0));
                lemma_lt_transitive(l[a].0, k, l[b - 1].0);
            } else if a == p {
                assert(text_lt(k, l[b - 1].0));
            } else {
                assert(text_lt(l[a - 1].0, l[b - 1].0));
            }
        }
    }
    lemma_map_of_names(l);
    lemma_map_of_names(n);
    let want = map_of(l).insert(k, v);
    assert forall|x: Seq<char>| #[trigger] map_of(n).contains_key(x) <==> want.contains_key(x) by {
        if names(n, x) {
            let i = choose|i: int| 0 <= i < n.len() && #[trigger] n[i].0 == x;
            if i < p {
                assert(l[i].0 == x);
            } else if i > p {
                assert(l[i - 1].0 == x);
            }
        }
        if x == k {
            assert(n[p].0 == x);
        } else if names(l, x) {
            let i = choose|i: int| 0 <= i < l.len() && #[trigger] l[i].0 == x;
            if i < p {
                assert(n[i].0 == x);
            } else {
                assert(n[i + 1].0 == x);
            }
        }
    }
    assert forall|x: Seq<char>| #[trigger] map_of(n).contains_key(x) implies map_of(n)[x] == want[x] by {
        let i = choose|i: int| 0 <= i < n.len() && #[trigger] n[i].0 == x;
        lemma_map_of_value(n, i);
        if i < p {
            lemma_map_of_value(l, i);
            lemma_lt_irreflexive(k);
        } else if i > p {
            lemma_map_of_value(l, i - 1);
            lemma_lt_irreflexive(k);
        }
    }
    assert(map_of(n) =~= want);
}

/// A pair put in the place of one with the same name keeps the list
/// ascending, and the list then stands for the map with that value changed.
proof fn lemma_update_lists(l: Listing, p: int, k: Seq<char>, v: Seq<char>)
    requires
        ascending(l),
        0 <= p < l.len(),
        l[p].0 == k,
    ensures
        lists(l.update(p, (k, v)), map_of(l).insert(k, v)),
{
    let n = l.update(p, (k, v));
    assert(ascending(n)) by {
        assert forall|a: int, b: int| 0 <= a < b < n.len() implies text_lt(
            #[trigger] n[a].0,
            #[trigger] n[b].0,
        ) by {
            assert(text_lt(l[a].0, l[b].0));
        }
    }
    lemma_map_of_names(l);
    lemma_map_of_names(n);
    let want = map_of(l).insert(k, v);
    assert forall|x: Seq<char>| #[trigger] map_of(n).contains_key(x) <==> want.contains_key(x) by {
        if names(n, x) {
            let i = choose|i: int| 0 <= i < n.len() && #[trigger] n[i].0 == x;
            assert(l[i].0 == x);
        }
        if x == k {
            assert(n[p].0 == x);
        } else if names(l, x) {
            let i = choose|i: int| 0 <= i < l.len() && #[trigger] l[i].0 == x;
            assert(n[i].0 == x);
        }
    }
    assert forall|x: Seq<char>| #[trigger] map_of(n).contains_key(x) implies map_of(n)[x] == want[x] by {
        let i = choose|i: int| 0 <= i < n.len() && #[trigger] n[i].0 == x;
        lemma_map_of_value(n, i);
        if i != p {
            lemma_map_of_value(l, i);
            if l[i].0 == k {
                lemma_ascending_distinct(l, i, p);
            }
        }
    }
    assert(map_of(n) =~= want);
}

/// Where the name `k` belongs in an ascending list: behind the last pair
/// whose name stands before it.
spec fn place_of(l: Listing, k: Seq<char>) -> int
    decreases l.len(),
{
    if l.len() == 0 {
        0
    } else if text_lt(l.last().0, k) {
        l.len() as int
    } else {
        place_of(l.drop_last(), k)
    }
}

proof fn lemma_place_of(l: Listing, k: Seq<char>)
    requires
        ascending(l),
        !names(l, k),
    ensures
        0 <= place_of(l, k) <= l.len(),
        forall|i: int| 0 <= i < place_of(l, k) ==> text_lt(#[trigger] l[i].0, k),
        forall|i: int| place_of(l, k) <= i < l.len() ==> text_lt(k, #[trigger] l[i].0),
    decreases l.len(),
{
    if l.len() > 0 {
        let last = l.last().0;
        if text_lt(last, k) {
            assert forall|i: int| 0 <= i < l.len() implies text_lt(#[trigger] l[i].0, k) by {
                if i < l.len() - 1 {
                    assert(text_lt(l[i].0, l[l.len() - 1].0));
                    lemma_lt_transitive(l[i].0, last, k);
                }
            }
        } else {
            let p = l.drop_last();
            lemma_front_ascends(l);
            if names(p, k) {
                let i = choose|i: int| 0 <= i < p.len() && #[trigger] p[i].0 == k;
                assert(l[i].0 == k);
            }
            lemma_place_of(p, k);
            assert(l[l.len() - 1].0 != k);
            lemma_lt_connected(last, k);
            assert forall|i: int| place_of(l, k) <= i < l.len() implies text_lt(
                k,
                #[trigger] l[i].0,
            ) by {
                if i < l.len() - 1 {
                    assert(text_lt(k, p[i].0));
                }
            }
            assert forall|i: int| 0 <= i < place_of(l, k) implies text_lt(#[trigger] l[i].0, k) by {
                assert(text_lt(p[i].0, k));
            }
        }
    }
}

/// The map of a list holds finitely many names.
pub proof fn lemma_map_of_finite(l: Listing)
    ensures
        map_of(l).dom().finite(),
    decreases l.len(),
{
    if l.len() > 0 {
        lemma_map_of_finite(l.drop_last());
    }
}

/// Every map of finitely many names has an ascending listing.
pub proof fn lemma_listing_exists(m: Map<Seq<char>, Seq<char>>)
    requires
        m.dom().finite(),
    ensures
        lists(ascending_listing(m), m),
    decreases m.dom().len(),
{
    if m.dom().len() == 0 {
        m.dom().lemma_len0_is_empty();
        let l = Seq::<(Seq<char>, Seq<char>)>::empty();
        assert(map_of(l) =~= m);
        assert(lists(l, m));
    } else {
        let k = m.dom().choose();
        let rest = m.remove(k);
        lemma_listing_exists(rest);
        let l = ascending_listing(rest);
        lemma_map_of_names(l);
        assert(!rest.contains_key(k));
        assert(!names(l, k));
        lemma_place_of(l, k);
        lemma_insert_lists(l, place_of(l, k), k, m[k]);
        assert(rest.insert(k, m[k]) =~= m);
        assert(lists(l.insert(place_of(l, k), (k, m[k])), m));
    }
}

/// The listing of a map runs by strictly ascending name and holds each pair
/// of the map once, so it is the same for every order in which the pairs
/// were stored.
pub proof fn lemma_listing_ascends(m: Map<Seq<char>, Seq<char>>)
    requires
        m.dom().finite(),
    ensures
        ascending(ascending_listing(m)),
        ascending_listing(m).len() == m.dom().len(),
        forall|i: int|
            0 <= i < ascending_listing(m).len() ==> m.contains_key(
                (#[trigger] ascending_listing(m)[i]).0,
            ) && m[ascending_listing(m)[i].0] == ascending_listing(m)[i].1,
        forall|k: Seq<char>| #[trigger] m.contains_key(k) ==> names(ascending_listing(m), k),
{
    lemma_listing_exists(m);
    let l = ascending_listing(m);
    lemma_map_of_names(l);
    lemma_map_of_len(l);
    assert forall|i: int| 0 <= i < l.len() implies m.contains_key((#[trigger] l[i]).0) && m[l[i].0]
        == l[i].1 by {
        lemma_map_of_value(l, i);
    }
}

proof fn lemma_map_of_len(l: Listing)
    requires
        ascending(l),
    ensures
        map_of(l).dom().finite(),
        map_of(l).dom().len() == l.len(),
    decreases l.len(),
{
    lemma_map_of_finite(l);
    if l.len() > 0 {
        lemma_drop_last_lists(l);
        let p = l.drop_last();
        lemma_map_of_len(p);
        lemma_map_of_finite(p);
        lemma_map_of_names(p);
        if names(p, l.last().0) {
            let i = choose|i: int| 0 <= i < p.len() && #[trigger] p[i].0 == l.last().0;
            assert(p[i] == l[i]);
            lemma_ascending_distinct(l, i, l.len() - 1);
        }
        assert(!map_of(p).dom().contains(l.last().0));
        assert(map_of(l).dom() =~= map_of(p).dom().insert(l.last().0));
    }
}

/// An ascending list is the listing of the map it stands for.
pub proof fn lemma_listing_canonical(l: Listing)
    requires
        ascending(l),
    ensures
        ascending_listing(map_of(l)) == l,
{
    let m = map_of(l);
    assert(lists(l, m));
    lemma_listing_unique(ascending_listing(m), l, m);
}

/// The listing of a map with one pair is that pair.
pub proof fn lemma_listing_of_one(k: Seq<char>, v: Seq<char>)
    ensures
        ascending_listing(Map::<Seq<char>, Seq<char>>::empty().insert(k, v)) == seq![(k, v)],
{
    let l = seq![(k, v)];
    assert(l.drop_last() =~= Seq::<(Seq<char>, Seq<char>)>::empty());
    assert(map_of(l.drop_last()) =~= Map::<Seq<char>, Seq<char>>::empty());
    assert(map_of(l) == Map::<Seq<char>, Seq<char>>::empty().insert(k, v));
    lemma_listing_canonical(l);
}

/// The texts that a list of stored pairs holds.
pub open spec fn texts_of(v: Seq<(String, String)>) -> Listing {
    Seq::new(v.len(), |i: int| (v[i].0@, v[i].1@))
}

/// Puts a pair into an ascending list of pairs, in the place of the pair
/// with the same name if there is one, else where the name belongs.
fn put(entries: &mut Vec<(String, String)>, key: String, value: String)
    requires
        ascending(texts_of(old(entries)@)),
    ensures
        lists(texts_of(final(entries)@), map_of(texts_of(old(entries)@)).insert(key@, value@)),
{
    let ghost before = texts_of(entries@);
    let ghost k = key@;
    let ghost v = value@;
    let mut i: usize = 0;
    while i < entries.len() && str_lt(entries[i].0.as_str(), key.as_str())
        invariant
            i <= entries@.len(),
            texts_of(entries@) == before,
            forall|j: int| 0 <= j < i ==> text_lt(#[trigger] before[j].0, key@),
        decreases entries@.len() - i,
    {
        assert(before[i as int].0 == entries@[i as int].0@);
        i += 1;
    }
    if i < entries.len() && str_eq(entries[i].0.as_str(), key.as_str()) {
        assert(before[i as int].0 == k);
        entries[i] = (key, value);
        proof {
            lemma_update_lists(before, i as int, k, v);
            assert(texts_of(entries@) =~= before.update(i as int, (k, v)));
        }
    } else {
        proof {
            assert forall|j: int| i <= j < before.len() implies text_lt(
                k,
                #[trigger] before[j].0,
            ) by {
                assert(before[i as int].0 == entries@[i as int].0@);
                lemma_lt_connected(before[i as int].0, k);
                if j > i {
                    assert(text_lt(before[i as int].0, before[j].0));
                    lemma_lt_transitive(k, before[i as int].0, before[j].0);
                }
            }
            lemma_insert_lists(before, i as int, k, v);
        }
        entries.insert(i, (key, value));
        assert(texts_of(entries@) =~= before.insert(i as int, (k, v)));
    }
}

/// Header names mapped to header values. Each name is held once; a value
/// stored under a name that is already held takes the place of the old one.
#[derive(Debug, PartialEq, Eq)]
pub struct HeaderMap {
    entries: Vec<(String, String)>,
}

impl View for HeaderMap {
    type V = Map<Seq<char>, Seq<char>>;

    closed spec fn view(&self) -> Map<Seq<char>, Seq<char>> {
        map_of(texts_of(self.entries@))
    }
}

impl Clone for HeaderMap {
    fn clone(&self) -> (m: HeaderMap)
        ensures
            m@ == self@,
    {
        proof {
            use_type_invariant(self);
        }
        let mut entries: Vec<(String, String)> = Vec::new();
        let mut i: usize = 0;
        while i < self.entries.len()
            invariant
                i <= self.entries@.len(),
                entries@.len() == i,
                texts_of(entries@) == texts_of(self.entries@).take(i as int),
            decreases self.entries@.len() - i,
        {
            let ghost copied = entries@;
            let key = self.entries[i].0.clone();
            let value = self.entries[i].1.clone();
            entries.push((key, value));
            proof {
                assert forall|j: int| 0 <= j < i + 1 implies texts_of(entries@)[j] == texts_of(
                    self.entries@,
                )[j] by {
                    if j < i {
                        assert(texts_of(copied)[j] == texts_of(self.entries@).take(i as int)[j]);
                    }
                }
                assert(texts_of(entries@) =~= texts_of(self.entries@).take(i + 1));
            }
            i += 1;
        }
        assert(texts_of(entries@) =~= texts_of(self.entries@));
        HeaderMap { entries }
    }
}

impl HeaderMap {
    #[verifier::type_invariant]
    closed spec fn ordered(&self) -> bool {
        ascending(texts_of(self.entries@))
    }

    /// A map without headers.
    pub fn new() -> (m: HeaderMap)
        ensures
            m@ == Map::<Seq<char>, Seq<char>>::empty(),
    {
        HeaderMap { entries: Vec::new() }
    }

    /// Stores `value` under `key`, in the place of what was stored there.
    pub fn insert(&mut self, key: String, value: String)
        ensures
            final(self)@ == old(self)@.insert(key@, value@),
    {
        proof {
            use_type_invariant(&*self);
        }
        let mut entries: Vec<(String, String)> = Vec::new();
        core::mem::swap(&mut self.entries, &mut entries);
        put(&mut entries, key, value);
        self.entries = entries;
    }

    /// The value stored under `key`, if there is one.
    pub fn get(&self, key: &str) -> (r: Option<&String>)
        ensures
            r is Some <==> self@.contains_key(key@),
            r is Some ==> r.unwrap()@ == self@[key@],
    {
        proof {
            use_type_invariant(self);
            lemma_map_of_names(texts_of(self.entries@));
        }
        let mut i: usize = 0;
        while i < self.entries.len()
            invariant
                i <= self.entries@.len(),
                ascending(texts_of(self.entries@)),
                forall|j: int| 0 <= j < i ==> (#[trigger] texts_of(self.entries@)[j]).0 != key@,
            decreases self.entries@.len() - i,
        {
            if str_eq(self.entries[i].0.as_str(), key) {
                proof {
                    assert(texts_of(self.entries@)[i as int].0 == key@);
                    lemma_map_of_value(texts_of(self.entries@), i as int);
                }
                return Some(&self.entries[i].1);
            }
            i += 1;
        }
        None
    }

    /// The number of headers.
    pub fn len(&self) -> (n: usize)
        ensures
            self@.dom().finite(),
            n == self@.dom().len(),
            n == ascending_listing(self@).len(),
    {
        proof {
            use_type_invariant(self);
            lemma_listing_canonical(texts_of(self.entries@));
            lemma_map_of_len(texts_of(self.entries@));
        }
        self.entries.len()
    }

    /// The name and the value of the header that stands at place `i` when
    /// the headers are listed by ascending name.
    pub fn entry(&self, i: usize) -> (e: (&String, &String))
        requires
            i < ascending_listing(self@).len(),
        ensures
            (e.0@, e.1@) == ascending_listing(self@)[i as int],
    {
        proof {
            use_type_invariant(self);
            lemma_listing_canonical(texts_of(self.entries@));
        }
        (&self.entries[i].0, &self.entries[i].1)
    }
}

} // verus!
