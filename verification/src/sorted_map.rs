//! A map keyed by strings that keeps its keys in byte-wise order, so that it
//! can be walked in a fixed order: the order of the keys alone.

use crate::text::{lemma_lex_irreflexive, lemma_lex_total, lemma_lex_transitive, lex_less, rank, Rank};
use vstd::prelude::*;
use vstd::utf8::*;

verus! {

/// Whether each key precedes all later ones byte-wise. No key then occurs twice.
pub open spec fn strictly_sorted(keys: Seq<Seq<char>>) -> bool {
    forall|i: int, j: int|
        0 <= i < j < keys.len() ==> lex_less(
            encode_utf8(#[trigger] keys[i]),
            encode_utf8(#[trigger] keys[j]),
        )
}

/// The members of a finite set of keys, in increasing order.
pub open spec fn sorted_listing(keys: Set<Seq<char>>) -> Seq<Seq<char>> {
    choose|listing: Seq<Seq<char>>| strictly_sorted(listing) && listing.to_set() == keys
}

/// Two different keys have different encodings.
pub proof fn lemma_encoding_injective(a: Seq<char>, b: Seq<char>)
    requires
        encode_utf8(a) == encode_utf8(b),
    ensures
        a == b,
{
    encode_utf8_decode_utf8(a);
    encode_utf8_decode_utf8(b);
}

/// In a strictly sorted sequence no key occurs twice.
pub proof fn lemma_sorted_distinct(keys: Seq<Seq<char>>)
    requires
        strictly_sorted(keys),
    ensures
        keys.no_duplicates(),
{
    assert forall|i: int, j: int| 0 <= i < keys.len() && 0 <= j < keys.len() && i != j implies keys[i]
        != keys[j] by {
        lemma_lex_irreflexive(encode_utf8(keys[i]));
        if i < j {
            assert(lex_less(encode_utf8(keys[i]), encode_utf8(keys[j])));
        } else {
            assert(lex_less(encode_utf8(keys[j]), encode_utf8(keys[i])));
        }
    }
}

/// A set of keys has at most one strictly sorted listing.
pub proof fn lemma_sorted_unique(a: Seq<Seq<char>>, b: Seq<Seq<char>>)
    requires
        strictly_sorted(a),
        strictly_sorted(b),
        a.to_set() == b.to_set(),
    ensures
        a == b,
    decreases a.len(),
{
    if a.len() == 0 {
        if b.len() > 0 {
            assert(b.to_set().contains(b[0]));
            assert(a.contains(b[0]));
        }
        assert(a =~= b);
    } else {
        assert(a.to_set().contains(a[0]));
        assert(b.contains(a[0]));
        let j = choose|j: int| 0 <= j < b.len() && b[j] == a[0];
        assert(b.to_set().contains(b[0]));
        assert(a.contains(b[0]));
        let i = choose|i: int| 0 <= i < a.len() && a[i] == b[0];
        if i > 0 && j > 0 {
            assert(lex_less(encode_utf8(a[0]), encode_utf8(a[i])));
            assert(lex_less(encode_utf8(b[0]), encode_utf8(b[j])));
            lemma_lex_total(encode_utf8(a[0]), encode_utf8(b[0]));
        }
        assert(a[0] == b[0]);
        lemma_sorted_distinct(a);
        lemma_sorted_distinct(b);
        let ta = a.drop_first();
        let tb = b.drop_first();
        assert(strictly_sorted(ta)) by {
            assert forall|x: int, y: int| 0 <= x < y < ta.len() implies lex_less(
                encode_utf8(#[trigger] ta[x]),
                encode_utf8(#[trigger] ta[y]),
            ) by {
                assert(ta[x] == a[x + 1] && ta[y] == a[y + 1]);
            }
        }
        assert(strictly_sorted(tb)) by {
            assert forall|x: int, y: int| 0 <= x < y < tb.len() implies lex_less(
                encode_utf8(#[trigger] tb[x]),
                encode_utf8(#[trigger] tb[y]),
            ) by {
                assert(tb[x] == b[x + 1] && tb[y] == b[y + 1]);
            }
        }
        assert(ta.to_set() =~= tb.to_set()) by {
            assert forall|k: Seq<char>| ta.to_set().contains(k) <==> tb.to_set().contains(k) by {
                if ta.contains(k) {
                    let x = choose|x: int| 0 <= x < ta.len() && ta[x] == k;
                    assert(a[x + 1] == k);
                    assert(a.to_set().contains(k));
                    assert(b.contains(k));
                    let y = choose|y: int| 0 <= y < b.len() && b[y] == k;
                    assert(y != 0);
                    assert(tb[y - 1] == k);
                }
                if tb.contains(k) {
                    let y = choose|y: int| 0 <= y < tb.len() && tb[y] == k;
                    assert(b[y + 1] == k);
                    assert(b.to_set().contains(k));
                    assert(a.contains(k));
                    let x = choose|x: int| 0 <= x < a.len() && a[x] == k;
                    assert(x != 0);
                    assert(ta[x - 1] == k);
                }
            }
        }
        lemma_sorted_unique(ta, tb);
        assert(a =~= seq![a[0]] + ta);
        assert(b =~= seq![b[0]] + tb);
    }
}

/// A strictly sorted listing with one more key, put where it belongs.
pub open spec fn with_key(listing: Seq<Seq<char>>, key: Seq<char>) -> Seq<Seq<char>>
    decreases listing.len(),
{
    if listing.len() == 0 {
        seq![key]
    } else if lex_less(encode_utf8(listing.last()), encode_utf8(key)) {
        listing.push(key)
    } else {
        with_key(listing.drop_last(), key).push(listing.last())
    }
}

/// A strictly sorted listing stays one when a new key is put where it
/// belongs, and then lists that key too.
pub proof fn lemma_with_key(listing: Seq<Seq<char>>, key: Seq<char>)
    requires
        strictly_sorted(listing),
        !listing.contains(key),
    ensures
        strictly_sorted(with_key(listing, key)),
        with_key(listing, key).to_set() == listing.to_set().insert(key),
        with_key(listing, key).len() == listing.len() + 1,
    decreases listing.len(),
{
    let longer = with_key(listing, key);
    if listing.len() == 0 {
        assert(longer.to_set() =~= listing.to_set().insert(key)) by {
            assert(longer[0] == key);
        }
    } else if lex_less(encode_utf8(listing.last()), encode_utf8(key)) {
        assert forall|i: int, j: int| 0 <= i < j < longer.len() implies lex_less(
            encode_utf8(#[trigger] longer[i]),
            encode_utf8(#[trigger] longer[j]),
        ) by {
            if j == listing.len() {
                if i < listing.len() - 1 {
                    assert(lex_less(encode_utf8(listing[i]), encode_utf8(listing.last())));
                    lemma_lex_transitive(
                        encode_utf8(listing[i]),
                        encode_utf8(listing.last()),
                        encode_utf8(key),
                    );
                }
            } else {
                assert(longer[i] == listing[i] && longer[j] == listing[j]);
            }
        }
        assert(longer.to_set() =~= listing.to_set().insert(key)) by {
            assert forall|k: Seq<char>| longer.to_set().contains(k) <==> listing.to_set().insert(
                key,
            ).contains(k) by {
                if longer.contains(k) {
                    let x = choose|x: int| 0 <= x < longer.len() && longer[x] == k;
                    if x < listing.len() {
                        assert(listing[x] == k);
                    }
                }
                if listing.contains(k) {
                    let x = choose|x: int| 0 <= x < listing.len() && listing[x] == k;
                    assert(longer[x] == k);
                }
                if k == key {
                    assert(longer[listing.len() as int] == k);
                }
            }
        }
    } else {
        let last = listing.last();
        let front = listing.drop_last();
        assert(strictly_sorted(front)) by {
            assert forall|i: int, j: int| 0 <= i < j < front.len() implies lex_less(
                encode_utf8(#[trigger] front[i]),
                encode_utf8(#[trigger] front[j]),
            ) by {
                assert(front[i] == listing[i] && front[j] == listing[j]);
            }
        }
        assert(!front.contains(key)) by {
            if front.contains(key) {
                let x = choose|x: int| 0 <= x < front.len() && front[x] == key;
                assert(listing[x] == key);
            }
        }
        lemma_with_key(front, key);
        let inner = with_key(front, key);
        assert(last != key) by {
            assert(listing[listing.len() - 1] == last);
        }
        lemma_lex_total(encode_utf8(last), encode_utf8(key));
        if encode_utf8(last) == encode_utf8(key) {
            lemma_encoding_injective(last, key);
        }
        assert(lex_less(encode_utf8(key), encode_utf8(last)));
        assert forall|i: int, j: int| 0 <= i < j < longer.len() implies lex_less(
            encode_utf8(#[trigger] longer[i]),
            encode_utf8(#[trigger] longer[j]),
        ) by {
            if j == inner.len() {
                assert(inner.to_set().contains(inner[i]));
                if inner[i] != key {
                    assert(front.to_set().contains(inner[i]));
                    let x = choose|x: int| 0 <= x < front.len() && front[x] == inner[i];
                    assert(listing[x] == inner[i]);
                    assert(lex_less(encode_utf8(listing[x]), encode_utf8(listing[listing.len() - 1])));
                }
            } else {
                assert(longer[i] == inner[i] && longer[j] == inner[j]);
            }
        }
        assert(longer.to_set() =~= listing.to_set().insert(key)) by {
            assert forall|k: Seq<char>| longer.to_set().contains(k) <==> listing.to_set().insert(
                key,
            ).contains(k) by {
                if longer.contains(k) {
                    let x = choose|x: int| 0 <= x < longer.len() && longer[x] == k;
                    if x < inner.len() {
                        assert(inner.to_set().contains(inner[x]));
                        if k != key {
                            assert(front.to_set().contains(k));
                            let y = choose|y: int| 0 <= y < front.len() && front[y] == k;
                            assert(listing[y] == k);
                        }
                    } else {
                        assert(listing[listing.len() - 1] == k);
                    }
                }
                if listing.contains(k) {
                    let x = choose|x: int| 0 <= x < listing.len() && listing[x] == k;
                    if x < front.len() {
                        assert(front[x] == k);
                        assert(front.to_set().contains(k));
                        assert(inner.to_set().contains(k));
                        let y = choose|y: int| 0 <= y < inner.len() && inner[y] == k;
                        assert(longer[y] == k);
                    } else {
                        assert(longer[inner.len() as int] == k);
                    }
                }
                if k == key {
                    assert(inner.to_set().contains(key));
                    let y = choose|y: int| 0 <= y < inner.len() && inner[y] == key;
                    assert(longer[y] == key);
                }
            }
        }
    }
}

/// Every finite set of keys has a strictly sorted listing, and
/// [`sorted_listing`] is it: it lists each key of the set once and nothing
/// else.
pub proof fn lemma_sorted_listing(keys: Set<Seq<char>>)
    requires
        keys.finite(),
    ensures
        strictly_sorted(sorted_listing(keys)),
        sorted_listing(keys).to_set() == keys,
        sorted_listing(keys).len() == keys.len(),
        sorted_listing(keys).no_duplicates(),
    decreases keys.len(),
{
    if keys.len() == 0 {
        let none = Seq::<Seq<char>>::empty();
        assert(keys =~= Set::<Seq<char>>::empty());
        assert(none.to_set() =~= keys);
        assert(strictly_sorted(none) && none.to_set() == keys);
    } else {
        let key = keys.choose();
        let fewer = keys.remove(key);
        lemma_sorted_listing(fewer);
        let listing = sorted_listing(fewer);
        assert(!listing.contains(key)) by {
            if listing.contains(key) {
                assert(listing.to_set().contains(key));
            }
        }
        lemma_with_key(listing, key);
        assert(fewer.insert(key) =~= keys);
        assert(strictly_sorted(with_key(listing, key)) && with_key(listing, key).to_set() == keys);
    }
    let found = sorted_listing(keys);
    lemma_sorted_distinct(found);
    found.unique_seq_to_set();
}

/// The keys of a sequence of entries, in the order of the entries.
pub open spec fn keys_of<V>(entries: Seq<(String, V)>) -> Seq<Seq<char>> {
    Seq::new(entries.len(), |i: int| entries[i].0@)
}

/// The map that a sequence of entries stands for: each key with the value
/// of the entry that holds it.
pub open spec fn map_of<V>(entries: Seq<(String, V)>) -> Map<Seq<char>, V> {
    Map::new(
        |k: Seq<char>| keys_of(entries).contains(k),
        |k: Seq<char>| entries[keys_of(entries).index_of(k)].1,
    )
}

/// In entries with strictly sorted keys, each entry is found under its key.
pub proof fn lemma_map_of<V>(entries: Seq<(String, V)>)
    requires
        strictly_sorted(keys_of(entries)),
    ensures
        map_of(entries).dom() == keys_of(entries).to_set(),
        forall|i: int|
            0 <= i < entries.len() ==> map_of(entries).contains_key(#[trigger] keys_of(entries)[i])
                && map_of(entries)[keys_of(entries)[i]] == entries[i].1,
{
    let keys = keys_of(entries);
    assert(map_of(entries).dom() =~= keys.to_set());
    lemma_sorted_distinct(keys);
    assert forall|i: int| 0 <= i < entries.len() implies map_of(entries).contains_key(
        #[trigger] keys[i],
    ) && map_of(entries)[keys[i]] == entries[i].1 by {
        assert(keys.contains(keys[i]));
        let at = keys.index_of(keys[i]);
        assert(keys[at] == keys[i]);
    }
}

/// Putting an entry into entries with strictly sorted keys, at the place of
/// its key: in place of the entry that holds the key, or, where there is
/// none, between the entries with lesser and those with greater keys. The
/// keys stay strictly sorted, and the map is the old one with the key bound
/// to the new value.
pub proof fn lemma_entry_put<V>(
    before: Seq<(String, V)>,
    after: Seq<(String, V)>,
    at: int,
    found: bool,
    entry: (String, V),
)
    requires
        strictly_sorted(keys_of(before)),
        0 <= at <= before.len(),
        forall|i: int|
            0 <= i < at ==> lex_less(
                encode_utf8(#[trigger] keys_of(before)[i]),
                encode_utf8(entry.0@),
            ),
        found ==> at < before.len() && keys_of(before)[at] == entry.0@,
        !found ==> forall|i: int|
            at <= i < before.len() ==> lex_less(
                encode_utf8(entry.0@),
                encode_utf8(#[trigger] keys_of(before)[i]),
            ),
        after == (if found {
            before.remove(at)
        } else {
            before
        }).insert(at, entry),
    ensures
        strictly_sorted(keys_of(after)),
        map_of(after) == map_of(before).insert(entry.0@, entry.1),
        found == map_of(before).contains_key(entry.0@),
        found ==> map_of(before)[entry.0@] == before[at].1,
{
    let key = entry.0@;
    let old_keys = keys_of(before);
    let new_keys = keys_of(after);
    let shift = if found { 0int } else { 1int };
    assert(new_keys.len() == old_keys.len() + shift);
    assert(new_keys[at] == key);
    assert forall|i: int| 0 <= i < at implies #[trigger] new_keys[i] == old_keys[i] by {}
    assert forall|i: int| at < i < new_keys.len() implies #[trigger] new_keys[i] == old_keys[i
        - shift] by {}
    lemma_lex_irreflexive(encode_utf8(key));
    assert(strictly_sorted(new_keys)) by {
        assert forall|i: int, j: int| 0 <= i < j < new_keys.len() implies lex_less(
            encode_utf8(#[trigger] new_keys[i]),
            encode_utf8(#[trigger] new_keys[j]),
        ) by {
            if i < at && j > at {
                assert(new_keys[i] == old_keys[i]);
                assert(new_keys[j] == old_keys[j - shift]);
            } else if i < at && j < at {
                assert(new_keys[i] == old_keys[i]);
                assert(new_keys[j] == old_keys[j]);
            } else if i < at {
                assert(new_keys[i] == old_keys[i]);
            } else if i == at {
                assert(new_keys[j] == old_keys[j - shift]);
                if found {
                    assert(lex_less(encode_utf8(old_keys[at]), encode_utf8(old_keys[j])));
                }
            } else {
                assert(new_keys[i] == old_keys[i - shift]);
                assert(new_keys[j] == old_keys[j - shift]);
            }
        }
    }
    lemma_map_of(before);
    lemma_map_of(after);
    lemma_sorted_distinct(new_keys);
    lemma_sorted_distinct(old_keys);
    let wanted = map_of(before).insert(key, entry.1);
    assert(found == old_keys.contains(key)) by {
        if found {
            assert(old_keys[at] == key);
        } else if old_keys.contains(key) {
            let x = choose|x: int| 0 <= x < old_keys.len() && old_keys[x] == key;
            if x < at {
                assert(lex_less(encode_utf8(old_keys[x]), encode_utf8(key)));
            } else {
                assert(lex_less(encode_utf8(key), encode_utf8(old_keys[x])));
            }
        }
    }
    assert forall|k: Seq<char>| map_of(after).dom().contains(k) <==> wanted.dom().contains(k) by {
        if new_keys.contains(k) {
            let x = choose|x: int| 0 <= x < new_keys.len() && new_keys[x] == k;
            if x < at {
                assert(old_keys[x] == k);
            } else if x > at {
                assert(old_keys[x - shift] == k);
            }
        }
        if old_keys.contains(k) && k != key {
            let x = choose|x: int| 0 <= x < old_keys.len() && old_keys[x] == k;
            if x < at {
                assert(new_keys[x] == k);
            } else {
                assert(x != at || !found);
                assert(new_keys[x + shift] == k);
            }
        }
        if k == key {
            assert(new_keys.contains(new_keys[at]));
        }
    }
    assert forall|k: Seq<char>| map_of(after).dom().contains(k) implies map_of(after)[k]
        == wanted[k] by {
        let x = choose|x: int| 0 <= x < new_keys.len() && new_keys[x] == k;
        assert(map_of(after)[new_keys[x]] == after[x].1);
        if x < at {
            assert(old_keys[x] == k);
            assert(map_of(before)[old_keys[x]] == before[x].1);
        } else if x > at {
            assert(old_keys[x - shift] == k);
            assert(map_of(before)[old_keys[x - shift]] == before[x - shift].1);
        }
    }
    assert(map_of(after) =~= wanted);
    if found {
        assert(map_of(before)[old_keys[at]] == before[at].1);
    }
}

/// A map from strings to `V` whose entries are held in the byte-wise order
/// of their keys.
#[derive(Debug)]
pub struct SortedMap<V> {
    entries: Vec<(String, V)>,
}

impl<V> View for SortedMap<V> {
    type V = Map<Seq<char>, V>;

    closed spec fn view(&self) -> Map<Seq<char>, V> {
        map_of(self.entries@)
    }
}

impl<V> SortedMap<V> {
    /// The keys in the order in which the entries are held.
    pub closed spec fn keys(&self) -> Seq<Seq<char>> {
        keys_of(self.entries@)
    }

    #[verifier::type_invariant]
    spec fn well_formed(&self) -> bool {
        strictly_sorted(self.keys())
    }

    /// What the view and the listing of a well-formed map are, entry by entry.
    proof fn lemma_model(&self)
        requires
            self.well_formed(),
        ensures
            self@.dom() == self.keys().to_set(),
            self@.dom().finite(),
            self.keys() == sorted_listing(self@.dom()),
            self.keys().len() == self@.dom().len(),
            forall|i: int| 0 <= i < self.entries@.len() ==> #[trigger] self@[self.keys()[i]] == self.entries@[i].1,
    {
        let keys = self.keys();
        assert(self@.dom() =~= keys.to_set());
        lemma_sorted_distinct(keys);
        keys.unique_seq_to_set();
        vstd::seq_lib::seq_to_set_is_finite(keys);
        let listing = sorted_listing(self@.dom());
        assert(strictly_sorted(keys) && keys.to_set() == self@.dom());
        lemma_sorted_unique(keys, listing);
        assert forall|i: int| 0 <= i < self.entries@.len() implies #[trigger] self@[keys[i]]
            == self.entries@[i].1 by {
            assert(keys.contains(keys[i]));
            let at = keys.index_of(keys[i]);
            assert(keys[at] == keys[i]);
        }
    }

    /// An empty map.
    pub fn new() -> (map: Self)
        ensures
            map@ == Map::<Seq<char>, V>::empty(),
    {
        let map = SortedMap { entries: Vec::new() };
        proof {
            assert(map.keys() =~= Seq::<Seq<char>>::empty());
            assert(map@ =~= Map::<Seq<char>, V>::empty());
        }
        map
    }

    /// The number of entries.
    pub fn len(&self) -> (n: usize)
        ensures
            self@.dom().finite(),
            n == self@.dom().len(),
            n == sorted_listing(self@.dom()).len(),
    {
        proof {
            use_type_invariant(self);
            self.lemma_model();
        }
        self.entries.len()
    }

    /// The entries in the order of their keys.
    pub fn entries(&self) -> (entries: &Vec<(String, V)>)
        ensures
            entries@.len() == self@.dom().len(),
            entries@.len() == sorted_listing(self@.dom()).len(),
            forall|i: int|
                0 <= i < entries@.len() ==> {
                    &&& (#[trigger] entries@[i]).0@ == sorted_listing(self@.dom())[i]
                    &&& self@.contains_key(entries@[i].0@)
                    &&& entries@[i].1 == self@[entries@[i].0@]
                },
    {
        proof {
            use_type_invariant(self);
            self.lemma_model();
            assert forall|i: int| 0 <= i < self.entries@.len() implies {
                &&& (#[trigger] self.entries@[i]).0@ == sorted_listing(self@.dom())[i]
                &&& self@.contains_key(self.entries@[i].0@)
                &&& self.entries@[i].1 == self@[self.entries@[i].0@]
            } by {
                assert(self.keys()[i] == self.entries@[i].0@);
                assert(self.keys().contains(self.keys()[i]));
                assert(self@[self.keys()[i]] == self.entries@[i].1);
            }
        }
        &self.entries
    }

    /// Where `key` stands, or would stand, among the entries, and whether it
    /// is there.
    fn locate(&self, key: &str) -> (at: (usize, bool))
        ensures
            at.0 <= self.entries@.len(),
            forall|i: int| 0 <= i < at.0 ==> lex_less(encode_utf8(#[trigger] self.keys()[i]), encode_utf8(key@)),
            at.1 ==> at.0 < self.entries@.len() && self.keys()[at.0 as int] == key@,
            !at.1 ==> forall|i: int| at.0 <= i < self.entries@.len() ==> lex_less(encode_utf8(key@), encode_utf8(#[trigger] self.keys()[i])),
    {
        proof {
            use_type_invariant(self);
        }
        let wanted = key.as_bytes();
        let mut i: usize = 0;
        while i < self.entries.len()
            invariant
                i <= self.entries@.len(),
                wanted@ == encode_utf8(key@),
                self.well_formed(),
                forall|k: int| 0 <= k < i ==> lex_less(encode_utf8(#[trigger] self.keys()[k]), encode_utf8(key@)),
            decreases self.entries@.len() - i,
        {
            let here = self.entries[i].0.as_str().as_bytes();
            assert(here@ == encode_utf8(self.keys()[i as int]));
            match rank(here, wanted) {
                Rank::Before => {},
                Rank::Same => {
                    proof {
                        lemma_encoding_injective(self.keys()[i as int], key@);
                    }
                    return (i, true);
                },
                Rank::After => {
                    proof {
                        assert forall|k: int| i <= k < self.entries@.len() implies lex_less(
                            encode_utf8(key@),
                            encode_utf8(#[trigger] self.keys()[k]),
                        ) by {
                            if i < k {
                                lemma_lex_transitive(
                                    encode_utf8(key@),
                                    encode_utf8(self.keys()[i as int]),
                                    encode_utf8(self.keys()[k]),
                                );
                            }
                        }
                    }
                    return (i, false);
                },
            }
            i += 1;
        }
        (i, false)
    }

    /// The value stored under `key`, if there is one.
    pub fn get(&self, key: &str) -> (value: Option<&V>)
        ensures
            self@.contains_key(key@) ==> value == Some(&self@[key@]),
            !self@.contains_key(key@) ==> value.is_none(),
    {
        let (at, found) = self.locate(key);
        proof {
            use_type_invariant(self);
            self.lemma_model();
            if !found {
                if self.keys().contains(key@) {
                    let k = choose|k: int| 0 <= k < self.keys().len() && self.keys()[k] == key@;
                    lemma_lex_irreflexive(encode_utf8(key@));
                }
            } else {
                assert(self.keys().contains(self.keys()[at as int]));
            }
        }
        if found {
            Some(&self.entries[at].1)
        } else {
            None
        }
    }

    /// Stores `value` under `key` and hands back the value that stood there.
    pub fn insert(&mut self, key: String, value: V) -> (previous: Option<V>)
        ensures
            final(self)@ == old(self)@.insert(key@, value),
            old(self)@.contains_key(key@) ==> previous == Some(old(self)@[key@]),
            !old(self)@.contains_key(key@) ==> previous.is_none(),
    {
        let (at, found) = self.locate(key.as_str());
        proof {
            use_type_invariant(&*self);
        }
        let ghost before = self.entries@;
        let mut entries: Vec<(String, V)> = Vec::new();
        std::mem::swap(&mut self.entries, &mut entries);
        assert(self.keys() =~= Seq::<Seq<char>>::empty());
        let previous = if found {
            let (_, old_value) = entries.remove(at);
            Some(old_value)
        } else {
            None
        };
        entries.insert(at, (key, value));
        proof {
            lemma_entry_put(before, entries@, at as int, found, (key, value));
        }
        self.entries = entries;
        previous
    }
}

impl<V: Clone> Clone for SortedMap<V> {
    /// A map with the same keys, each with a clone of its value.
    fn clone(&self) -> (copy: Self)
        ensures
            copy@.dom() == self@.dom(),
            forall|key: Seq<char>|
                self@.contains_key(key) ==> cloned::<V>(self@[key], #[trigger] copy@[key]),
    {
        proof {
            use_type_invariant(self);
            self.lemma_model();
        }
        let mut entries: Vec<(String, V)> = Vec::new();
        let mut i: usize = 0;
        while i < self.entries.len()
            invariant
                i <= self.entries@.len(),
                entries@.len() == i,
                forall|k: int| 0 <= k < i ==> (#[trigger] entries@[k]).0@ == self.entries@[k].0@,
                forall|k: int| 0 <= k < i ==> cloned::<V>(self.entries@[k].1, (#[trigger] entries@[k]).1),
            decreases self.entries@.len() - i,
        {
            let key = self.entries[i].0.clone();
            let value = self.entries[i].1.clone();
            entries.push((key, value));
            i += 1;
        }
        assert(keys_of(entries@) =~= self.keys());
        let copy = SortedMap { entries };
        proof {
            copy.lemma_model();
            assert forall|key: Seq<char>| self@.contains_key(key) implies cloned::<V>(
                self@[key],
                #[trigger] copy@[key],
            ) by {
                let k = choose|k: int| 0 <= k < self.keys().len() && self.keys()[k] == key;
                assert(self@[self.keys()[k]] == self.entries@[k].1);
                assert(copy@[copy.keys()[k]] == copy.entries@[k].1);
            }
        }
        copy
    }
}

} // verus!
