//! A map from extension tokens to URLs or filenames, kept as a vector of
//! pairs with distinct keys.

use vstd::prelude::*;

verus! {

/// The pairs of a vector of string pairs, as character sequences.
pub open spec fn pairs_view(entries: Seq<(String, String)>) -> Seq<(Seq<char>, Seq<char>)> {
    entries.map_values(|p: (String, String)| (p.0@, p.1@))
}

/// No key occurs twice among the pairs.
pub open spec fn keys_distinct<V>(p: Seq<(Seq<char>, V)>) -> bool {
    forall|i: int, j: int| 0 <= i < p.len() && 0 <= j < p.len() && i != j ==> p[i].0 != p[j].0
}

/// The map that a sequence of pairs with distinct keys describes.
pub open spec fn pairs_to_map(p: Seq<(Seq<char>, Seq<char>)>) -> Map<Seq<char>, Seq<char>> {
    Map::new(
        |k: Seq<char>| exists|i: int| 0 <= i < p.len() && p[i].0 == k,
        |k: Seq<char>| p[choose|i: int| 0 <= i < p.len() && p[i].0 == k].1,
    )
}

/// With distinct keys, the map holds exactly the pairs of the sequence.
pub proof fn lemma_pairs_to_map_contains(p: Seq<(Seq<char>, Seq<char>)>, k: Seq<char>, v: Seq<char>)
    requires
        keys_distinct(p),
    ensures
        pairs_to_map(p).contains_pair(k, v) <==> p.contains((k, v)),
{
    if p.contains((k, v)) {
        let i = choose|i: int| 0 <= i < p.len() && p[i] == (k, v);
        assert(0 <= i < p.len() && p[i].0 == k);
    }
    if pairs_to_map(p).contains_pair(k, v) {
        let i = choose|i: int| 0 <= i < p.len() && p[i].0 == k;
        assert(p[i] == (k, v));
    }
}

/// Maps that hold the same pairs are equal.
pub proof fn lemma_maps_equal_by_pairs(a: Map<Seq<char>, Seq<char>>, b: Map<Seq<char>, Seq<char>>)
    requires
        forall|k: Seq<char>, v: Seq<char>| a.contains_pair(k, v) <==> b.contains_pair(k, v),
    ensures
        a == b,
{
    assert forall|k: Seq<char>| #[trigger] a.contains_key(k) implies b.contains_key(k) by {
        assert(a.contains_pair(k, a[k]));
    }
    assert forall|k: Seq<char>| #[trigger] b.contains_key(k) implies a.contains_key(k) by {
        assert(b.contains_pair(k, b[k]));
    }
    assert forall|k: Seq<char>| #[trigger] a.contains_key(k) implies a[k] == b[k] by {
        assert(a.contains_pair(k, a[k]));
    }
    assert(a =~= b);
}

pub proof fn lemma_map_after_insert(
    before: Seq<(Seq<char>, Seq<char>)>,
    after: Seq<(Seq<char>, Seq<char>)>,
    k: Seq<char>,
    v: Seq<char>,
)
    requires
        keys_distinct(before),
        keys_distinct(after),
        forall|x: (Seq<char>, Seq<char>)| #[trigger] after.contains(x) <==> (x == (k, v) || (
        before.contains(x) && x.0 != k)),
    ensures
        pairs_to_map(after) == pairs_to_map(before).insert(k, v),
{
    let m = pairs_to_map(before).insert(k, v);
    assert forall|x: Seq<char>, y: Seq<char>| pairs_to_map(after).contains_pair(x, y) <==> m.contains_pair(x, y) by {
        lemma_pairs_to_map_contains(after, x, y);
        lemma_pairs_to_map_contains(before, x, y);
        assert(after.contains((x, y)) <==> ((x, y) == (k, v) || (before.contains((x, y)) && x != k)));
    }
    lemma_maps_equal_by_pairs(pairs_to_map(after), m);
}

/// Extension tokens mapped to strings, one entry per token, in the order in
/// which the tokens were first inserted.
pub struct ExtensionMap {
    entries: Vec<(String, String)>,
}

impl View for ExtensionMap {
    type V = Map<Seq<char>, Seq<char>>;

    open spec fn view(&self) -> Map<Seq<char>, Seq<char>> {
        pairs_to_map(self.pairs())
    }
}

impl ExtensionMap {
    /// The entries, in order, as character sequences.
    pub closed spec fn pairs(&self) -> Seq<(Seq<char>, Seq<char>)> {
        pairs_view(self.entries@)
    }

    /// Keys are distinct.
    pub open spec fn wf(&self) -> bool {
        keys_distinct(self.pairs())
    }

    /// An empty map.
    pub fn new() -> (r: Self)
        ensures
            r.wf(),
            r@ == Map::<Seq<char>, Seq<char>>::empty(),
            r.pairs() == Seq::<(Seq<char>, Seq<char>)>::empty(),
    {
        let r = ExtensionMap { entries: Vec::new() };
        assert(r.pairs() =~= Seq::<(Seq<char>, Seq<char>)>::empty());
        assert(r@ =~= Map::<Seq<char>, Seq<char>>::empty());
        r
    }

    /// The number of entries; zero exactly when the map is empty.
    pub fn len(&self) -> (r: usize)
        ensures
            r == self.pairs().len(),
            r == 0 <==> self@ == Map::<Seq<char>, Seq<char>>::empty(),
    {
        proof {
            let p = self.pairs();
            if p.len() > 0 {
                assert(self@.contains_key(p[0].0));
            } else {
                assert(self@ =~= Map::<Seq<char>, Seq<char>>::empty());
            }
        }
        self.entries.len()
    }

    /// The position of `key` among the entries, if it is there.
    fn find(&self, key: &String) -> (r: Option<usize>)
        ensures
            match r {
                Some(i) => i < self.pairs().len() && self.pairs()[i as int].0 == key@,
                None => forall|i: int| 0 <= i < self.pairs().len() ==> self.pairs()[i].0 != key@,
            },
    {
        let mut i: usize = 0;
        while i < self.entries.len()
            invariant
                i <= self.entries@.len(),
                forall|j: int| 0 <= j < i ==> self.pairs()[j].0 != key@,
            decreases self.entries@.len() - i,
        {
            if self.entries[i].0 == *key {
                return Some(i);
            }
            i = i + 1;
        }
        None
    }

    /// Whether `key` has an entry.
    pub fn contains_key(&self, key: &String) -> (r: bool)
        ensures
            r == self@.contains_key(key@),
    {
        let found = self.find(key);
        if let Some(i) = found {
            assert(self.pairs()[i as int].0 == key@);
        }
        found.is_some()
    }

    /// The value stored under `key`, if any.
    pub fn get(&self, key: &String) -> (r: Option<String>)
        requires
            self.wf(),
        ensures
            match r {
                Some(v) => self@.contains_key(key@) && self@[key@] == v@,
                None => !self@.contains_key(key@),
            },
    {
        match self.find(key) {
            Some(i) => {
                let v = self.entries[i].1.clone();
                proof {
                    assert(self.pairs()[i as int] == (key@, v@));
                    assert(self.pairs().contains((key@, v@)));
                    lemma_pairs_to_map_contains(self.pairs(), key@, v@);
                }
                Some(v)
            },
            None => None,
        }
    }

    /// Stores `value` under `key`; a value already there is replaced.
    pub fn insert(&mut self, key: String, value: String)
        requires
            old(self).wf(),
        ensures
            final(self).wf(),
            final(self)@ == old(self)@.insert(key@, value@),
    {
        let ghost k = key@;
        let ghost v = value@;
        let ghost before = self.pairs();
        match self.find(&key) {
            Some(i) => {
                self.entries.set(i, (key, value));
                proof {
                    let after = self.pairs();
                    assert(after =~= before.update(i as int, (k, v)));
                    assert forall|j: int| 0 <= j < after.len() implies #[trigger] after[j].0 == before[j].0 by {}
                    assert forall|x: (Seq<char>, Seq<char>)| after.contains(x) <==> (x == (k, v) || (before.contains(x) && x.0 != k)) by {
                        if after.contains(x) {
                            let j = choose|j: int| 0 <= j < after.len() && after[j] == x;
                            if j != i {
                                assert(before[j] == x);
                            }
                        }
                        if before.contains(x) && x.0 != k {
                            let j = choose|j: int| 0 <= j < before.len() && before[j] == x;
                            assert(after[j] == x);
                        }
                        if x == (k, v) {
                            assert(after[i as int] == x);
                        }
                    }
                    lemma_map_after_insert(before, after, k, v);
                }
            },
            None => {
                self.entries.push((key, value));
                proof {
                    let after = self.pairs();
                    assert(after =~= before.push((k, v)));
                    assert forall|x: (Seq<char>, Seq<char>)| after.contains(x) <==> (x == (k, v) || (before.contains(x) && x.0 != k)) by {
                        if after.contains(x) {
                            let j = choose|j: int| 0 <= j < after.len() && after[j] == x;
                            if j < before.len() {
                                assert(before[j] == x);
                            }
                        }
                        if before.contains(x) {
                            let j = choose|j: int| 0 <= j < before.len() && before[j] == x;
                            assert(after[j] == x);
                        }
                        if x == (k, v) {
                            assert(after[before.len() as int] == x);
                        }
                    }
                    lemma_map_after_insert(before, after, k, v);
                }
            },
        }
    }

    /// The entries in order, as (key, value) pairs.
    pub fn entries(&self) -> (r: &Vec<(String, String)>)
        ensures
            pairs_view(r@) == self.pairs(),
    {
        &self.entries
    }
}

} // verus!
