//! A map from names to texts, the shape every per-parse declaration
//! table has. Its entries can be read back one by one.
use indexmap::IndexMap;
use vstd::prelude::*;

use crate::ordered::{
    has_key, inserted, keys_unique, lemma_found_is_lookup, lemma_inserted_unique, lookup,
    str_entries, str_map_get, str_map_get_index, str_map_insert, str_map_len, str_map_new,
    str_map_contains_key,
};

verus! {

/// The map that entries with unique names spell.
pub open spec fn entries_view(e: Seq<(Seq<char>, Seq<char>)>) -> Map<Seq<char>, Seq<char>> {
    Map::new(|k: Seq<char>| has_key(e, k), |k: Seq<char>| lookup(e, k)->0)
}

/// The map entries spell has finitely many names.
pub proof fn lemma_entries_view_finite(e: Seq<(Seq<char>, Seq<char>)>)
    ensures
        entries_view(e).dom().finite(),
{
    let names = e.map_values(|p: (Seq<char>, Seq<char>)| p.0);
    assert(entries_view(e).dom() =~= names.to_set()) by {
        assert forall|k: Seq<char>| entries_view(e).dom().contains(k) implies names.to_set().contains(
            k,
        ) by {
            let i = choose|i: int| 0 <= i < e.len() && (#[trigger] e[i]).0 == k;
            assert(names[i] == k);
        }
        assert forall|k: Seq<char>| names.to_set().contains(k) implies entries_view(
            e,
        ).dom().contains(k) by {
            let i = choose|i: int| 0 <= i < names.len() && names[i] == k;
            assert(e[i].0 == k);
        }
    }
    vstd::seq_lib::seq_to_set_is_finite(names);
}

/// A finite map from names to texts.
pub struct TextMap {
    m: IndexMap<String, String>,
}

impl View for TextMap {
    type V = Map<Seq<char>, Seq<char>>;

    closed spec fn view(&self) -> Map<Seq<char>, Seq<char>> {
        entries_view(str_entries(self.m))
    }
}

impl TextMap {
    /// No name is set twice.
    #[verifier::type_invariant]
    closed spec fn names_unique(&self) -> bool {
        keys_unique(str_entries(self.m))
    }

    /// An empty map.
    pub fn new() -> (r: Self)
        ensures
            r@ == Map::<Seq<char>, Seq<char>>::empty(),
            r@.dom().finite(),
    {
        let r = TextMap { m: str_map_new() };
        proof {
            assert(r@ =~= Map::<Seq<char>, Seq<char>>::empty());
        }
        r
    }

    /// Set the text of `name`.
    pub fn insert(&mut self, name: String, text: String)
        ensures
            final(self)@ == old(self)@.insert(name@, text@),
            final(self)@.dom().finite(),
    {
        proof {
            use_type_invariant(&*self);
        }
        let ghost e = str_entries(self.m);
        proof {
            lemma_inserted_unique(e, name@, text@);
        }
        let ghost k = name@;
        let ghost v = text@;
        let mut m = str_map_new();
        std::mem::swap(&mut m, &mut self.m);
        str_map_insert(&mut m, name, text);
        self.m = m;
        proof {
            let e2 = str_entries(self.m);
            assert(e2 == inserted(e, k, v));
            assert forall|k2: Seq<char>| has_key(e2, k2) <==> (k2 == k || has_key(e, k2)) by {
                if k2 != k {
                    if has_key(e, k2) {
                        assert(lookup(e2, k2) == lookup(e, k2));
                    }
                    if has_key(e2, k2) {
                        assert(lookup(e2, k2) == lookup(e, k2));
                    }
                }
            }
            assert(self@ =~= entries_view(e).insert(k, v));
            lemma_entries_view_finite(e2);
        }
    }

    /// Whether `name` has a text.
    pub fn contains_key(&self, name: &str) -> (r: bool)
        ensures
            r == self@.contains_key(name@),
    {
        str_map_contains_key(&self.m, name)
    }

    /// The text of `name`, if it has one.
    pub fn get(&self, name: &str) -> (r: Option<&String>)
        ensures
            match r {
                Some(v) => self@.contains_key(name@) && v@ == self@[name@],
                None => !self@.contains_key(name@),
            },
    {
        proof {
            use_type_invariant(self);
        }
        let r = str_map_get(&self.m, name);
        match r {
            Some(v) => {
                proof {
                    lemma_found_is_lookup(str_entries(self.m), name@, v@);
                }
                Some(v)
            },
            None => None,
        }
    }

    /// Add every entry of `other`, its texts winning over this map's.
    pub fn absorb(&mut self, other: TextMap)
        ensures
            final(self)@ == old(self)@.union_prefer_right(other@),
            final(self)@.dom().finite(),
    {
        let ghost start = self@;
        let ghost oe = str_entries(other.m);
        let n = str_map_len(&other.m);
        let mut k: usize = 0;
        proof {
            use_type_invariant(&other);
            lemma_entries_view_finite(str_entries(self.m));
            assert(start.union_prefer_right(entries_view(oe.take(0))) =~= start);
        }
        while k < n
            invariant
                n == oe.len(),
                oe == str_entries(other.m),
                keys_unique(oe),
                k <= n,
                self@ == start.union_prefer_right(entries_view(oe.take(k as int))),
                self@.dom().finite(),
            decreases n - k,
        {
            let (name, text) = str_map_get_index(&other.m, k);
            let ghost before = self@;
            self.insert(name.clone(), text.clone());
            proof {
                let t = oe.take(k + 1);
                let p = oe.take(k as int);
                assert(t == p.push(oe[k as int]));
                assert forall|m: int, j: int|
                    0 <= m < t.len() && 0 <= j < t.len() && m != j implies (#[trigger] t[m]).0
                    != (#[trigger] t[j]).0 by {
                    assert(t[m] == oe[m]);
                    assert(t[j] == oe[j]);
                }
                assert(!has_key(p, oe[k as int].0)) by {
                    if has_key(p, oe[k as int].0) {
                        let m = choose|m: int| 0 <= m < p.len() && (#[trigger] p[m]).0 == oe[k as int].0;
                        assert(p[m] == oe[m]);
                    }
                }
                assert(entries_view(t) =~= entries_view(p).insert(oe[k as int].0, oe[k as int].1)) by {
                    assert forall|q: Seq<char>| has_key(t, q) <==> (q == oe[k as int].0 || has_key(p, q)) by {
                        if has_key(t, q) && q != oe[k as int].0 {
                            let m = choose|m: int| 0 <= m < t.len() && (#[trigger] t[m]).0 == q;
                            assert(m < p.len());
                            assert(p[m] == t[m]);
                        }
                        if has_key(p, q) {
                            let m = choose|m: int| 0 <= m < p.len() && (#[trigger] p[m]).0 == q;
                            assert(t[m] == p[m]);
                        }
                        if q == oe[k as int].0 {
                            assert(t[k as int].0 == q);
                        }
                    }
                    assert forall|q: Seq<char>| #[trigger] has_key(t, q) implies lookup(t, q)->0 == (if q
                        == oe[k as int].0 {
                        oe[k as int].1
                    } else {
                        lookup(p, q)->0
                    }) by {
                        if q == oe[k as int].0 {
                            assert(t[k as int] == (oe[k as int].0, oe[k as int].1));
                            lemma_found_is_lookup(t, q, oe[k as int].1);
                        } else {
                            let m = choose|m: int| 0 <= m < t.len() && (#[trigger] t[m]).0 == q;
                            assert(m < p.len());
                            assert(p[m] == t[m]);
                            lemma_found_is_lookup(t, q, t[m].1);
                            lemma_found_is_lookup(p, q, t[m].1);
                        }
                    }
                }
                assert(self@ =~= start.union_prefer_right(entries_view(t)));
            }
            k = k + 1;
        }
        proof {
            assert(oe.take(n as int) =~= oe);
        }
    }

    /// The entries, each name once.
    pub fn entries(&self) -> (r: &IndexMap<String, String>)
        ensures
            self@ == entries_view(str_entries(*r)),
            keys_unique(str_entries(*r)),
    {
        proof {
            use_type_invariant(self);
        }
        &self.m
    }
}

} // verus!
