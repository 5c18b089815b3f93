//! Insertion-ordered maps from `indexmap`: a map of strings to strings
//! (attribute lists, custom entities) and a map of element names to such
//! maps (DOCTYPE attribute defaults). Their contents are named as
//! sequences of entries in order, and each method the library calls has
//! a contract over those names, as the crate's documentation states it.
use indexmap::IndexMap;
use vstd::prelude::*;

verus! {

#[verifier::external_type_specification]
#[verifier::external_body]
#[verifier::reject_recursive_types(K)]
#[verifier::reject_recursive_types(V)]
#[verifier::reject_recursive_types(S)]
pub struct ExIndexMap<K, V, S>(IndexMap<K, V, S>);

/// The entries of a string map, in order: each key and value by its
/// characters.
pub uninterp spec fn str_entries(m: IndexMap<String, String>) -> Seq<(Seq<char>, Seq<char>)>;

/// The entries of a table, in order: each key by its characters, each
/// value by its own entries.
pub uninterp spec fn table_entries(m: IndexMap<String, IndexMap<String, String>>) -> Seq<
    (Seq<char>, Seq<(Seq<char>, Seq<char>)>),
>;

/// Whether some entry has key `k`.
pub open spec fn has_key<V>(e: Seq<(Seq<char>, V)>, k: Seq<char>) -> bool {
    exists|i: int| 0 <= i < e.len() && (#[trigger] e[i]).0 == k
}

/// The position of the first entry with key `k`.
pub open spec fn key_index<V>(e: Seq<(Seq<char>, V)>, k: Seq<char>) -> int
    recommends
        has_key(e, k),
{
    choose|i: int| 0 <= i < e.len() && (#[trigger] e[i]).0 == k && forall|j: int| 0 <= j < i ==> (#[trigger] e[j]).0 != k
}

/// No key occurs twice.
pub open spec fn keys_unique<V>(e: Seq<(Seq<char>, V)>) -> bool {
    forall|i: int, j: int| 0 <= i < e.len() && 0 <= j < e.len() && i != j ==> (#[trigger] e[i]).0 != (#[trigger] e[j]).0
}

/// The value stored under `k`, when there is one.
pub open spec fn lookup<V>(e: Seq<(Seq<char>, V)>, k: Seq<char>) -> Option<V> {
    if has_key(e, k) {
        Some(e[key_index(e, k)].1)
    } else {
        None
    }
}

/// The entries after inserting `(k, v)`: an existing key keeps its place
/// and takes the new value; a new key goes last.
pub open spec fn inserted<V>(e: Seq<(Seq<char>, V)>, k: Seq<char>, v: V) -> Seq<(Seq<char>, V)> {
    if has_key(e, k) {
        e.update(key_index(e, k), (k, v))
    } else {
        e.push((k, v))
    }
}

/// A first entry with a key exists whenever some entry has it.
pub proof fn lemma_key_index<V>(e: Seq<(Seq<char>, V)>, k: Seq<char>)
    requires
        has_key(e, k),
    ensures
        0 <= key_index(e, k) < e.len(),
        e[key_index(e, k)].0 == k,
        forall|j: int| 0 <= j < key_index(e, k) ==> (#[trigger] e[j]).0 != k,
{
    let i0 = choose|i: int| 0 <= i < e.len() && (#[trigger] e[i]).0 == k;
    lemma_first_with_key(e, k, i0);
}

proof fn lemma_first_with_key<V>(e: Seq<(Seq<char>, V)>, k: Seq<char>, i: int)
    requires
        0 <= i < e.len(),
        e[i].0 == k,
    ensures
        exists|m: int| 0 <= m < e.len() && (#[trigger] e[m]).0 == k && forall|j: int| 0 <= j < m ==> (#[trigger] e[j]).0 != k,
    decreases i,
{
    if exists|j: int| 0 <= j < i && (#[trigger] e[j]).0 == k {
        let j = choose|j: int| 0 <= j < i && (#[trigger] e[j]).0 == k;
        lemma_first_with_key(e, k, j);
    } else {
        assert(forall|j: int| 0 <= j < i ==> (#[trigger] e[j]).0 != k);
    }
}

/// Insertion keeps keys unique.
pub proof fn lemma_inserted_unique<V>(e: Seq<(Seq<char>, V)>, k: Seq<char>, v: V)
    requires
        keys_unique(e),
    ensures
        keys_unique(inserted(e, k, v)),
        has_key(inserted(e, k, v), k),
        lookup(inserted(e, k, v), k) == Some(v),
        forall|k2: Seq<char>| k2 != k ==> lookup(inserted(e, k, v), k2) == lookup(e, k2),
{
    let r = inserted(e, k, v);
    if has_key(e, k) {
        lemma_key_index(e, k);
    }
    assert(keys_unique(r));
    let ri = if has_key(e, k) {
        key_index(e, k)
    } else {
        e.len() as int
    };
    assert(r[ri].0 == k);
    assert(has_key(r, k));
    lemma_key_index(r, k);
    assert(key_index(r, k) == ri);
    assert forall|k2: Seq<char>| k2 != k implies lookup(r, k2) == lookup(e, k2) by {
        if has_key(e, k2) {
            lemma_key_index(e, k2);
            let i2 = key_index(e, k2);
            assert(r[i2].0 == k2);
            lemma_key_index(r, k2);
        }
        if has_key(r, k2) {
            lemma_key_index(r, k2);
            let j2 = key_index(r, k2);
            assert(e[j2].0 == k2);
        }
    }
}

/// `IndexMap::new`: an empty map.
#[verifier::external_body]
pub fn str_map_new() -> (m: IndexMap<String, String>)
    ensures
        str_entries(m) == Seq::<(Seq<char>, Seq<char>)>::empty(),
{
    IndexMap::new()
}

/// `IndexMap::len`: the number of entries.
#[verifier::external_body]
pub fn str_map_len(m: &IndexMap<String, String>) -> (n: usize)
    ensures
        n == str_entries(*m).len(),
{
    m.len()
}

/// `IndexMap::get_index`: the entry at position `i`.
#[verifier::external_body]
pub fn str_map_get_index(m: &IndexMap<String, String>, i: usize) -> (r: (&String, &String))
    requires
        i < str_entries(*m).len(),
    ensures
        (r.0@, r.1@) == str_entries(*m)[i as int],
{
    m.get_index(i).unwrap()
}

/// `IndexMap::contains_key`: whether some entry has key `k`.
#[verifier::external_body]
pub fn str_map_contains_key(m: &IndexMap<String, String>, k: &str) -> (r: bool)
    ensures
        r == has_key(str_entries(*m), k@),
{
    m.contains_key(k)
}

/// `IndexMap::get`: the value of an entry with key `k`.
#[verifier::external_body]
pub fn str_map_get<'a>(m: &'a IndexMap<String, String>, k: &str) -> (r: Option<&'a String>)
    ensures
        r is Some <==> has_key(str_entries(*m), k@),
        r matches Some(v) ==> exists|i: int|
            0 <= i < str_entries(*m).len() && #[trigger] str_entries(*m)[i] == (k@, v@),
{
    m.get(k)
}

/// `IndexMap::insert`: an existing key keeps its place and takes the new
/// value; a new key goes last.
#[verifier::external_body]
pub fn str_map_insert(m: &mut IndexMap<String, String>, k: String, v: String)
    ensures
        str_entries(*final(m)) == inserted(str_entries(*old(m)), k@, v@),
{
    m.insert(k, v);
}

/// `IndexMap::clone`: a map with the same entries.
#[verifier::external_body]
pub fn str_map_clone(m: &IndexMap<String, String>) -> (c: IndexMap<String, String>)
    ensures
        str_entries(c) == str_entries(*m),
{
    m.clone()
}

/// `IndexMap::new`: an empty table.
#[verifier::external_body]
pub fn table_new() -> (m: IndexMap<String, IndexMap<String, String>>)
    ensures
        table_entries(m) == Seq::<(Seq<char>, Seq<(Seq<char>, Seq<char>)>)>::empty(),
{
    IndexMap::new()
}

/// `IndexMap::len`: the number of entries of a table.
#[verifier::external_body]
pub fn table_len(m: &IndexMap<String, IndexMap<String, String>>) -> (n: usize)
    ensures
        n == table_entries(*m).len(),
{
    m.len()
}

/// `IndexMap::get_index`: the table entry at position `i`.
#[verifier::external_body]
pub fn table_get_index(m: &IndexMap<String, IndexMap<String, String>>, i: usize) -> (r: (
    &String,
    &IndexMap<String, String>,
))
    requires
        i < table_entries(*m).len(),
    ensures
        (r.0@, str_entries(*r.1)) == table_entries(*m)[i as int],
{
    m.get_index(i).unwrap()
}

/// `IndexMap::get`: the value of a table entry with key `k`.
#[verifier::external_body]
pub fn table_get<'a>(m: &'a IndexMap<String, IndexMap<String, String>>, k: &str) -> (r: Option<
    &'a IndexMap<String, String>,
>)
    ensures
        r is Some <==> has_key(table_entries(*m), k@),
        r matches Some(v) ==> exists|i: int|
            0 <= i < table_entries(*m).len() && #[trigger] table_entries(*m)[i] == (
                k@,
                str_entries(*v),
            ),
{
    m.get(k)
}

/// `IndexMap::insert` on a table: an existing key keeps its place and
/// takes the new value; a new key goes last.
#[verifier::external_body]
pub fn table_insert(
    m: &mut IndexMap<String, IndexMap<String, String>>,
    k: String,
    v: IndexMap<String, String>,
)
    ensures
        table_entries(*final(m)) == inserted(table_entries(*old(m)), k@, str_entries(v)),
{
    m.insert(k, v);
}

/// A value found under a key in a map with unique keys is the one
/// `lookup` names.
pub proof fn lemma_found_is_lookup<V>(e: Seq<(Seq<char>, V)>, k: Seq<char>, v: V)
    requires
        keys_unique(e),
        exists|i: int| 0 <= i < e.len() && #[trigger] e[i] == (k, v),
    ensures
        lookup(e, k) == Some(v),
{
    let i = choose|i: int| 0 <= i < e.len() && #[trigger] e[i] == (k, v);
    assert(has_key(e, k));
    lemma_key_index(e, k);
}

} // verus!
