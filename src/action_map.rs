use vstd::prelude::*;

use indexmap::IndexMap;

use crate::matcher::{ActionsMap, Pairs, pairs_view};

verus! {

#[verifier::external_type_specification]
#[verifier::external_body]
#[verifier::reject_recursive_types(K)]
#[verifier::reject_recursive_types(V)]
#[verifier::reject_recursive_types(S)]
pub struct ExIndexMap<K, V, S>(IndexMap<K, V, S>);

/// The key/value pairs of a string map, in the map's order.
pub uninterp spec fn index_map_entries(m: IndexMap<String, String>) -> Seq<(Seq<char>, Seq<char>)>;

/// `a` comes before `b` in lexicographic order of code points.
pub open spec fn key_lt(a: Seq<char>, b: Seq<char>) -> bool
    decreases a.len(),
{
    if a.len() == 0 {
        b.len() > 0
    } else if b.len() == 0 {
        false
    } else if a[0] != b[0] {
        (a[0] as u32) < (b[0] as u32)
    } else {
        key_lt(a.drop_first(), b.drop_first())
    }
}

/// No two entries share a key.
pub open spec fn unique_keys(e: Pairs) -> bool {
    forall|i: int, j: int| 0 <= i < e.len() && 0 <= j < e.len() && i != j ==> e[i].0 != e[j].0
}

/// Keys strictly increase from each entry to the next.
pub open spec fn keys_sorted(e: Pairs) -> bool {
    forall|i: int, j: int| 0 <= i < j < e.len() ==> key_lt(#[trigger] e[i].0, #[trigger] e[j].0)
}

/// The entries as a map from key to value.
pub open spec fn entry_map(e: Pairs) -> Map<Seq<char>, Seq<char>>
    decreases e.len(),
{
    if e.len() == 0 {
        Map::empty()
    } else {
        entry_map(e.drop_first()).insert(e[0].0, e[0].1)
    }
}

/// Relies on `IndexMap::new`: a new map is empty.
#[verifier::external_body]
fn new_index_map() -> (r: IndexMap<String, String>)
    ensures
        index_map_entries(r) == Seq::<(Seq<char>, Seq<char>)>::empty(),
{
    IndexMap::new()
}

/// Relies on `IndexMap::insert`: a new key is added, a present key has its
/// value replaced; keys stay unique.
#[verifier::external_body]
fn insert_entry(m: &mut IndexMap<String, String>, key: String, value: String)
    requires
        unique_keys(index_map_entries(*old(m))),
    ensures
        unique_keys(index_map_entries(*final(m))),
        entry_map(index_map_entries(*final(m))) == entry_map(index_map_entries(*old(m))).insert(
            key@,
            value@,
        ),
{
    m.insert(key, value);
}

/// Relies on `IndexMap::sort_keys`: a stable sort of the entries by key, whose
/// order on `String` compares code points lexicographically.
#[verifier::external_body]
fn sort_entries(m: &mut IndexMap<String, String>)
    requires
        unique_keys(index_map_entries(*old(m))),
    ensures
        unique_keys(index_map_entries(*final(m))),
        keys_sorted(index_map_entries(*final(m))),
        entry_map(index_map_entries(*final(m))) == entry_map(index_map_entries(*old(m))),
{
    m.sort_keys();
}

/// Relies on `IndexMap::len`: the number of entries.
#[verifier::external_body]
fn entry_count(m: &IndexMap<String, String>) -> (r: usize)
    ensures
        r == index_map_entries(*m).len(),
{
    m.len()
}

/// Relies on `IndexMap::get_index`: the entry at a position, copied out.
#[verifier::external_body]
fn entry_at(m: &IndexMap<String, String>, i: usize) -> (r: (String, String))
    requires
        i < index_map_entries(*m).len(),
    ensures
        (r.0@, r.1@) == index_map_entries(*m)[i as int],
{
    let (k, v) = m.get_index(i).unwrap();
    (k.clone(), v.clone())
}

/// The map that inserting `pairs` one by one into an empty map gives: a
/// later pair overrides an earlier one with the same key.
pub open spec fn pairs_map(pairs: Pairs) -> Map<Seq<char>, Seq<char>>
    decreases pairs.len(),
{
    if pairs.len() == 0 {
        Map::empty()
    } else {
        pairs_map(pairs.drop_last()).insert(pairs.last().0, pairs.last().1)
    }
}

proof fn lemma_key_lt_irreflexive(a: Seq<char>)
    ensures
        !key_lt(a, a),
    decreases a.len(),
{
    if a.len() > 0 {
        lemma_key_lt_irreflexive(a.drop_first());
    }
}

proof fn lemma_key_lt_transitive(a: Seq<char>, b: Seq<char>, c: Seq<char>)
    requires
        key_lt(a, b),
        key_lt(b, c),
    ensures
        key_lt(a, c),
    decreases a.len(),
{
    if a.len() > 0 && b.len() > 0 && c.len() > 0 && a[0] == b[0] && b[0] == c[0] {
        lemma_key_lt_transitive(a.drop_first(), b.drop_first(), c.drop_first());
    }
}

proof fn lemma_entry_map_keys(e: Pairs)
    ensures
        forall|k: Seq<char>|
            #[trigger] entry_map(e).contains_key(k) <==> exists|i: int| 0 <= i < e.len() && e[i].0 == k,
    decreases e.len(),
{
    if e.len() > 0 {
        let rest = e.drop_first();
        lemma_entry_map_keys(rest);
        assert forall|k: Seq<char>|
            #[trigger] entry_map(e).contains_key(k) <==> exists|i: int| 0 <= i < e.len() && e[i].0 == k by {
            assert(entry_map(e) == entry_map(rest).insert(e[0].0, e[0].1));
            if entry_map(e).contains_key(k) && k != e[0].0 {
                assert(entry_map(rest).contains_key(k));
                let i = choose|i: int| 0 <= i < rest.len() && rest[i].0 == k;
                assert(e[i + 1].0 == k);
            }
            if exists|i: int| 0 <= i < e.len() && e[i].0 == k {
                let i = choose|i: int| 0 <= i < e.len() && e[i].0 == k;
                if i > 0 {
                    assert(rest[i - 1].0 == k);
                    assert(entry_map(rest).contains_key(k));
                }
            }
        }
    }
}

/// Two key-sorted entry lists that hold the same map are the same list: the
/// order of a sorted map does not depend on how it was built.
pub proof fn lemma_sorted_entries_determined(a: Pairs, b: Pairs)
    requires
        keys_sorted(a),
        keys_sorted(b),
        entry_map(a) == entry_map(b),
    ensures
        a == b,
    decreases a.len(),
{
    lemma_entry_map_keys(a);
    lemma_entry_map_keys(b);
    if a.len() == 0 {
        if b.len() > 0 {
            assert(entry_map(b).contains_key(b[0].0));
        }
        assert(a =~= b);
    } else {
        assert(entry_map(a).contains_key(a[0].0));
        let j = choose|j: int| 0 <= j < b.len() && b[j].0 == a[0].0;
        assert(entry_map(b).contains_key(b[0].0));
        let i = choose|i: int| 0 <= i < a.len() && a[i].0 == b[0].0;
        if j > 0 {
            assert(key_lt(b[0].0, b[j].0));
            if i > 0 {
                assert(key_lt(a[0].0, a[i].0));
                lemma_key_lt_transitive(a[0].0, a[i].0, a[0].0);
            }
            lemma_key_lt_irreflexive(a[0].0);
        }
        assert(b[0].0 == a[0].0);
        let ra = a.drop_first();
        let rb = b.drop_first();
        lemma_entry_map_keys(ra);
        lemma_entry_map_keys(rb);
        assert forall|x: int| 0 <= x < ra.len() implies ra[x].0 != a[0].0 by {
            assert(key_lt(a[0].0, a[x + 1].0));
            lemma_key_lt_irreflexive(a[0].0);
        }
        assert forall|x: int| 0 <= x < rb.len() implies rb[x].0 != b[0].0 by {
            assert(key_lt(b[0].0, b[x + 1].0));
            lemma_key_lt_irreflexive(b[0].0);
        }
        assert(entry_map(ra) =~= entry_map(a).remove(a[0].0));
        assert(entry_map(rb) =~= entry_map(b).remove(b[0].0));
        assert(entry_map(a)[a[0].0] == a[0].1);
        assert(entry_map(b)[b[0].0] == b[0].1);
        assert forall|x: int, y: int| 0 <= x < y < ra.len() implies key_lt(#[trigger] ra[x].0, #[trigger] ra[y].0) by {
            assert(key_lt(a[x + 1].0, a[y + 1].0));
        }
        assert forall|x: int, y: int| 0 <= x < y < rb.len() implies key_lt(#[trigger] rb[x].0, #[trigger] rb[y].0) by {
            assert(key_lt(b[x + 1].0, b[y + 1].0));
        }
        lemma_sorted_entries_determined(ra, rb);
        assert(a[0] == b[0]);
        assert forall|x: int| 0 <= x < a.len() implies a[x] == b[x] by {
            if x > 0 {
                assert(a[x] == ra[x - 1]);
                assert(b[x] == rb[x - 1]);
            }
        }
        assert(a =~= b);
    }
}

/// The key/value pairs extracted from one module, sorted by key.
pub struct ActionMap {
    map: IndexMap<String, String>,
}

impl ActionMap {
    /// The entries, in order.
    pub closed spec fn entries(&self) -> Pairs {
        index_map_entries(self.map)
    }

    pub open spec fn wf(&self) -> bool {
        unique_keys(self.entries()) && keys_sorted(self.entries())
    }

    /// Builds the map of `pairs` (a later pair overrides an earlier one with
    /// the same key) with its keys sorted.
    pub fn from_pairs(pairs: &ActionsMap) -> (r: ActionMap)
        ensures
            r.wf(),
            entry_map(r.entries()) == pairs_map(pairs_view(pairs@)),
    {
        let mut map = new_index_map();
        let ghost pv = pairs_view(pairs@);
        assert(entry_map(index_map_entries(map)) =~= pairs_map(pv.take(0)));
        let mut k: usize = 0;
        while k < pairs.len()
            invariant
                k <= pairs@.len(),
                pv == pairs_view(pairs@),
                unique_keys(index_map_entries(map)),
                entry_map(index_map_entries(map)) == pairs_map(pv.take(k as int)),
            decreases pairs@.len() - k,
        {
            let (key, value) = (pairs[k].0.clone(), pairs[k].1.clone());
            insert_entry(&mut map, key, value);
            assert(pv.take(k + 1).drop_last() =~= pv.take(k as int));
            k = k + 1;
        }
        assert(pv.take(pairs@.len() as int) =~= pv);
        sort_entries(&mut map);
        ActionMap { map }
    }

    /// The number of entries.
    pub fn len(&self) -> (r: usize)
        ensures
            r == self.entries().len(),
    {
        entry_count(&self.map)
    }

    /// The entry at position `i`, in key order.
    pub fn get_index(&self, i: usize) -> (r: (String, String))
        requires
            i < self.entries().len(),
        ensures
            (r.0@, r.1@) == self.entries()[i as int],
    {
        entry_at(&self.map, i)
    }
}

} // verus!
