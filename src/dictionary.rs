use vstd::prelude::*;
use crate::stress::{Pronunciation, Syllable};

verus! {

#[verifier::external_type_specification]
#[verifier::external_body]
#[verifier::reject_recursive_types(K)]
#[verifier::reject_recursive_types(V)]
#[verifier::reject_recursive_types(S)]
pub struct ExAHashMap<K, V, S>(ahash::AHashMap<K, V, S>);

#[verifier::external_type_specification]
#[verifier::external_body]
pub struct ExRandomState(ahash::RandomState);

/// What a word map holds: each word's pronunciations, in order.
pub uninterp spec fn entries_of(m: ahash::AHashMap<String, Vec<Pronunciation>>) -> Map<
    Seq<char>,
    Seq<Seq<Syllable>>,
>;

/// The stresses of a list of pronunciations.
pub open spec fn prons_view(v: Seq<Pronunciation>) -> Seq<Seq<Syllable>> {
    v.map_values(|p: Pronunciation| p@)
}

/// Relies on `AHashMap::new`: a new map is empty.
#[verifier::external_body]
fn map_new() -> (r: ahash::AHashMap<String, Vec<Pronunciation>>)
    ensures
        entries_of(r) =~= Map::empty(),
{
    ahash::AHashMap::new()
}

/// Relies on `AHashMap::get`: the value stored under the key, if any.
#[verifier::external_body]
fn map_get<'a>(m: &'a ahash::AHashMap<String, Vec<Pronunciation>>, k: &str) -> (r: Option<
    &'a Vec<Pronunciation>,
>)
    ensures
        r is Some <==> entries_of(*m).contains_key(k@),
        r is Some ==> prons_view(r->0@) == entries_of(*m)[k@],
{
    m.get(k)
}

/// Relies on `AHashMap::remove`: takes the key's value out of the map.
#[verifier::external_body]
fn map_remove(m: &mut ahash::AHashMap<String, Vec<Pronunciation>>, k: &str) -> (r: Option<
    Vec<Pronunciation>,
>)
    ensures
        entries_of(*final(m)) == entries_of(*old(m)).remove(k@),
        r is Some <==> entries_of(*old(m)).contains_key(k@),
        r is Some ==> prons_view(r->0@) == entries_of(*old(m))[k@],
{
    m.remove(k)
}

/// Relies on `AHashMap::insert`: afterwards the key maps to the value.
#[verifier::external_body]
fn map_insert(m: &mut ahash::AHashMap<String, Vec<Pronunciation>>, k: String, v: Vec<Pronunciation>)
    ensures
        entries_of(*final(m)) == entries_of(*old(m)).insert(k@, prons_view(v@)),
{
    m.insert(k, v);
}

/// `m` with one more pronunciation appended to a word's list.
pub open spec fn add_entry(
    m: Map<Seq<char>, Seq<Seq<Syllable>>>,
    k: Seq<char>,
    p: Seq<Syllable>,
) -> Map<Seq<char>, Seq<Seq<Syllable>>> {
    if m.contains_key(k) {
        m.insert(k, m[k].push(p))
    } else {
        m.insert(k, seq![p])
    }
}

/// Every word has at least one pronunciation, and every pronunciation at
/// least one syllable.
pub open spec fn well_formed_entries(m: Map<Seq<char>, Seq<Seq<Syllable>>>) -> bool {
    forall|k: Seq<char>|
        #[trigger] m.contains_key(k) ==> m[k].len() > 0 && forall|j: int|
            0 <= j < m[k].len() ==> (#[trigger] m[k][j]).len() >= 1
}

/// A pronouncing dictionary: each word mapped to its pronunciations, in the
/// order they were added; the first is the word's primary variant.
#[derive(Debug)]
pub struct Dictionary {
    entries: ahash::AHashMap<String, Vec<Pronunciation>>,
}

impl View for Dictionary {
    type V = Map<Seq<char>, Seq<Seq<Syllable>>>;

    closed spec fn view(&self) -> Map<Seq<char>, Seq<Seq<Syllable>>> {
        entries_of(self.entries)
    }
}

impl Dictionary {
    pub open spec fn wf(&self) -> bool {
        well_formed_entries(self@)
    }

    pub fn new() -> (r: Dictionary)
        ensures
            r@ =~= Map::empty(),
            r.wf(),
    {
        Dictionary { entries: map_new() }
    }

    /// The pronunciations of a word, or `None` for a word not in the
    /// dictionary.
    pub fn lookup(&self, word: &str) -> (r: Option<&Vec<Pronunciation>>)
        ensures
            r is Some <==> self@.contains_key(word@),
            r is Some ==> prons_view(r->0@) == self@[word@],
    {
        map_get(&self.entries, word)
    }

    pub fn contains(&self, word: &str) -> (r: bool)
        ensures
            r == self@.contains_key(word@),
    {
        map_get(&self.entries, word).is_some()
    }

    /// Appends a pronunciation to a word's list.
    pub fn add(&mut self, word: String, p: Pronunciation)
        requires
            old(self).wf(),
            p@.len() >= 1,
        ensures
            final(self)@ == add_entry(old(self)@, word@, p@),
            final(self).wf(),
    {
        let ghost m0 = self@;
        let list = map_remove(&mut self.entries, word.as_str());
        let mut list = match list {
            Some(l) => l,
            None => Vec::new(),
        };
        let ghost l0 = list@;
        list.push(p);
        proof {
            assert(prons_view(list@) =~= prons_view(l0).push(p@));
            if m0.contains_key(word@) {
                assert(prons_view(l0) == m0[word@]);
            } else {
                assert(prons_view(l0) =~= Seq::<Seq<Syllable>>::empty());
                assert(prons_view(l0).push(p@) =~= seq![p@]);
            }
        }
        map_insert(&mut self.entries, word, list);
        assert(self@ =~= add_entry(m0, word@, p@));
        proof {
            assert forall|k: Seq<char>| #[trigger] self@.contains_key(k) implies self@[k].len() > 0
                && forall|j: int| 0 <= j < self@[k].len() ==> (#[trigger] self@[k][j]).len() >= 1 by {
                if k != word@ {
                    assert(m0.contains_key(k));
                } else if m0.contains_key(k) {
                    assert forall|j: int| 0 <= j < self@[k].len() implies (#[trigger] self@[k][j]).len()
                        >= 1 by {
                        if j < m0[k].len() {
                            assert(self@[k][j] == m0[k][j]);
                        }
                    }
                }
            }
        }
    }
}

} // verus!
