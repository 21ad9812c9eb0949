//! An inverted index in a sharded concurrent map, for builds in which every
//! worker enters its postings into one map.
use crate::index::{entry_views, ids_of, postings_of_entries, with_entry, with_posting, Postings};
use vstd::prelude::*;

verus! {

/// `dashmap::DashMap`, of which nothing is known but what is said of the
/// terms it holds.
#[verifier::external_type_specification]
#[verifier::external_body]
#[verifier::reject_recursive_types(K)]
#[verifier::reject_recursive_types(V)]
#[verifier::reject_recursive_types(S)]
pub struct ExDashMap<K, V, S>(dashmap::DashMap<K, V, S>);

/// `dashmap::DashSet`, of which nothing is known but what is said of the
/// ids it holds.
#[verifier::external_type_specification]
#[verifier::external_body]
#[verifier::reject_recursive_types(K)]
#[verifier::reject_recursive_types(S)]
pub struct ExDashSet<K, S>(dashmap::DashSet<K, S>);

/// A concurrent map from terms to concurrent sets of ids.
pub type SharedMap = dashmap::DashMap<String, dashmap::DashSet<i32>>;

/// A concurrent set of ids.
pub type SharedSet = dashmap::DashSet<i32>;

/// The terms that a concurrent map holds, each with the ids in its set.
pub uninterp spec fn shared_postings(map: SharedMap) -> Map<Seq<char>, Set<i32>>;

/// The ids that a concurrent set holds.
pub uninterp spec fn shared_ids(set: SharedSet) -> Set<i32>;

/// The map without terms.
pub open spec fn no_postings() -> Map<Seq<char>, Set<i32>> {
    Map::empty()
}

/// `dashmap::DashMap::new`.
///
/// Trusted: the new map holds no term.
#[verifier::external_body]
fn map_new() -> (made: SharedMap)
    ensures
        shared_postings(made) == no_postings(),
{
    dashmap::DashMap::new()
}

/// `dashmap::DashSet::new`.
///
/// Trusted: the new set holds no id.
#[verifier::external_body]
fn set_new() -> (made: SharedSet)
    ensures
        shared_ids(made) == Set::<i32>::empty(),
{
    dashmap::DashSet::new()
}

/// `dashmap::DashSet::insert`.
///
/// Trusted: afterwards the set holds the id besides what it held.
#[verifier::external_body]
fn set_insert(set: &mut SharedSet, id: i32)
    ensures
        shared_ids(*final(set)) == shared_ids(*old(set)).insert(id),
{
    set.insert(id);
}

/// `dashmap::DashMap::insert`.
///
/// Trusted: afterwards the term has this set, whatever it had before, and
/// every other term has what it had.
#[verifier::external_body]
fn map_insert(
    map: &mut SharedMap,
    term: String,
    set: SharedSet,
)
    ensures
        shared_postings(*final(map)) == shared_postings(*old(map)).insert(term@, shared_ids(set)),
{
    map.insert(term, set);
}

/// `dashmap::DashMap::get_mut`, and `dashmap::DashSet::insert` on the set
/// that it finds.
///
/// Trusted: the result tells whether the map holds the term; where it does,
/// the id is added to the term's set, and nothing else changes.
#[verifier::external_body]
fn map_extend(map: &mut SharedMap, term: &str, id: i32) -> (held:
    bool)
    ensures
        held == shared_postings(*old(map)).contains_key(term@),
        held ==> shared_postings(*final(map)) == shared_postings(*old(map)).insert(
            term@,
            shared_postings(*old(map))[term@].insert(id),
        ),
        !held ==> shared_postings(*final(map)) == shared_postings(*old(map)),
{
    match map.get_mut(term) {
        Some(set) => {
            set.insert(id);
            true
        },
        None => false,
    }
}

/// `dashmap::DashMap::len`.
///
/// Trusted: the result is the number of terms.
#[verifier::external_body]
fn map_len(map: &SharedMap) -> (n: usize)
    ensures
        n == shared_postings(*map).dom().len(),
{
    map.len()
}

/// `dashmap::DashMap::get`, and `dashmap::DashSet::iter` over the set that
/// it finds.
///
/// Trusted: `None` where the map does not hold the term; else the ids of
/// the term's set, each once, in the order in which the set yields them.
#[verifier::external_body]
fn map_ids(map: &SharedMap, term: &str) -> (found: Option<
    Vec<i32>,
>)
    ensures
        match found {
            Some(ids) => {
                &&& shared_postings(*map).contains_key(term@)
                &&& ids@.no_duplicates()
                &&& ids@.to_set() == shared_postings(*map)[term@]
            },
            None => !shared_postings(*map).contains_key(term@),
        },
{
    map.get(term).map(|set| set.iter().map(|id| *id).collect())
}

/// `dashmap::DashMap::iter`.
///
/// Trusted: the result holds every term of the map once, in the order in
/// which the map yields them.
#[verifier::external_body]
fn map_terms(map: &SharedMap) -> (terms: Vec<String>)
    ensures
        Seq::new(terms@.len(), |k: int| terms@[k]@).no_duplicates(),
        Seq::new(terms@.len(), |k: int| terms@[k]@).to_set() == shared_postings(*map).dom(),
{
    map.iter().map(|entry| entry.key().clone()).collect()
}

/// An inverted index that is held in a concurrent map.
pub struct SharedIndex {
    map: SharedMap,
}

impl View for SharedIndex {
    type V = Map<Seq<char>, Set<i32>>;

    closed spec fn view(&self) -> Map<Seq<char>, Set<i32>> {
        shared_postings(self.map)
    }
}

impl SharedIndex {
    /// An index without terms.
    pub fn new() -> (index: SharedIndex)
        ensures
            index@ == Map::<Seq<char>, Set<i32>>::empty(),
    {
        SharedIndex { map: map_new() }
    }

    /// Takes over a map that was filled elsewhere.
    pub fn adopt(map: SharedMap) -> (index: SharedIndex)
        ensures
            index@ == shared_postings(map),
    {
        SharedIndex { map }
    }

    /// Enters `id` under `term`: into the set of the term where the map
    /// holds the term, and else as a new set of this one id.
    pub fn add(&mut self, term: String, id: i32)
        ensures
            final(self)@ == with_posting(old(self)@, term@, id),
    {
        if !map_extend(&mut self.map, term.as_str(), id) {
            let mut set = set_new();
            set_insert(&mut set, id);
            map_insert(&mut self.map, term, set);
        }
    }
}

impl Postings for SharedIndex {
    open spec fn terms(&self) -> Map<Seq<char>, Set<i32>> {
        self@
    }

    open spec fn sound(&self) -> bool {
        true
    }

    fn ids(&self, term: &str) -> (found: Option<Vec<i32>>) {
        map_ids(&self.map, term)
    }

    fn count(&self) -> (n: usize) {
        map_len(&self.map)
    }

    fn enter(&mut self, term: String, id: i32) {
        self.add(term, id);
    }

    fn absorb(&mut self, term: String, ids: &Vec<i32>) {
        let ghost before = self@;
        let held = map_ids(&self.map, term.as_str()).is_some();
        if held {
            let mut j: usize = 0;
            proof {
                assert(ids@.take(0).to_set() =~= Set::<i32>::empty());
                assert(before.contains_key(term@));
                assert(before[term@].union(Set::<i32>::empty()) =~= before[term@]);
                assert(before.insert(term@, before[term@]) =~= before);
            }
            while j < ids.len()
                invariant
                    j <= ids@.len(),
                    before.contains_key(term@),
                    self@ == before.insert(
                        term@,
                        before[term@].union(ids@.take(j as int).to_set()),
                    ),
                decreases ids@.len() - j,
            {
                let ghost seen = ids@.take(j as int);
                map_extend(&mut self.map, term.as_str(), ids[j]);
                proof {
                    assert(ids@.take(j + 1) =~= seen.push(ids@[j as int]));
                    seen.lemma_push_to_set_commute(ids@[j as int]);
                    assert(before[term@].union(seen.to_set()).insert(ids@[j as int])
                        =~= before[term@].union(ids@.take(j + 1).to_set()));
                    assert(self@ =~= before.insert(
                        term@,
                        before[term@].union(ids@.take(j + 1).to_set()),
                    ));
                }
                j = j + 1;
            }
            proof {
                assert(ids@.take(ids@.len() as int) =~= ids@);
            }
        } else {
            let mut set = set_new();
            let mut j: usize = 0;
            proof {
                assert(ids@.take(0).to_set() =~= Set::<i32>::empty());
            }
            while j < ids.len()
                invariant
                    j <= ids@.len(),
                    shared_ids(set) == ids@.take(j as int).to_set(),
                decreases ids@.len() - j,
            {
                set_insert(&mut set, ids[j]);
                proof {
                    assert(ids@.take(j + 1) =~= ids@.take(j as int).push(ids@[j as int]));
                    ids@.take(j as int).lemma_push_to_set_commute(ids@[j as int]);
                }
                j = j + 1;
            }
            proof {
                assert(ids@.take(ids@.len() as int) =~= ids@);
                assert(Set::<i32>::empty().union(ids@.to_set()) =~= ids@.to_set());
            }
            map_insert(&mut self.map, term, set);
        }
    }

    fn entries(&self) -> (entries: Vec<(String, Vec<i32>)>) {
        let terms = map_terms(&self.map);
        let ghost names = Seq::new(terms@.len(), |k: int| terms@[k]@);
        let mut entries: Vec<(String, Vec<i32>)> = Vec::new();
        proof {
            assert(names.take(0).to_set() =~= Set::<Seq<char>>::empty());
            assert(self@.restrict(Set::<Seq<char>>::empty()) =~= Map::<
                Seq<char>,
                Set<i32>,
            >::empty());
        }
        for term in it: terms
            invariant
                names.no_duplicates(),
                names.to_set() == self@.dom(),
                names == Seq::new(it.seq().len(), |k: int| it.seq()[k]@),
                postings_of_entries(entry_views(entries@)) == self@.restrict(
                    names.take(it.index()).to_set(),
                ),
        {
            let ghost seen = names.take(it.index());
            let ghost before = entry_views(entries@);
            proof {
                assert(names[it.index()] == term@);
                assert(names.to_set().contains(term@));
                assert(!seen.to_set().contains(term@)) by {
                    if seen.to_set().contains(term@) {
                        let j = choose|j: int| 0 <= j < seen.len() && seen[j] == term@;
                        assert(names[j] == names[it.index()]);
                    }
                }
                assert(names.take(it.index() + 1) =~= seen.push(term@));
                seen.lemma_push_to_set_commute(term@);
            }
            match map_ids(&self.map, term.as_str()) {
                Some(ids) => {
                    entries.push((term, ids));
                    proof {
                        let grown = entry_views(entries@);
                        assert(grown.drop_last() =~= before);
                        assert(grown.last() == (term@, ids@));
                        assert(Set::<i32>::empty().union(ids@.to_set()) =~= self@[term@]);
                        assert(with_entry(self@.restrict(seen.to_set()), grown.last())
                            =~= self@.restrict(seen.to_set().insert(term@)));
                    }
                },
                None => {},
            }
        }
        proof {
            assert(names.take(names.len() as int) =~= names);
            assert(self@.restrict(self@.dom()) =~= self@);
        }
        entries
    }
}

} // verus!
