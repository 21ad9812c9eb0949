//! The inverted index: for each term the set of the documents that hold it.
use std::collections::HashSet;
use vstd::hash_map::StringHashMap;
use vstd::prelude::*;

verus! {

broadcast use vstd::std_specs::hash::group_hash_axioms;

/// The documents of one term.
pub struct Posting {
    pub term: String,
    pub ids: HashSet<i32>,
}

/// A map from terms to sets of document ids. Every term of the map has at
/// least the posting list it was entered with; terms are kept in the order
/// in which they first came.
pub struct InvertedIndex {
    slots: StringHashMap<usize>,
    postings: Vec<Posting>,
}

/// The set that a term has in `map`; the empty set where it has none.
pub open spec fn ids_of(map: Map<Seq<char>, Set<i32>>, term: Seq<char>) -> Set<i32> {
    if map.contains_key(term) {
        map[term]
    } else {
        Set::empty()
    }
}

/// `map` with `id` added to the set of `term`.
pub open spec fn with_posting(map: Map<Seq<char>, Set<i32>>, term: Seq<char>, id: i32) -> Map<
    Seq<char>,
    Set<i32>,
> {
    map.insert(term, ids_of(map, term).insert(id))
}

/// The map that holds, for each term of `pairs`, the ids it is paired with.
pub open spec fn postings_of_pairs(pairs: Seq<(Seq<char>, i32)>) -> Map<Seq<char>, Set<i32>> {
    Map::new(
        |term: Seq<char>| exists|id: i32| pairs.contains((term, id)),
        |term: Seq<char>| Set::new(|id: i32| pairs.contains((term, id))),
    )
}

/// Two maps as one: a term of either is a term of the result, with the ids
/// that it has in the one and those that it has in the other.
pub open spec fn merged(a: Map<Seq<char>, Set<i32>>, b: Map<Seq<char>, Set<i32>>) -> Map<
    Seq<char>,
    Set<i32>,
> {
    Map::new(
        |term: Seq<char>| a.contains_key(term) || b.contains_key(term),
        |term: Seq<char>| ids_of(a, term).union(ids_of(b, term)),
    )
}

/// Entering one more pair is adding one posting.
pub proof fn lemma_pair_entered(pairs: Seq<(Seq<char>, i32)>, term: Seq<char>, id: i32)
    ensures
        with_posting(postings_of_pairs(pairs), term, id) == postings_of_pairs(
            pairs.push((term, id)),
        ),
{
    let before = postings_of_pairs(pairs);
    let grown = pairs.push((term, id));
    let after = postings_of_pairs(grown);
    assert(grown.last() == (term, id));
    assert(grown.contains((term, id)));
    assert forall|t: Seq<char>, i: i32| grown.contains((t, i)) <==> (pairs.contains((t, i)) || (t
        == term && i == id)) by {
        if pairs.contains((t, i)) {
            let k = choose|k: int| 0 <= k < pairs.len() && pairs[k] == (t, i);
            assert(grown[k] == (t, i));
        }
        if grown.contains((t, i)) {
            let k = choose|k: int| 0 <= k < grown.len() && grown[k] == (t, i);
            if k < pairs.len() {
                assert(pairs[k] == (t, i));
            }
        }
    }
    assert forall|t: Seq<char>| #[trigger]
        after.contains_key(t) <==> with_posting(before, term, id).contains_key(t) by {
        if before.contains_key(t) {
            let i = choose|i: i32| pairs.contains((t, i));
            assert(grown.contains((t, i)));
        }
    }
    assert forall|t: Seq<char>| #[trigger] after.contains_key(t) implies after[t] =~= with_posting(
        before,
        term,
        id,
    )[t] by {}
    assert(with_posting(before, term, id) =~= after);
}

/// The map of a list of pairs does not depend on the order of the pairs,
/// nor on how often a pair comes: two lists with the same pairs give the
/// same map. So it does not matter in which order indexers that fill one
/// map get their turns.
pub proof fn lemma_pairs_in_any_order(p: Seq<(Seq<char>, i32)>, q: Seq<(Seq<char>, i32)>)
    requires
        forall|pair: (Seq<char>, i32)| p.contains(pair) <==> q.contains(pair),
    ensures
        postings_of_pairs(p) == postings_of_pairs(q),
{
    let left = postings_of_pairs(p);
    let right = postings_of_pairs(q);
    assert forall|t: Seq<char>| #[trigger] left.contains_key(t) <==> right.contains_key(t) by {
        if left.contains_key(t) {
            let i = choose|i: i32| p.contains((t, i));
            assert(q.contains((t, i)));
        }
        if right.contains_key(t) {
            let i = choose|i: i32| q.contains((t, i));
            assert(p.contains((t, i)));
        }
    }
    assert forall|t: Seq<char>| #[trigger] left.contains_key(t) implies left[t] =~= right[t] by {
        assert forall|i: i32| left[t].contains(i) <==> right[t].contains(i) by {
            assert(p.contains((t, i)) <==> q.contains((t, i)));
        }
    }
    assert(left =~= right);
}

/// The map of two lists of pairs, one behind the other, is the two maps
/// merged.
pub proof fn lemma_pairs_merged(p: Seq<(Seq<char>, i32)>, q: Seq<(Seq<char>, i32)>)
    ensures
        merged(postings_of_pairs(p), postings_of_pairs(q)) == postings_of_pairs(p + q),
{
    let both = p + q;
    assert forall|t: Seq<char>, i: i32| both.contains((t, i)) <==> (p.contains((t, i))
        || q.contains((t, i))) by {
        if p.contains((t, i)) {
            let k = choose|k: int| 0 <= k < p.len() && p[k] == (t, i);
            assert(both[k] == (t, i));
        }
        if q.contains((t, i)) {
            let k = choose|k: int| 0 <= k < q.len() && q[k] == (t, i);
            assert(both[p.len() + k] == (t, i));
        }
        if both.contains((t, i)) {
            let k = choose|k: int| 0 <= k < both.len() && both[k] == (t, i);
            if k < p.len() {
                assert(p[k] == (t, i));
            } else {
                assert(q[k - p.len()] == (t, i));
            }
        }
    }
    let left = merged(postings_of_pairs(p), postings_of_pairs(q));
    let right = postings_of_pairs(both);
    assert forall|t: Seq<char>| #[trigger] left.contains_key(t) <==> right.contains_key(t) by {
        if postings_of_pairs(p).contains_key(t) {
            let i = choose|i: i32| p.contains((t, i));
            assert(both.contains((t, i)));
        }
        if postings_of_pairs(q).contains_key(t) {
            let i = choose|i: i32| q.contains((t, i));
            assert(both.contains((t, i)));
        }
    }
    assert forall|t: Seq<char>| #[trigger] left.contains_key(t) implies left[t] =~= right[t] by {}
    assert(left =~= right);
}

/// `map` with the ids of one entry added to the set of its term.
pub open spec fn with_entry(map: Map<Seq<char>, Set<i32>>, entry: (Seq<char>, Seq<i32>)) -> Map<
    Seq<char>,
    Set<i32>,
> {
    map.insert(entry.0, ids_of(map, entry.0).union(entry.1.to_set()))
}

/// The map that a list of entries, each a term with ids, stands for. A term
/// that comes twice has the ids of both entries.
pub open spec fn postings_of_entries(entries: Seq<(Seq<char>, Seq<i32>)>) -> Map<
    Seq<char>,
    Set<i32>,
>
    decreases entries.len(),
{
    if entries.len() == 0 {
        Map::empty()
    } else {
        with_entry(postings_of_entries(entries.drop_last()), entries.last())
    }
}

/// A list of entries as mathematical values.
pub open spec fn entry_views(entries: Seq<(String, Vec<i32>)>) -> Seq<(Seq<char>, Seq<i32>)> {
    Seq::new(entries.len(), |k: int| (entries[k].0@, entries[k].1@))
}

/// An id is in the set of a term exactly when some entry of the term holds
/// it.
pub proof fn lemma_entries_ids(entries: Seq<(Seq<char>, Seq<i32>)>, term: Seq<char>, id: i32)
    ensures
        (postings_of_entries(entries).contains_key(term) && postings_of_entries(
            entries,
        )[term].contains(id)) <==> exists|k: int|
            0 <= k < entries.len() && (#[trigger] entries[k]).0 == term && entries[k].1.contains(
                id,
            ),
    decreases entries.len(),
{
    if entries.len() > 0 {
        let front = entries.drop_last();
        let last = entries.last();
        lemma_entries_ids(front, term, id);
        let held = postings_of_entries(front).contains_key(term) && postings_of_entries(
            front,
        )[term].contains(id);
        if held {
            let k = choose|k: int|
                0 <= k < front.len() && (#[trigger] front[k]).0 == term && front[k].1.contains(id);
            assert(entries[k] == front[k]);
        }
        if exists|k: int|
            0 <= k < entries.len() && (#[trigger] entries[k]).0 == term && entries[k].1.contains(
                id,
            ) {
            let k = choose|k: int|
                0 <= k < entries.len() && (#[trigger] entries[k]).0 == term
                    && entries[k].1.contains(id);
            if k < front.len() {
                assert(front[k] == entries[k]);
            }
        }
    }
}

/// Enters every entry of `entries` into `index`.
pub fn fill<P: Postings>(index: &mut P, entries: Vec<(String, Vec<i32>)>)
    requires
        old(index).sound(),
        old(index).terms() == Map::<Seq<char>, Set<i32>>::empty(),
    ensures
        final(index).sound(),
        final(index).terms() == postings_of_entries(entry_views(entries@)),
{
    let ghost all = entry_views(entries@);
    proof {
        assert(all.take(0) =~= Seq::<(Seq<char>, Seq<i32>)>::empty());
    }
    for entry in it: entries
        invariant
            index.sound(),
            entry_views(it.seq()) == all,
            index.terms() == postings_of_entries(all.take(it.index())),
    {
        let ghost view = (entry.0@, entry.1@);
        let (term, ids) = entry;
        proof {
            assert(all[it.index()] == view);
            assert(all.take(it.index() + 1).drop_last() =~= all.take(it.index()));
            assert(all.take(it.index() + 1).last() == view);
        }
        index.absorb(term, &ids);
    }
    proof {
        assert(all.take(all.len() as int) =~= all);
    }
}

/// Adding a posting to the second of two merged maps adds it to the result.
pub proof fn lemma_posting_merged(
    a: Map<Seq<char>, Set<i32>>,
    b: Map<Seq<char>, Set<i32>>,
    term: Seq<char>,
    id: i32,
)
    ensures
        with_posting(merged(a, b), term, id) == merged(a, with_posting(b, term, id)),
{
    let left = with_posting(merged(a, b), term, id);
    let right = merged(a, with_posting(b, term, id));
    assert forall|t: Seq<char>| #[trigger] left.contains_key(t) implies left[t] =~= right[t] by {}
    assert(left =~= right);
}

/// Merging with a map without terms changes nothing.
pub proof fn lemma_merged_with_empty(a: Map<Seq<char>, Set<i32>>)
    ensures
        merged(a, Map::empty()) == a,
        merged(Map::empty(), a) == a,
{
    let none = Map::<Seq<char>, Set<i32>>::empty();
    assert forall|t: Seq<char>| #[trigger] a.contains_key(t) implies merged(a, none)[t] =~= a[t]
        && merged(none, a)[t] =~= a[t] by {}
    assert(merged(a, none) =~= a);
    assert(merged(none, a) =~= a);
}

/// Merging is associative.
pub proof fn lemma_merged_associates(
    a: Map<Seq<char>, Set<i32>>,
    b: Map<Seq<char>, Set<i32>>,
    c: Map<Seq<char>, Set<i32>>,
)
    ensures
        merged(merged(a, b), c) == merged(a, merged(b, c)),
{
    let left = merged(merged(a, b), c);
    let right = merged(a, merged(b, c));
    assert forall|t: Seq<char>| #[trigger] left.contains_key(t) implies left[t] =~= right[t] by {}
    assert(left =~= right);
}

/// Merging does not depend on which of the two maps comes first.
pub proof fn lemma_merged_commutes(a: Map<Seq<char>, Set<i32>>, b: Map<Seq<char>, Set<i32>>)
    ensures
        merged(a, b) == merged(b, a),
{
    assert forall|t: Seq<char>| #[trigger] merged(a, b).contains_key(t) implies merged(a, b)[t]
        =~= merged(b, a)[t] by {}
    assert(merged(a, b) =~= merged(b, a));
}

impl View for InvertedIndex {
    type V = Map<Seq<char>, Set<i32>>;

    closed spec fn view(&self) -> Map<Seq<char>, Set<i32>> {
        Map::new(
            |term: Seq<char>| self.slots@.contains_key(term),
            |term: Seq<char>| self.postings@[self.slots@[term] as int].ids@,
        )
    }
}

/// Something that gives, for a term, the ids of the documents that hold it.
pub trait Postings {
    /// The terms, each with its set of ids.
    spec fn terms(&self) -> Map<Seq<char>, Set<i32>>;

    /// Whether the value is in order.
    spec fn sound(&self) -> bool;

    /// The ids of `term`, each once and in no particular order; `None`
    /// where the term is not held.
    fn ids(&self, term: &str) -> (found: Option<Vec<i32>>)
        requires
            self.sound(),
        ensures
            match found {
                Some(ids) => {
                    &&& self.terms().contains_key(term@)
                    &&& ids@.no_duplicates()
                    &&& ids@.to_set() == self.terms()[term@]
                },
                None => !self.terms().contains_key(term@),
            },
    ;

    /// The number of terms.
    fn count(&self) -> (n: usize)
        requires
            self.sound(),
        ensures
            n == self.terms().dom().len(),
    ;

    /// Enters `id` under `term`.
    fn enter(&mut self, term: String, id: i32)
        requires
            old(self).sound(),
        ensures
            final(self).sound(),
            final(self).terms() == with_posting(old(self).terms(), term@, id),
    ;

    /// Enters every id of `ids` under `term`. The term is held afterwards
    /// even where `ids` is empty.
    fn absorb(&mut self, term: String, ids: &Vec<i32>)
        requires
            old(self).sound(),
        ensures
            final(self).sound(),
            final(self).terms() == with_entry(old(self).terms(), (term@, ids@)),
    ;

    /// The terms with their ids, as a list of entries in no particular
    /// order.
    fn entries(&self) -> (entries: Vec<(String, Vec<i32>)>)
        requires
            self.sound(),
        ensures
            postings_of_entries(entry_views(entries@)) == self.terms(),
    ;
}

impl Postings for InvertedIndex {
    open spec fn terms(&self) -> Map<Seq<char>, Set<i32>> {
        self@
    }

    open spec fn sound(&self) -> bool {
        self.wf()
    }

    fn ids(&self, term: &str) -> (found: Option<Vec<i32>>) {
        match self.get(term) {
            Some(set) => Some(collect_ids(set)),
            None => None,
        }
    }

    fn count(&self) -> (n: usize) {
        self.len()
    }

    fn enter(&mut self, term: String, id: i32) {
        self.add(term, id);
    }

    fn absorb(&mut self, term: String, ids: &Vec<i32>) {
        let set = collect_set(ids);
        self.add_all(term, set);
    }

    fn entries(&self) -> (entries: Vec<(String, Vec<i32>)>) {
        let mut entries: Vec<(String, Vec<i32>)> = Vec::new();
        let mut k: usize = 0;
        proof {
            assert(self.upto(0) =~= Map::<Seq<char>, Set<i32>>::empty());
        }
        while k < self.postings.len()
            invariant
                self.wf(),
                k <= self.postings@.len(),
                entries@.len() == k,
                postings_of_entries(entry_views(entries@)) == self.upto(k as int),
            decreases self.postings@.len() - k,
        {
            let posting = &self.postings[k];
            let ids = collect_ids(&posting.ids);
            let ghost before = entry_views(entries@);
            entries.push((posting.term.clone(), ids));
            proof {
                let grown = entry_views(entries@);
                assert(grown.drop_last() =~= before);
                assert(grown.last() == (posting.term@, ids@));
                assert(!self.upto(k as int).contains_key(posting.term@));
                assert(Set::<i32>::empty().union(ids@.to_set()) =~= posting.ids@);
                assert(with_entry(self.upto(k as int), grown.last()) =~= self.upto(k + 1));
            }
            k = k + 1;
        }
        proof {
            assert(self.upto(self.postings@.len() as int) =~= self@);
        }
        entries
    }
}

/// The ids of a set, each once.
fn collect_ids(set: &HashSet<i32>) -> (ids: Vec<i32>)
    ensures
        ids@.no_duplicates(),
        ids@.to_set() == set@,
{
    let mut ids: Vec<i32> = Vec::new();
    for id in it: set.iter()
        invariant
            it.seq().unref().to_set() == set@,
            it.seq().unref().no_duplicates(),
            ids@ == it.seq().unref().take(it.index()),
            it.index() == it.seq().len() ==> ids@.to_set() == set@ && ids@.no_duplicates(),
    {
        ids.push(*id);
        assert(ids@ =~= it.seq().unref().take(it.index() + 1));
        assert(it.index() + 1 == it.seq().len() ==> ids@ =~= it.seq().unref());
    }
    ids
}

/// The set of a list of ids.
fn collect_set(ids: &Vec<i32>) -> (set: HashSet<i32>)
    ensures
        set@ == ids@.to_set(),
{
    let mut set: HashSet<i32> = HashSet::new();
    let mut j: usize = 0;
    proof {
        assert(ids@.take(0).to_set() =~= Set::<i32>::empty());
    }
    while j < ids.len()
        invariant
            j <= ids@.len(),
            set@ == ids@.take(j as int).to_set(),
        decreases ids@.len() - j,
    {
        set.insert(ids[j]);
        proof {
            assert(ids@.take(j + 1) =~= ids@.take(j as int).push(ids@[j as int]));
            ids@.take(j as int).lemma_push_to_set_commute(ids@[j as int]);
        }
        j = j + 1;
    }
    assert(ids@.take(ids@.len() as int) =~= ids@);
    set
}

impl InvertedIndex {
    /// Each term has one slot, and the slot holds the term.
    pub closed spec fn wf(&self) -> bool {
        &&& forall|term: Seq<char>| #[trigger]
            self.slots@.contains_key(term) ==> self.slots@[term] < self.postings@.len()
                && self.postings@[self.slots@[term] as int].term@ == term
        &&& forall|k: int|
            0 <= k < self.postings@.len() ==> self.slots@.contains_key(
                (#[trigger] self.postings@[k]).term@,
            ) && self.slots@[self.postings@[k].term@] == k
    }

    /// The map of the terms in the first `count` slots.
    closed spec fn upto(&self, count: int) -> Map<Seq<char>, Set<i32>> {
        Map::new(
            |term: Seq<char>| self.slots@.contains_key(term) && self.slots@[term] < count,
            |term: Seq<char>| self.postings@[self.slots@[term] as int].ids@,
        )
    }

    /// An index without terms.
    pub fn new() -> (index: InvertedIndex)
        ensures
            index.wf(),
            index@ == Map::<Seq<char>, Set<i32>>::empty(),
    {
        let index = InvertedIndex { slots: StringHashMap::new(), postings: Vec::new() };
        assert(index@ =~= Map::<Seq<char>, Set<i32>>::empty());
        index
    }

    /// The number of terms.
    pub fn len(&self) -> (n: usize)
        requires
            self.wf(),
        ensures
            n == self@.dom().len(),
    {
        assert(self@.dom() =~= self.slots@.dom());
        self.slots.len()
    }

    /// The documents of `term`, if the index holds the term.
    pub fn get(&self, term: &str) -> (found: Option<&HashSet<i32>>)
        requires
            self.wf(),
        ensures
            match found {
                Some(ids) => self@.contains_key(term@) && ids@ == self@[term@],
                None => !self@.contains_key(term@),
            },
    {
        match self.slots.get(term) {
            Some(slot) => Some(&self.postings[*slot].ids),
            None => None,
        }
    }

    /// Enters every id of `ids` under `term`.
    pub fn add_all(&mut self, term: String, ids: HashSet<i32>)
        requires
            old(self).wf(),
        ensures
            final(self).wf(),
            final(self)@ == old(self)@.insert(term@, ids_of(old(self)@, term@).union(ids@)),
    {
        let ghost before = *self;
        match self.slots.get(term.as_str()) {
            Some(slot) => {
                let slot = *slot;
                let ghost held = self.postings@[slot as int].ids@;
                let ghost mut walked: Seq<i32> = Seq::empty();
                for id in it: ids.iter()
                    invariant
                        it.seq().unref().to_set() == ids@,
                        walked == it.seq().unref().take(it.index()),
                        it.index() == it.seq().len() ==> walked.to_set() == ids@,
                        self.slots == before.slots,
                        self.postings@.len() == before.postings@.len(),
                        slot < self.postings@.len(),
                        forall|k: int|
                            0 <= k < self.postings@.len() ==> (#[trigger] self.postings@[k]).term
                                == before.postings@[k].term,
                        forall|k: int|
                            0 <= k < self.postings@.len() && k != slot ==> (
                            #[trigger] self.postings@[k]).ids == before.postings@[k].ids,
                        self.postings@[slot as int].ids@ == held.union(walked.to_set()),
                {
                    let ghost grown = walked.push(*id);
                    self.postings[slot].ids.insert(*id);
                    assert(it.seq().unref().take(it.index() + 1) =~= grown);
                    assert(grown.to_set() =~= walked.to_set().insert(*id)) by {
                        walked.lemma_push_to_set_commute(*id);
                    }
                    assert(held.union(walked.to_set()).insert(*id) =~= held.union(grown.to_set()));
                    assert(it.index() + 1 == it.seq().len() ==> grown =~= it.seq().unref());
                    proof {
                        walked = grown;
                    }
                }
                proof {
                    assert(self@ =~= before@.insert(term@, ids_of(before@, term@).union(ids@)));
                }
            },
            None => {
                let slot = self.postings.len();
                self.postings.push(Posting { term: term.clone(), ids });
                self.slots.insert(term, slot);
                assert(Set::<i32>::empty().union(ids@) =~= ids@);
                assert(self@ =~= before@.insert(term@, ids_of(before@, term@).union(ids@)));
            },
        }
    }

    /// Takes over every posting of `other`.
    pub fn merge(&mut self, other: InvertedIndex)
        requires
            old(self).wf(),
            other.wf(),
        ensures
            final(self).wf(),
            final(self)@ == merged(old(self)@, other@),
    {
        let ghost before = *self;
        let ghost source = other;
        let mut other = other;
        while other.postings.len() > 0
            invariant
                self.wf(),
                source.wf(),
                other.slots == source.slots,
                other.postings@.len() <= source.postings@.len(),
                other.postings@ == source.postings@.take(other.postings@.len() as int),
                forall|term: Seq<char>| #[trigger]
                    self@.contains_key(term) <==> before@.contains_key(term) || (
                    source.slots@.contains_key(term) && source.slots@[term]
                        >= other.postings@.len()),
                forall|term: Seq<char>| #[trigger]
                    self@.contains_key(term) ==> self@[term] == ids_of(before@, term).union(
                        if source.slots@.contains_key(term) && source.slots@[term]
                            >= other.postings@.len() {
                            source@[term]
                        } else {
                            Set::empty()
                        },
                    ),
            decreases other.postings@.len(),
        {
            let ghost held = *self;
            let ghost left = other.postings@.len();
            let posting = other.postings.pop().unwrap();
            proof {
                assert(posting == source.postings@[left - 1]);
                assert(source.slots@.contains_key(posting.term@));
                assert(source@[posting.term@] == posting.ids@);
                assert(other.postings@ =~= source.postings@.take(left - 1));
            }
            self.add_all(posting.term, posting.ids);
            proof {
                assert forall|term: Seq<char>| #[trigger]
                    self@.contains_key(term) implies self@[term] == ids_of(before@, term).union(
                    if source.slots@.contains_key(term) && source.slots@[term] >= left - 1 {
                        source@[term]
                    } else {
                        Set::empty()
                    },
                ) by {
                    if term == posting.term@ {
                        if held@.contains_key(term) {
                            assert(held@[term] =~= ids_of(before@, term));
                        }
                        assert(self@[term] =~= ids_of(before@, term).union(source@[term]));
                    } else {
                        assert(held@.contains_key(term));
                        assert(self@[term] == held@[term]);
                    }
                }
            }
        }
        proof {
            assert forall|term: Seq<char>| #[trigger] self@.contains_key(term) implies self@[term]
                =~= merged(before@, source@)[term] by {
                if !source@.contains_key(term) {
                    assert(self@[term] =~= ids_of(before@, term));
                }
            }
            assert(self@ =~= merged(before@, source@));
        }
    }

    /// Enters `id` under `term`.
    pub fn add(&mut self, term: String, id: i32)
        requires
            old(self).wf(),
        ensures
            final(self).wf(),
            final(self)@ == with_posting(old(self)@, term@, id),
    {
        let ghost before = *self;
        match self.slots.get(term.as_str()) {
            Some(slot) => {
                let slot = *slot;
                self.postings[slot].ids.insert(id);
                assert(self@ =~= with_posting(before@, term@, id));
            },
            None => {
                let slot = self.postings.len();
                let mut ids: HashSet<i32> = HashSet::new();
                ids.insert(id);
                self.postings.push(Posting { term: term.clone(), ids });
                self.slots.insert(term, slot);
                assert(self@ =~= with_posting(before@, term@, id));
            },
        }
    }
}

} // verus!
