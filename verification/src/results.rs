//! What a search has found: the highest count, the shift sequences that have it, and those that
//! hit the target.

use vstd::prelude::*;

use crate::tree::{hits, Tally};

verus! {

/// The shift sequences of a list.
pub open spec fn paths(list: Seq<Vec<usize>>) -> Seq<Seq<usize>> {
    Seq::new(list.len(), |i: int| list[i]@)
}

#[derive(Debug)]
pub struct SharedResults {
    /// The highest count of a leaf.
    pub max_count: usize,
    /// How many leaves have that count.
    pub results: usize,
    /// The leaves that have it.
    pub shifts: Vec<Vec<usize>>,
    /// How many leaves hit the target.
    pub target_results: usize,
    /// The leaves that hit the target.
    pub target_shifts: Vec<Vec<usize>>,
}

impl View for SharedResults {
    type V = Tally;

    open spec fn view(&self) -> Tally {
        Tally {
            max: self.max_count as nat,
            shifts: paths(self.shifts@),
            target_shifts: paths(self.target_shifts@),
        }
    }
}

impl Default for SharedResults {
    fn default() -> (results: Self)
        ensures
            results.wf(),
            results@ == Tally::empty(),
            results.max_count == 0,
            results.results == 0,
            results.shifts@.len() == 0,
            results.target_results == 0,
            results.target_shifts@.len() == 0,
    {
        let results = SharedResults {
            max_count: 0,
            results: 0,
            shifts: Vec::new(),
            target_results: 0,
            target_shifts: Vec::new(),
        };
        assert(results@.shifts =~= Tally::empty().shifts);
        assert(results@.target_shifts =~= Tally::empty().target_shifts);
        results
    }
}

impl Clone for SharedResults {
    fn clone(&self) -> (copy: Self)
        ensures
            copy@ == self@,
            copy.wf() == self.wf(),
    {
        SharedResults {
            max_count: self.max_count,
            results: self.results,
            shifts: copy_paths(&self.shifts),
            target_results: self.target_results,
            target_shifts: copy_paths(&self.target_shifts),
        }
    }
}

impl Tally {
    /// The tally after a leaf with the given count, where a leaf that is listed already is not
    /// listed again.
    pub open spec fn record_once(
        self,
        target: Option<usize>,
        count: nat,
        leaf: Seq<usize>,
    ) -> Tally {
        Tally {
            max: if count > self.max {
                count
            } else {
                self.max
            },
            shifts: if count > self.max {
                seq![leaf]
            } else if count == self.max && !self.shifts.contains(leaf) {
                self.shifts.push(leaf)
            } else {
                self.shifts
            },
            target_shifts: if hits(target, count) && !self.target_shifts.contains(leaf) {
                self.target_shifts.push(leaf)
            } else {
                self.target_shifts
            },
        }
    }
}

impl Tally {
    /// The tally after several leaves that all have the given count.
    pub open spec fn record_each(
        self,
        target: Option<usize>,
        count: nat,
        leaves: Seq<Seq<usize>>,
    ) -> Tally
        decreases leaves.len(),
    {
        if leaves.len() == 0 {
            self
        } else {
            self.record_each(target, count, leaves.drop_last()).record_once(
                target,
                count,
                leaves.last(),
            )
        }
    }

    /// The tally after all that another one has found.
    pub open spec fn absorb(self, target: Option<usize>, other: Tally) -> Tally {
        let best = self.record_each(target, other.max, other.shifts);
        match target {
            Some(t) => best.record_each(target, t as nat, other.target_shifts),
            None => best,
        }
    }
}

/// A copy of a list of shift sequences.
pub fn copy_paths(list: &Vec<Vec<usize>>) -> (copy: Vec<Vec<usize>>)
    ensures
        copy@.len() == list@.len(),
        forall|i: int| 0 <= i < list@.len() ==> (#[trigger] copy@[i])@ == list@[i]@,
        paths(copy@) == paths(list@),
{
    let mut copy: Vec<Vec<usize>> = Vec::new();
    let mut i: usize = 0;
    while i < list.len()
        invariant
            0 <= i <= list@.len(),
            copy@.len() == i,
            forall|k: int| 0 <= k < i ==> (#[trigger] copy@[k])@ == list@[k]@,
        decreases list@.len() - i,
    {
        copy.push(copy_path(&list[i]));
        i = i + 1;
    }
    assert(paths(copy@) =~= paths(list@));
    copy
}

/// A copy of a shift sequence.
pub fn copy_path(path: &Vec<usize>) -> (copy: Vec<usize>)
    ensures
        copy@ == path@,
{
    let copy = path.clone();
    assert(copy@ =~= path@);
    copy
}

/// Two sequences of numbers are the same.
pub fn same_path(a: &Vec<usize>, b: &Vec<usize>) -> (same: bool)
    ensures
        same == (a@ == b@),
{
    if a.len() != b.len() {
        return false;
    }
    let mut i: usize = 0;
    while i < a.len()
        invariant
            a@.len() == b@.len(),
            0 <= i <= a@.len(),
            forall|k: int| 0 <= k < i ==> a@[k] == b@[k],
        decreases a@.len() - i,
    {
        if a[i] != b[i] {
            return false;
        }
        i = i + 1;
    }
    assert(a@ =~= b@);
    true
}

/// A list holds the given shift sequence.
pub fn lists_path(list: &Vec<Vec<usize>>, path: &Vec<usize>) -> (found: bool)
    ensures
        found == paths(list@).contains(path@),
        found == exists|i: int| 0 <= i < list@.len() && (#[trigger] list@[i])@ == path@,
{
    let mut i: usize = 0;
    while i < list.len()
        invariant
            0 <= i <= list@.len(),
            forall|k: int| 0 <= k < i ==> paths(list@)[k] != path@,
            forall|k: int| 0 <= k < i ==> (#[trigger] list@[k])@ != path@,
        decreases list@.len() - i,
    {
        if same_path(&list[i], path) {
            assert(paths(list@)[i as int] == path@);
            return true;
        }
        assert(paths(list@)[i as int] != path@);
        i = i + 1;
    }
    false
}

/// A list with one shift sequence more.
pub proof fn lemma_paths_push(list: Seq<Vec<usize>>, path: Vec<usize>)
    ensures
        paths(list.push(path)) == paths(list).push(path@),
{
    assert(paths(list.push(path)) =~= paths(list).push(path@));
}

impl SharedResults {
    /// Both counters say how long their lists are.
    pub open spec fn wf(&self) -> bool {
        &&& self.results == self.shifts@.len()
        &&& self.target_results == self.target_shifts@.len()
    }

    /// Takes up a leaf with the given count, unless it is listed already.
    pub fn record_best(&mut self, target: Option<usize>, count: usize, key: &Vec<usize>)
        requires
            old(self).wf(),
        ensures
            final(self).wf(),
            final(self)@ == old(self)@.record_once(target, count as nat, key@),
            final(self).max_count == (if count > old(self).max_count {
                count
            } else {
                old(self).max_count
            }),
            final(self).results == final(self).shifts@.len(),
            count > old(self).max_count ==> {
                &&& final(self).shifts@.len() == 1
                &&& final(self).shifts@[0]@ == key@
            },
            count <= old(self).max_count ==> {
                &&& final(self).shifts@.len() == old(self).shifts@.len() + (if count
                    == old(self).max_count
                    && !(exists|i: int|
                    0 <= i < old(self).shifts@.len() && (#[trigger] old(self).shifts@[i])@
                        == key@) {
                    1int
                } else {
                    0
                })
                &&& forall|i: int|
                    0 <= i < old(self).shifts@.len() ==> (#[trigger] final(self).shifts@[i])@
                        == old(self).shifts@[i]@
                &&& final(self).shifts@.len() > old(self).shifts@.len()
                    ==> final(self).shifts@.last()@ == key@
            },
            final(self).target_results == final(self).target_shifts@.len(),
            final(self).target_shifts@.len() == old(self).target_shifts@.len() + (if target
                == Some(count)
                && !(exists|i: int|
                0 <= i < old(self).target_shifts@.len() && (
                #[trigger] old(self).target_shifts@[i])@ == key@) {
                1int
            } else {
                0
            }),
            forall|i: int|
                0 <= i < old(self).target_shifts@.len() ==> (
                #[trigger] final(self).target_shifts@[i])@ == old(self).target_shifts@[i]@,
            final(self).target_shifts@.len() > old(self).target_shifts@.len()
                ==> final(self).target_shifts@.last()@ == key@,
    {
        let ghost before = *self;
        if let Some(t) = target {
            if count == t && !lists_path(&self.target_shifts, key) {
                let copy = copy_path(key);
                proof {
                    lemma_paths_push(self.target_shifts@, copy);
                }
                self.target_shifts.push(copy);
                self.target_results = self.target_shifts.len();
            }
        }
        if count > self.max_count {
            self.max_count = count;
            let copy = copy_path(key);
            self.shifts = Vec::new();
            proof {
                lemma_paths_push(self.shifts@, copy);
                assert(paths(self.shifts@) =~= seq![]);
            }
            self.shifts.push(copy);
            self.results = 1;
            assert(self@.shifts =~= seq![key@]);
        } else if count == self.max_count && !lists_path(&self.shifts, key) {
            let copy = copy_path(key);
            proof {
                lemma_paths_push(self.shifts@, copy);
            }
            self.shifts.push(copy);
            self.results = self.shifts.len();
        }
    }

    /// Takes up leaves that all have the given count, unless they are listed already.
    fn record_each(&mut self, target: Option<usize>, count: usize, keys: &Vec<Vec<usize>>)
        requires
            old(self).wf(),
        ensures
            final(self).wf(),
            final(self)@ == old(self)@.record_each(target, count as nat, paths(keys@)),
    {
        let ghost before = self@;
        let ghost leaves = paths(keys@);
        let mut i: usize = 0;
        assert(leaves.take(0) =~= seq![]);
        while i < keys.len()
            invariant
                leaves == paths(keys@),
                0 <= i <= keys@.len(),
                self.wf(),
                self@ == before.record_each(target, count as nat, leaves.take(i as int)),
            decreases keys@.len() - i,
        {
            self.record_best(target, count, &keys[i]);
            proof {
                assert(leaves.take(i as int + 1).drop_last() =~= leaves.take(i as int));
                assert(leaves.take(i as int + 1).last() == keys@[i as int]@);
            }
            i = i + 1;
        }
        assert(leaves.take(i as int) =~= leaves);
    }

    /// Takes up all that another search has found.
    pub fn absorb(&mut self, target: Option<usize>, other: &SharedResults)
        requires
            old(self).wf(),
        ensures
            final(self).wf(),
            final(self)@ == old(self)@.absorb(target, other@),
    {
        self.record_each(target, other.max_count, &other.shifts);
        if let Some(t) = target {
            self.record_each(target, t, &other.target_shifts);
        }
    }
}

impl Tally {
    /// The tally after calls that each record a count and a key, in the given order.
    pub open spec fn record_calls(
        self,
        target: Option<usize>,
        calls: Seq<(nat, Seq<usize>)>,
    ) -> Tally
        decreases calls.len(),
    {
        if calls.len() == 0 {
            self
        } else {
            let (count, key) = calls.last();
            self.record_calls(target, calls.drop_last()).record_once(target, count, key)
        }
    }
}

/// One of the calls records the key with the given count.
pub open spec fn called(calls: Seq<(nat, Seq<usize>)>, count: nat, key: Seq<usize>) -> bool {
    calls.contains((count, key))
}

/// One of the calls records the key with the count of the target.
pub open spec fn called_on_target(
    target: Option<usize>,
    calls: Seq<(nat, Seq<usize>)>,
    key: Seq<usize>,
) -> bool {
    target matches Some(t) && called(calls, t as nat, key)
}

proof fn lemma_one_more_call(calls: Seq<(nat, Seq<usize>)>, count: nat, key: Seq<usize>)
    requires
        calls.len() > 0,
    ensures
        called(calls, count, key) <==> calls.last() == (count, key) || called(
            calls.drop_last(),
            count,
            key,
        ),
{
    let rest = calls.drop_last();
    if called(rest, count, key) {
        let i = choose|i: int| 0 <= i < rest.len() && rest[i] == (count, key);
        assert(calls[i] == (count, key));
    }
    if called(calls, count, key) && calls.last() != (count, key) {
        let i = choose|i: int| 0 <= i < calls.len() && calls[i] == (count, key);
        assert(rest[i] == (count, key));
    }
    assert(calls[calls.len() - 1] == calls.last());
}

/// What a list with one key more contains.
pub proof fn lemma_push_contains(list: Seq<Seq<usize>>, key: Seq<usize>)
    ensures
        forall|other: Seq<usize>| #[trigger]
            list.push(key).contains(other) <==> other == key || list.contains(other),
        list.no_duplicates() && !list.contains(key) ==> list.push(key).no_duplicates(),
{
    let longer = list.push(key);
    assert forall|other: Seq<usize>| #[trigger] longer.contains(other) <==> other == key
        || list.contains(other) by {
        assert(longer[list.len() as int] == key);
        if list.contains(other) {
            let i = choose|i: int| 0 <= i < list.len() && list[i] == other;
            assert(longer[i] == other);
        }
        if longer.contains(other) && other != key {
            let i = choose|i: int| 0 <= i < longer.len() && longer[i] == other;
            assert(list[i] == other);
        }
    }
}

/// Whatever the order in which leaves are recorded, from nothing on: the highest count is the
/// greatest of all calls, exactly the keys that were recorded with it are listed, and exactly the
/// keys that were recorded with the target's count are listed as hits, each once.
pub proof fn law_recording_keeps_every_best_key(
    target: Option<usize>,
    calls: Seq<(nat, Seq<usize>)>,
)
    ensures
        ({
            let found = Tally::empty().record_calls(target, calls);
            &&& forall|i: int| 0 <= i < calls.len() ==> (#[trigger] calls[i]).0 <= found.max
            &&& if calls.len() == 0 {
                found.max == 0
            } else {
                exists|i: int| 0 <= i < calls.len() && (#[trigger] calls[i]).0 == found.max
            }
            &&& forall|key: Seq<usize>| #[trigger]
                found.shifts.contains(key) <==> called(calls, found.max, key)
            &&& forall|key: Seq<usize>| #[trigger]
                found.target_shifts.contains(key) <==> called_on_target(target, calls, key)
            &&& forall|key: Seq<usize>| #[trigger]
                found.shifts.contains(key) <==> calls.contains((found.max, key))
            &&& forall|key: Seq<usize>| #[trigger]
                found.target_shifts.contains(key) <==> (target matches Some(t) && calls.contains(
                    (t as nat, key),
                ))
            &&& found.shifts.no_duplicates()
            &&& found.target_shifts.no_duplicates()
        }),
    decreases calls.len(),
{
    if calls.len() > 0 {
        let rest = calls.drop_last();
        let (count, key) = calls.last();
        let before = Tally::empty().record_calls(target, rest);
        let found = Tally::empty().record_calls(target, calls);
        law_recording_keeps_every_best_key(target, rest);
        assert(found == before.record_once(target, count, key));
        lemma_push_contains(before.shifts, key);
        lemma_push_contains(before.target_shifts, key);
        lemma_push_contains(Seq::empty(), key);
        assert(Seq::<Seq<usize>>::empty().push(key) =~= seq![key]);
        assert forall|i: int| 0 <= i < calls.len() implies (#[trigger] calls[i]).0 <= found.max by {
            if i < rest.len() {
                assert(rest[i].0 <= before.max);
            }
        }
        assert(exists|i: int| 0 <= i < calls.len() && (#[trigger] calls[i]).0 == found.max) by {
            if count >= before.max {
                assert(calls[calls.len() - 1].0 == found.max);
            } else {
                let i = choose|i: int| 0 <= i < rest.len() && (#[trigger] rest[i]).0 == before.max;
                assert(calls[i].0 == found.max);
            }
        }
        assert forall|other: Seq<usize>| #[trigger] found.shifts.contains(other) <==> called(
            calls,
            found.max,
            other,
        ) by {
            lemma_one_more_call(calls, found.max, other);
            if count > before.max && called(rest, count, other) {
                let i = choose|i: int| 0 <= i < rest.len() && rest[i] == (count, other);
                assert(rest[i].0 <= before.max);
            }
        }
        assert forall|other: Seq<usize>| #[trigger]
            found.target_shifts.contains(other) <==> called_on_target(target, calls, other) by {
            match target {
                Some(t) => {
                    lemma_one_more_call(calls, t as nat, other);
                },
                None => {},
            }
        }
    }
}

/// The order of the calls does not matter: the same calls in another order give the same highest
/// count and the same keys, and as many of them.
pub proof fn law_order_of_recording_does_not_matter(
    target: Option<usize>,
    calls: Seq<(nat, Seq<usize>)>,
    other: Seq<(nat, Seq<usize>)>,
)
    requires
        calls.to_multiset() == other.to_multiset(),
    ensures
        ({
            let a = Tally::empty().record_calls(target, calls);
            let b = Tally::empty().record_calls(target, other);
            &&& a.max == b.max
            &&& a.shifts.to_set() == b.shifts.to_set()
            &&& a.shifts.len() == b.shifts.len()
            &&& a.target_shifts.to_set() == b.target_shifts.to_set()
            &&& a.target_shifts.len() == b.target_shifts.len()
        }),
{
    calls.to_multiset_ensures();
    other.to_multiset_ensures();
    let a = Tally::empty().record_calls(target, calls);
    let b = Tally::empty().record_calls(target, other);
    law_recording_keeps_every_best_key(target, calls);
    law_recording_keeps_every_best_key(target, other);
    assert forall|call: (nat, Seq<usize>)| #[trigger] calls.contains(call) <==> other.contains(
        call,
    ) by {
        assert(calls.contains(call) <==> calls.to_multiset().count(call) > 0);
        assert(other.contains(call) <==> other.to_multiset().count(call) > 0);
    }
    assert(calls.len() == other.len());
    assert(a.max == b.max) by {
        if calls.len() > 0 {
            let i = choose|i: int| 0 <= i < calls.len() && (#[trigger] calls[i]).0 == a.max;
            assert(calls.contains(calls[i]));
            assert(other.contains(calls[i]));
            let k = choose|k: int| 0 <= k < other.len() && other[k] == calls[i];
            assert(other[k].0 <= b.max);
            let j = choose|j: int| 0 <= j < other.len() && (#[trigger] other[j]).0 == b.max;
            assert(other.contains(other[j]));
            assert(calls.contains(other[j]));
            let l = choose|l: int| 0 <= l < calls.len() && calls[l] == other[j];
            assert(calls[l].0 <= a.max);
        }
    }
    assert forall|key: Seq<usize>| #[trigger] a.shifts.contains(key) <==> b.shifts.contains(
        key,
    ) by {
        assert(called(calls, a.max, key) <==> called(other, a.max, key));
    }
    assert forall|key: Seq<usize>| #[trigger]
        a.target_shifts.contains(key) <==> b.target_shifts.contains(key) by {
        match target {
            Some(t) => {
                assert(called(calls, t as nat, key) <==> called(other, t as nat, key));
            },
            None => {},
        }
    }
    assert(a.shifts.to_set() =~= b.shifts.to_set());
    assert(a.target_shifts.to_set() =~= b.target_shifts.to_set());
    a.shifts.unique_seq_to_set();
    b.shifts.unique_seq_to_set();
    a.target_shifts.unique_seq_to_set();
    b.target_shifts.unique_seq_to_set();
}

proof fn lemma_record_each(
    from: Tally,
    target: Option<usize>,
    count: nat,
    leaves: Seq<Seq<usize>>,
    key: Seq<usize>,
)
    ensures
        ({
            let after = from.record_each(target, count, leaves);
            &&& after.max == (if leaves.len() > 0 && count > from.max {
                count
            } else {
                from.max
            })
            &&& after.shifts.contains(key) <==> {
                ||| after.max == from.max && from.shifts.contains(key)
                ||| after.max == count && leaves.contains(key)
            }
            &&& after.target_shifts.contains(key) <==> {
                ||| from.target_shifts.contains(key)
                ||| target matches Some(t) && count == t && leaves.contains(key)
            }
        }),
    decreases leaves.len(),
{
    if leaves.len() > 0 {
        let rest = leaves.drop_last();
        let last = leaves.last();
        let before = from.record_each(target, count, rest);
        lemma_record_each(from, target, count, rest, key);
        lemma_push_contains(before.shifts, last);
        lemma_push_contains(before.target_shifts, last);
        lemma_push_contains(Seq::empty(), last);
        assert(Seq::<Seq<usize>>::empty().push(last) =~= seq![last]);
        assert(leaves.contains(key) <==> key == last || rest.contains(key)) by {
            assert(leaves =~= rest.push(last));
            lemma_push_contains(rest, last);
        }
    }
}

/// Merging two findings keeps the higher count, with the keys of those that have it, and all keys
/// that hit the target. The other findings list their hits among their best keys where the target is
/// their highest count.
pub proof fn law_merging_keeps_the_best_of_both(
    one: Tally,
    other: Tally,
    target: Option<usize>,
    key: Seq<usize>,
)
    requires
        other.max > 0 ==> other.shifts.len() > 0,
        target matches Some(t) ==> other.target_shifts.len() > 0 ==> t <= other.max,
        target matches Some(t) ==> t == other.max ==> forall|k: Seq<usize>| #[trigger]
            other.target_shifts.contains(k) ==> other.shifts.contains(k),
    ensures
        ({
            let merged = one.absorb(target, other);
            &&& merged.max == (if other.max > one.max {
                other.max
            } else {
                one.max
            })
            &&& merged.shifts.contains(key) <==> {
                ||| one.max == merged.max && one.shifts.contains(key)
                ||| other.max == merged.max && other.shifts.contains(key)
            }
            &&& merged.target_shifts.contains(key) <==> {
                ||| one.target_shifts.contains(key)
                ||| target is Some && other.target_shifts.contains(key)
                ||| target matches Some(t) && t == other.max && other.shifts.contains(key)
            }
        }),
{
    let best = one.record_each(target, other.max, other.shifts);
    lemma_record_each(one, target, other.max, other.shifts, key);
    if let Some(t) = target {
        lemma_record_each(best, target, t as nat, other.target_shifts, key);
        if other.target_shifts.len() > 0 && best.max == t {
            assert(t == other.max);
        }
    }
}

} // verus!
