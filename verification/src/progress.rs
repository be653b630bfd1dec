//! Which jobs of a parallel search are completed, and where the others stand.

use vstd::prelude::*;

use crate::checkpoint::{Frame, ParallelInProgress};

verus! {

/// The position of the job `work_index`: the last entry that a list has for it.
pub open spec fn latest(list: Seq<ParallelInProgress>, work_index: usize) -> Option<
    (Seq<Frame>, Seq<usize>),
>
    decreases list.len(),
{
    if list.len() == 0 {
        None
    } else if list.last().work_index == work_index {
        Some((list.last().stack@, list.last().key@))
    } else {
        latest(list.drop_last(), work_index)
    }
}

/// The numbers strictly increase.
pub open spec fn increasing(list: Seq<usize>) -> bool {
    forall|i: int, j: int| 0 <= i < j < list.len() ==> #[trigger] list[i] < #[trigger] list[j]
}

/// The jobs of a list.
pub open spec fn work_indices(list: Seq<ParallelInProgress>) -> Seq<usize> {
    Seq::new(list.len(), |i: int| list[i].work_index)
}

/// The position of a job is what the last entry for it says, and there is none where no entry is for
/// it.
pub proof fn law_last_entry_counts(list: Seq<ParallelInProgress>, work_index: usize)
    ensures
        latest(list, work_index) is None <==> forall|i: int|
            0 <= i < list.len() ==> (#[trigger] list[i]).work_index != work_index,
        forall|i: int|
            0 <= i < list.len() && (#[trigger] list[i]).work_index == work_index && (forall|j: int|
                i < j < list.len() ==> (#[trigger] list[j]).work_index != work_index) ==> latest(
                list,
                work_index,
            ) == Some((list[i].stack@, list[i].key@)),
    decreases list.len(),
{
    if list.len() > 0 {
        let rest = list.drop_last();
        let last = list.len() - 1;
        law_last_entry_counts(rest, work_index);
        assert(list[last] == list.last());
        if latest(list, work_index) is None {
            assert forall|i: int| 0 <= i < list.len() implies (#[trigger] list[i]).work_index
                != work_index by {
                if i < last {
                    assert(rest[i].work_index != work_index);
                }
            }
        }
        if forall|i: int| 0 <= i < list.len() ==> (#[trigger] list[i]).work_index != work_index {
            assert forall|i: int| 0 <= i < rest.len() implies (#[trigger] rest[i]).work_index
                != work_index by {
                assert(list[i].work_index != work_index);
            }
        }
        assert forall|i: int|
            0 <= i < list.len() && (#[trigger] list[i]).work_index == work_index && (forall|j: int|
                i < j < list.len() ==> (#[trigger] list[j]).work_index != work_index) implies latest(
            list,
            work_index,
        ) == Some((list[i].stack@, list[i].key@)) by {
            if i < last {
                assert(list[last].work_index != work_index);
                assert forall|j: int| i < j < rest.len() implies (#[trigger] rest[j]).work_index
                    != work_index by {
                    assert(list[j].work_index != work_index);
                }
                assert(rest[i].work_index == work_index);
            }
        }
    }
}

pub proof fn lemma_latest_some(list: Seq<ParallelInProgress>, i: int)
    requires
        increasing(work_indices(list)),
        0 <= i < list.len(),
    ensures
        latest(list, list[i].work_index) == Some((list[i].stack@, list[i].key@)),
    decreases list.len(),
{
    if i < list.len() - 1 {
        let all = work_indices(list);
        assert(all[i] < all[list.len() - 1]);
        let rest = list.drop_last();
        assert forall|a: int, b: int| 0 <= a < b < work_indices(rest).len() implies
            #[trigger] work_indices(rest)[a] < #[trigger] work_indices(rest)[b] by {
            assert(all[a] < all[b]);
        }
        lemma_latest_some(rest, i);
    }
}

pub proof fn lemma_latest_none(list: Seq<ParallelInProgress>, work_index: usize)
    ensures
        latest(list, work_index) is None <==> !work_indices(list).contains(work_index),
    decreases list.len(),
{
    let all = work_indices(list);
    if list.len() > 0 {
        let rest = list.drop_last();
        lemma_latest_none(rest, work_index);
        assert(all[list.len() - 1] == list.last().work_index);
        if work_indices(rest).contains(work_index) {
            let i = choose|i: int|
                0 <= i < work_indices(rest).len() && work_indices(rest)[i] == work_index;
            assert(all[i] == work_index);
        }
        if all.contains(work_index) && list.last().work_index != work_index {
            let i = choose|i: int| 0 <= i < all.len() && all[i] == work_index;
            assert(work_indices(rest)[i] == work_index);
        }
    }
}

/// Two lists agree on a job that both have an entry with the same content for, or neither an entry.
proof fn lemma_latest_same(
    a: Seq<ParallelInProgress>,
    b: Seq<ParallelInProgress>,
    work_index: usize,
)
    requires
        increasing(work_indices(a)),
        increasing(work_indices(b)),
        forall|i: int|
            0 <= i < a.len() && a[i].work_index == work_index ==> exists|j: int|
                0 <= j < b.len() && #[trigger] b[j] == #[trigger] a[i],
        forall|j: int|
            0 <= j < b.len() && b[j].work_index == work_index ==> exists|i: int|
                0 <= i < a.len() && #[trigger] a[i] == #[trigger] b[j],
    ensures
        latest(a, work_index) == latest(b, work_index),
{
    lemma_latest_none(a, work_index);
    lemma_latest_none(b, work_index);
    if work_indices(a).contains(work_index) {
        let i = choose|i: int| 0 <= i < work_indices(a).len() && work_indices(a)[i] == work_index;
        assert(a[i].work_index == work_index);
        let j = choose|j: int| 0 <= j < b.len() && #[trigger] b[j] == a[i];
        lemma_latest_some(a, i);
        lemma_latest_some(b, j);
    } else if work_indices(b).contains(work_index) {
        let j = choose|j: int| 0 <= j < work_indices(b).len() && work_indices(b)[j] == work_index;
        assert(b[j].work_index == work_index);
        let i = choose|i: int| 0 <= i < a.len() && #[trigger] a[i] == b[j];
        assert(work_indices(a)[i] == work_index);
    }
}

/// The completed jobs and the positions of the ones in progress, both in increasing order.
#[derive(Debug)]
pub struct ParallelProgress {
    pub completed: Vec<usize>,
    pub in_progress: Vec<ParallelInProgress>,
}

impl ParallelProgress {
    pub open spec fn wf(&self) -> bool {
        &&& increasing(self.completed@)
        &&& increasing(work_indices(self.in_progress@))
    }

    /// Nothing has been done.
    pub fn new() -> (progress: Self)
        ensures
            progress.wf(),
            progress.completed@ == Seq::<usize>::empty(),
            progress.in_progress@ == Seq::<ParallelInProgress>::empty(),
    {
        ParallelProgress { completed: Vec::new(), in_progress: Vec::new() }
    }

    /// The job is completed.
    pub fn is_completed(&self, work_index: usize) -> (found: bool)
        ensures
            found == self.completed@.contains(work_index),
    {
        let mut i: usize = 0;
        while i < self.completed.len()
            invariant
                0 <= i <= self.completed@.len(),
                forall|k: int| 0 <= k < i ==> self.completed@[k] != work_index,
            decreases self.completed@.len() - i,
        {
            if self.completed[i] == work_index {
                return true;
            }
            i = i + 1;
        }
        false
    }

    /// The job is in progress.
    pub fn is_in_progress(&self, work_index: usize) -> (found: bool)
        ensures
            found == (latest(self.in_progress@, work_index) is Some),
    {
        proof {
            lemma_latest_none(self.in_progress@, work_index);
        }
        let mut i: usize = 0;
        while i < self.in_progress.len()
            invariant
                0 <= i <= self.in_progress@.len(),
                latest(self.in_progress@, work_index) is None <==> !work_indices(
                    self.in_progress@,
                ).contains(work_index),
                forall|k: int| 0 <= k < i ==> work_indices(self.in_progress@)[k] != work_index,
            decreases self.in_progress@.len() - i,
        {
            if self.in_progress[i].work_index == work_index {
                assert(work_indices(self.in_progress@)[i as int] == work_index);
                return true;
            }
            i = i + 1;
        }
        false
    }

    /// Notes that a job is completed.
    pub fn complete(&mut self, work_index: usize)
        requires
            old(self).wf(),
        ensures
            final(self).wf(),
            final(self).in_progress == old(self).in_progress,
            forall|w: usize| #[trigger]
                final(self).completed@.contains(w) <==> w == work_index
                    || old(self).completed@.contains(w),
    {
        let ghost before = self.completed@;
        let mut i: usize = 0;
        while i < self.completed.len() && self.completed[i] < work_index
            invariant
                self.completed@ == before,
                self.in_progress == old(self).in_progress,
                0 <= i <= before.len(),
                forall|k: int| 0 <= k < i ==> before[k] < work_index,
            decreases before.len() - i,
        {
            i = i + 1;
        }
        if i < self.completed.len() && self.completed[i] == work_index {
            assert(before[i as int] == work_index);
            return ;
        }
        self.completed.insert(i, work_index);
        proof {
            let after = self.completed@;
            assert(after =~= before.insert(i as int, work_index));
            assert forall|w: usize| #[trigger] after.contains(w) <==> w == work_index
                || before.contains(w) by {
                if w == work_index {
                    assert(after[i as int] == w);
                }
                if before.contains(w) {
                    let k = choose|k: int| 0 <= k < before.len() && before[k] == w;
                    if k < i {
                        assert(after[k] == w);
                    } else {
                        assert(after[k + 1] == w);
                    }
                }
                if after.contains(w) && w != work_index {
                    let k = choose|k: int| 0 <= k < after.len() && after[k] == w;
                    if k < i {
                        assert(before[k] == w);
                    } else {
                        assert(before[k - 1] == w);
                    }
                }
            }
            assert forall|a: int, b: int| 0 <= a < b < after.len() implies #[trigger] after[a]
                < #[trigger] after[b] by {
                if i < before.len() && b > i && a <= i {
                    assert(work_index < before[i as int]);
                    if b - 1 > i {
                        assert(before[i as int] < before[b - 1]);
                    }
                }
                if a < i && b > i {
                    assert(before[a] < work_index);
                }
                if a > i {
                    assert(before[a - 1] < before[b - 1]);
                }
                if b < i {
                    assert(before[a] < before[b]);
                }
            }
        }
    }

    /// Notes the position of a job in place of the one noted before.
    pub fn store(&mut self, item: ParallelInProgress)
        requires
            old(self).wf(),
        ensures
            final(self).wf(),
            final(self).completed == old(self).completed,
            forall|w: usize| #[trigger]
                latest(final(self).in_progress@, w) == if w == item.work_index {
                    Some((item.stack@, item.key@))
                } else {
                    latest(old(self).in_progress@, w)
                },
    {
        let ghost before = self.in_progress@;
        let ghost all = work_indices(before);
        let ghost index = item.work_index;
        let mut i: usize = 0;
        while i < self.in_progress.len() && self.in_progress[i].work_index < item.work_index
            invariant
                self.in_progress@ == before,
                self.completed == old(self).completed,
                0 <= i <= before.len(),
                forall|k: int| 0 <= k < i ==> (#[trigger] before[k]).work_index < item.work_index,
            decreases before.len() - i,
        {
            i = i + 1;
        }
        if i < self.in_progress.len() && self.in_progress[i].work_index == item.work_index {
            self.in_progress[i] = item;
            proof {
                let after = self.in_progress@;
                assert(after =~= before.update(i as int, item));
                assert(work_indices(after) =~= all);
                assert forall|w: usize| #[trigger] latest(after, w) == if w == index {
                    Some((item.stack@, item.key@))
                } else {
                    latest(before, w)
                } by {
                    if w == index {
                        lemma_latest_some(after, i as int);
                    } else {
                        assert forall|a: int| 0 <= a < before.len() && before[a].work_index
                            == w implies exists|b: int|
                            0 <= b < after.len() && #[trigger] after[b] == #[trigger] before[a] by {
                            assert(after[a] == before[a]);
                        }
                        assert forall|b: int| 0 <= b < after.len() && after[b].work_index
                            == w implies exists|a: int|
                            0 <= a < before.len() && #[trigger] before[a] == #[trigger] after[b] by {
                            assert(after[b] == before[b]);
                        }
                        lemma_latest_same(before, after, w);
                    }
                }
            }
        } else {
            self.in_progress.insert(i, item);
            proof {
                let after = self.in_progress@;
                assert(after =~= before.insert(i as int, item));
                let now = work_indices(after);
                assert forall|a: int, b: int| 0 <= a < b < now.len() implies #[trigger] now[a]
                    < #[trigger] now[b] by {
                    if i < before.len() && b > i && a <= i {
                        assert(index < all[i as int]);
                        if b - 1 > i {
                            assert(all[i as int] < all[b - 1]);
                        }
                        assert(now[b] == all[b - 1]);
                    }
                    if a < i && b > i {
                        assert(before[a].work_index < index);
                        assert(now[a] == all[a]);
                        assert(now[b] == all[b - 1]);
                    }
                    if a < i && b == i {
                        assert(before[a].work_index < index);
                    }
                    if a > i {
                        assert(all[a - 1] < all[b - 1]);
                        assert(now[a] == all[a - 1]);
                        assert(now[b] == all[b - 1]);
                    }
                    if b < i {
                        assert(all[a] < all[b]);
                        assert(now[a] == all[a]);
                        assert(now[b] == all[b]);
                    }
                }
                assert forall|w: usize| #[trigger] latest(after, w) == if w == index {
                    Some((item.stack@, item.key@))
                } else {
                    latest(before, w)
                } by {
                    if w == index {
                        assert(after[i as int] == item);
                        lemma_latest_some(after, i as int);
                    } else {
                        assert forall|a: int| 0 <= a < before.len() && before[a].work_index
                            == w implies exists|b: int|
                            0 <= b < after.len() && #[trigger] after[b] == #[trigger] before[a] by {
                            if a < i {
                                assert(after[a] == before[a]);
                            } else {
                                assert(after[a + 1] == before[a]);
                            }
                        }
                        assert forall|b: int| 0 <= b < after.len() && after[b].work_index
                            == w implies exists|a: int|
                            0 <= a < before.len() && #[trigger] before[a] == #[trigger] after[b] by {
                            if b < i {
                                assert(after[b] == before[b]);
                            } else {
                                assert(after[b] == before[b - 1]);
                            }
                        }
                        lemma_latest_same(before, after, w);
                    }
                }
            }
        }
    }

    /// Forgets the position of a job.
    pub fn remove(&mut self, work_index: usize)
        requires
            old(self).wf(),
        ensures
            final(self).wf(),
            final(self).completed == old(self).completed,
            forall|w: usize| #[trigger]
                latest(final(self).in_progress@, w) == if w == work_index {
                    None
                } else {
                    latest(old(self).in_progress@, w)
                },
    {
        let ghost before = self.in_progress@;
        let ghost all = work_indices(before);
        let mut i: usize = 0;
        while i < self.in_progress.len()
            invariant
                self.in_progress@ == before,
                self.completed == old(self).completed,
                0 <= i <= before.len(),
                before == old(self).in_progress@,
                all == work_indices(before),
                increasing(all),
                increasing(self.completed@),
                forall|k: int| 0 <= k < i ==> all[k] != work_index,
            decreases before.len() - i,
        {
            if self.in_progress[i].work_index == work_index {
                self.in_progress.remove(i);
                proof {
                    let after = self.in_progress@;
                    assert(after =~= before.remove(i as int));
                    let now = work_indices(after);
                    assert forall|a: int, b: int| 0 <= a < b < now.len() implies #[trigger] now[a]
                        < #[trigger] now[b] by {
                        let x = if a < i {
                            a
                        } else {
                            a + 1
                        };
                        let y = if b < i {
                            b
                        } else {
                            b + 1
                        };
                        assert(now[a] == all[x]);
                        assert(now[b] == all[y]);
                        assert(all[x] < all[y]);
                    }
                    assert forall|w: usize| #[trigger] latest(after, w) == if w == work_index {
                        None
                    } else {
                        latest(before, w)
                    } by {
                        if w == work_index {
                            lemma_latest_none(after, w);
                            if now.contains(w) {
                                let k = choose|k: int| 0 <= k < now.len() && now[k] == w;
                                let x = if k < i {
                                    k
                                } else {
                                    k + 1
                                };
                                assert(now[k] == all[x]);
                                assert(all[i as int] == work_index);
                                if x < i {
                                    assert(all[x] < all[i as int]);
                                } else {
                                    assert(all[i as int] < all[x]);
                                }
                            }
                        } else {
                            assert forall|a: int| 0 <= a < before.len() && before[a].work_index
                                == w implies exists|b: int|
                                0 <= b < after.len() && #[trigger] after[b]
                                    == #[trigger] before[a] by {
                                if a < i {
                                    assert(after[a] == before[a]);
                                } else {
                                    assert(after[a - 1] == before[a]);
                                }
                            }
                            assert forall|b: int| 0 <= b < after.len() && after[b].work_index
                                == w implies exists|a: int|
                                0 <= a < before.len() && #[trigger] before[a]
                                    == #[trigger] after[b] by {
                                if b < i {
                                    assert(after[b] == before[b]);
                                } else {
                                    assert(after[b] == before[b + 1]);
                                }
                            }
                            lemma_latest_same(before, after, w);
                        }
                    }
                }
                return ;
            }
            i = i + 1;
        }
        proof {
            lemma_latest_none(before, work_index);
        }
    }

    /// The jobs that a checkpoint lists as completed, and the last position that it lists for each
    /// job in progress.
    pub fn from_lists(completed: &Vec<usize>, in_progress: &Vec<ParallelInProgress>) -> (
        progress: Self)
        ensures
            progress.wf(),
            forall|w: usize| #[trigger]
                progress.completed@.contains(w) <==> completed@.contains(w),
            forall|w: usize| #[trigger]
                latest(progress.in_progress@, w) == latest(in_progress@, w),
    {
        let mut progress = ParallelProgress::new();
        let mut i: usize = 0;
        assert(completed@.take(0) =~= Seq::<usize>::empty());
        while i < completed.len()
            invariant
                progress.wf(),
                progress.in_progress@ == Seq::<ParallelInProgress>::empty(),
                0 <= i <= completed@.len(),
                forall|w: usize| #[trigger]
                    progress.completed@.contains(w) <==> completed@.take(i as int).contains(w),
            decreases completed@.len() - i,
        {
            progress.complete(completed[i]);
            proof {
                let now = completed@.take(i as int + 1);
                let was = completed@.take(i as int);
                assert(now =~= was.push(completed@[i as int]));
                assert forall|w: usize| #[trigger] progress.completed@.contains(w) implies
                    now.contains(w) by {
                    if w == completed@[i as int] {
                        assert(now[i as int] == w);
                    } else {
                        let k = choose|k: int| 0 <= k < was.len() && was[k] == w;
                        assert(now[k] == w);
                    }
                }
                assert forall|w: usize| #[trigger] now.contains(w) implies
                    progress.completed@.contains(w) by {
                    let k = choose|k: int| 0 <= k < now.len() && now[k] == w;
                    if k < i {
                        assert(was[k] == w);
                        assert(was.contains(w));
                    }
                }
            }
            i = i + 1;
        }
        assert(completed@.take(i as int) =~= completed@);
        let mut j: usize = 0;
        assert(in_progress@.take(0) =~= Seq::<ParallelInProgress>::empty());
        while j < in_progress.len()
            invariant
                progress.wf(),
                0 <= j <= in_progress@.len(),
                forall|w: usize| #[trigger]
                    progress.completed@.contains(w) <==> completed@.contains(w),
                forall|w: usize| #[trigger]
                    latest(progress.in_progress@, w) == latest(in_progress@.take(j as int), w),
            decreases in_progress@.len() - j,
        {
            let ghost before = progress.in_progress@;
            let item = in_progress[j].clone();
            progress.store(item);
            proof {
                let now = in_progress@.take(j as int + 1);
                assert(now.drop_last() =~= in_progress@.take(j as int));
                assert(now.last() == in_progress@[j as int]);
                assert forall|w: usize| #[trigger] latest(progress.in_progress@, w) == latest(
                    now,
                    w,
                ) by {
                    assert(latest(before, w) == latest(in_progress@.take(j as int), w));
                }
            }
            j = j + 1;
        }
        assert(in_progress@.take(j as int) =~= in_progress@);
        progress
    }
}

/// Both lists of a parallel search's progress are strictly increasing, so no job is listed twice.
pub proof fn law_progress_lists_increase(progress: ParallelProgress)
    requires
        progress.wf(),
    ensures
        forall|i: int, j: int|
            0 <= i < j < progress.completed@.len() ==> #[trigger] progress.completed@[i]
                < #[trigger] progress.completed@[j],
        forall|i: int, j: int|
            0 <= i < j < progress.in_progress@.len() ==> (
            #[trigger] progress.in_progress@[i]).work_index < (
            #[trigger] progress.in_progress@[j]).work_index,
{
    let all = work_indices(progress.in_progress@);
    assert forall|i: int, j: int| 0 <= i < j < progress.in_progress@.len() implies (
    #[trigger] progress.in_progress@[i]).work_index < (
    #[trigger] progress.in_progress@[j]).work_index by {
        assert(all[i] < all[j]);
    }
}

} // verus!
