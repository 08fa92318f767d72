//! The run queue: one first-in, first-out queue for each priority level.

use std::collections::VecDeque;

use vstd::prelude::*;
use crate::task::PRIORITY_LEVELS;

verus! {

/// The highest level from `k` on that has a task, or the number of levels.
pub open spec fn first_level(levels: Seq<Seq<u64>>, k: int) -> int
    decreases levels.len() - k,
{
    if k >= levels.len() {
        levels.len() as int
    } else if levels[k].len() > 0 {
        k
    } else {
        first_level(levels, k + 1)
    }
}

/// `levels` with `pid` at the end of level `k`.
pub open spec fn pushed(levels: Seq<Seq<u64>>, k: int, pid: u64) -> Seq<Seq<u64>> {
    levels.update(k, levels[k].push(pid))
}

/// `levels` without the first task of level `k`.
pub open spec fn popped(levels: Seq<Seq<u64>>, k: int) -> Seq<Seq<u64>> {
    levels.update(k, levels[k].skip(1))
}

/// Runnable tasks, highest priority level first.
pub struct RunQueue {
    levels: Vec<VecDeque<u64>>,
    /// Total tasks ever created, for `ps`.
    spawned: u64,
}

impl RunQueue {
    /// The tasks of each level, in order.
    pub closed spec fn levels(&self) -> Seq<Seq<u64>> {
        self.levels@.map_values(|q: VecDeque<u64>| q@)
    }

    /// Total tasks ever created.
    pub closed spec fn created(&self) -> u64 {
        self.spawned
    }

    /// There are as many levels as priorities.
    pub open spec fn wf(&self) -> bool {
        self.levels().len() == PRIORITY_LEVELS
    }

    /// An empty queue.
    pub fn new() -> (r: RunQueue)
        ensures
            r.wf(),
            r.levels() == seq![Seq::<u64>::empty(), Seq::empty(), Seq::empty()],
            r.created() == 0,
    {
        let mut levels: Vec<VecDeque<u64>> = Vec::new();
        levels.push(VecDeque::new());
        levels.push(VecDeque::new());
        levels.push(VecDeque::new());
        let r = RunQueue { levels, spawned: 0 };
        assert(r.levels() =~= seq![Seq::<u64>::empty(), Seq::empty(), Seq::empty()]);
        r
    }

    /// Put a task at the end of a level; one beyond the lowest means the lowest.
    pub fn push(&mut self, pid: u64, level: usize)
        requires
            old(self).wf(),
        ensures
            final(self).wf(),
            final(self).levels() == pushed(
                old(self).levels(),
                if level < PRIORITY_LEVELS {
                    level as int
                } else {
                    PRIORITY_LEVELS - 1
                },
                pid,
            ),
            final(self).created() == old(self).created(),
            ({
                let q = final(self).levels()[if level < 3 {
                    level as int
                } else {
                    2
                }];
                q.len() > 0 && q.last() == pid
            }),
    {
        let k: usize = if level < PRIORITY_LEVELS {
            level
        } else {
            PRIORITY_LEVELS - 1
        };
        let ghost l0 = self.levels();
        self.levels[k].push_back(pid);
        assert(self.levels() =~= pushed(l0, k as int, pid));
    }

    /// Take the highest-priority runnable task.
    pub fn pop(&mut self) -> (r: Option<u64>)
        requires
            old(self).wf(),
        ensures
            final(self).wf(),
            final(self).created() == old(self).created(),
            ({
                let k = first_level(old(self).levels(), 0);
                if k < PRIORITY_LEVELS {
                    r == Some(old(self).levels()[k][0]) && final(self).levels() == popped(
                        old(self).levels(),
                        k,
                    )
                } else {
                    r is None && final(self).levels() == old(self).levels()
                }
            }),
    {
        let ghost l0 = self.levels();
        let mut k: usize = 0;
        while k < PRIORITY_LEVELS
            invariant
                k <= PRIORITY_LEVELS,
                self.wf(),
                self.levels() == l0,
                l0 == old(self).levels(),
                self.spawned == old(self).spawned,
                first_level(l0, 0) == first_level(l0, k as int),
            decreases PRIORITY_LEVELS - k,
        {
            let ghost q0 = self.levels@[k as int]@;
            assert(q0 == l0[k as int]);
            let first: Option<u64> = self.levels[k].pop_front();
            if first.is_some() {
                proof {
                    assert(self.levels@[k as int]@ =~= q0.skip(1));
                    assert(self.levels() =~= popped(l0, k as int));
                }
                return first;
            }
            assert(self.levels() =~= l0);
            k = k + 1;
        }
        None
    }

    /// Count a task that was created.
    pub fn count_spawned(&mut self)
        requires
            old(self).created() < u64::MAX,
        ensures
            final(self).created() == old(self).created() + 1,
            final(self).levels() == old(self).levels(),
    {
        self.spawned = self.spawned + 1;
    }

    /// Total tasks ever created.
    pub fn spawned(&self) -> (r: u64)
        ensures
            r == self.created(),
    {
        self.spawned
    }

    /// How many tasks are queued.
    pub fn len(&self) -> (r: usize)
        requires
            self.wf(),
            total(self.levels(), PRIORITY_LEVELS as int) <= usize::MAX,
        ensures
            r == total(self.levels(), PRIORITY_LEVELS as int),
    {
        let mut n: usize = 0;
        let mut k: usize = 0;
        while k < PRIORITY_LEVELS
            invariant
                k <= PRIORITY_LEVELS,
                self.wf(),
                n == total(self.levels(), k as int),
                total(self.levels(), PRIORITY_LEVELS as int) <= usize::MAX,
            decreases PRIORITY_LEVELS - k,
        {
            proof {
                lemma_total(self.levels(), k + 1, PRIORITY_LEVELS as int);
                assert(self.levels@[k as int]@ == self.levels()[k as int]);
            }
            n = n + self.levels[k].len();
            k = k + 1;
        }
        n
    }
}

/// How many tasks the first `k` levels hold.
pub open spec fn total(levels: Seq<Seq<u64>>, k: int) -> int
    decreases k,
{
    if k <= 0 {
        0
    } else {
        total(levels, k - 1) + levels[k - 1].len()
    }
}

proof fn lemma_total(levels: Seq<Seq<u64>>, a: int, b: int)
    requires
        0 <= a <= b,
    ensures
        0 <= total(levels, a) <= total(levels, b),
    decreases b,
{
    if a < b {
        lemma_total(levels, a, b - 1);
    } else if a > 0 {
        lemma_total(levels, a - 1, a - 1);
    }
}

/// A task that becomes runnable goes behind all that were: those of its level keep
/// their places, it is last among them, and the other levels do not change.
pub proof fn law_push_goes_behind_all(levels: Seq<Seq<u64>>, k: int, pid: u64)
    requires
        0 <= k < levels.len(),
    ensures
        pushed(levels, k, pid).len() == levels.len(),
        pushed(levels, k, pid)[k].len() == levels[k].len() + 1,
        pushed(levels, k, pid)[k][levels[k].len() as int] == pid,
        forall|a: int| 0 <= a < levels[k].len() ==> pushed(levels, k, pid)[k][a] == #[trigger] levels[k][a],
        forall|j: int| 0 <= j < levels.len() && j != k ==> pushed(levels, k, pid)[j] == #[trigger] levels[j],
{
}

/// The task that is picked leaves, and everyone behind it moves up by one place.
pub proof fn law_pop_moves_everyone_up(levels: Seq<Seq<u64>>, k: int)
    requires
        0 <= k < levels.len(),
        levels[k].len() > 0,
    ensures
        popped(levels, k).len() == levels.len(),
        popped(levels, k)[k].len() == levels[k].len() - 1,
        forall|a: int| 0 < a < levels[k].len() ==> popped(levels, k)[k][a - 1] == #[trigger] levels[k][a],
        forall|j: int| 0 <= j < levels.len() && j != k ==> popped(levels, k)[j] == #[trigger] levels[j],
{
}

/// Is task `a` to be picked before task `b`: on a higher level, or ahead of it on the
/// same one?
pub open spec fn ahead(levels: Seq<Seq<u64>>, a: u64, b: u64) -> bool {
    exists|k: int, x: int, l: int, y: int|
        0 <= k < levels.len() && 0 <= x < levels[k].len() && k <= l < levels.len() && 0 <= y < levels[l].len() && (k
            == l ==> x < y) && #[trigger] levels[k][x] == a && #[trigger] levels[l][y] == b
}

/// First in, first out within a level: of two tasks that wait, the one that is ahead
/// stays ahead whoever becomes runnable meanwhile, and it is the first of the two to be
/// picked.
pub proof fn law_first_in_first_out(levels: Seq<Seq<u64>>, a: u64, b: u64, k: int, pid: u64)
    requires
        ahead(levels, a, b),
        0 <= k < levels.len(),
        forall|i: int, x: int, j: int, y: int|
            0 <= i < levels.len() && 0 <= x < levels[i].len() && 0 <= j < levels.len() && 0 <= y < levels[j].len()
                && #[trigger] levels[i][x] == #[trigger] levels[j][y] ==> i == j && x == y,
    ensures
        ahead(pushed(levels, k, pid), a, b),
        ({
            let first = first_level(levels, 0);
            &&& 0 <= first < levels.len()
            &&& levels[first].len() > 0
            &&& levels[first][0] != b
            &&& levels[first][0] == a || ahead(popped(levels, first), a, b)
        }),
{
    let (i, x, j, y) = choose|i: int, x: int, j: int, y: int|
        0 <= i < levels.len() && 0 <= x < levels[i].len() && i <= j < levels.len() && 0 <= y < levels[j].len() && (i
            == j ==> x < y) && #[trigger] levels[i][x] == a && #[trigger] levels[j][y] == b;
    let p = pushed(levels, k, pid);
    assert(p[i][x] == a && p[j][y] == b);
    lemma_first_level(levels, 0, i);
    let f = first_level(levels, 0);
    let q = popped(levels, f);
    assert(levels[f][0] == levels[f][0]);
    if levels[f][0] == b {
        assert(f == j && 0 == y);
    }
    if levels[f][0] != a {
        let x1 = if i == f {
            x - 1
        } else {
            x
        };
        let y1 = if j == f {
            y - 1
        } else {
            y
        };
        if i == f {
            assert(x > 0);
        }
        if j == f {
            assert(y > 0);
        }
        assert(q[i][x1] == a && q[j][y1] == b);
    }
}

/// Tasks of one level run in the order in which they became runnable, and no task
/// runs while one of a higher level waits.
pub proof fn law_highest_level_first(levels: Seq<Seq<u64>>, k: int)
    requires
        0 <= k < levels.len(),
        levels[k].len() > 0,
    ensures
        first_level(levels, 0) <= k,
        levels[first_level(levels, 0)].len() > 0,
        forall|j: int| 0 <= j < first_level(levels, 0) ==> (#[trigger] levels[j]).len() == 0,
{
    lemma_first_level(levels, 0, k);
}

pub proof fn lemma_first_level(levels: Seq<Seq<u64>>, i: int, k: int)
    requires
        0 <= i <= k < levels.len(),
        levels[k].len() > 0,
    ensures
        i <= first_level(levels, i) <= k,
        levels[first_level(levels, i)].len() > 0,
        forall|j: int| i <= j < first_level(levels, i) ==> (#[trigger] levels[j]).len() == 0,
    decreases k - i,
{
    if levels[i].len() == 0 {
        lemma_first_level(levels, i + 1, k);
    }
}

/// A level that is found is not empty.
pub proof fn lemma_first_level_some(levels: Seq<Seq<u64>>, i: int)
    requires
        0 <= i,
        first_level(levels, i) < levels.len(),
    ensures
        i <= first_level(levels, i),
        levels[first_level(levels, i)].len() > 0,
    decreases levels.len() - i,
{
    if i < levels.len() && levels[i].len() == 0 {
        lemma_first_level_some(levels, i + 1);
    }
}

} // verus!
