//! Run statistics of a task, drawn from the records of its runs: how many
//! runs there were, how they ended, when the latest ones started, in which
//! order the runs come chronologically, and the health verdict.

use vstd::prelude::*;
use crate::time::LocalDateTime;

verus! {

/// What the statistics read of one run: when it started and how it ended.
#[derive(Debug, Clone, Copy)]
pub struct RunRecord {
    pub started_at: LocalDateTime,
    pub success: bool,
    pub timed_out: bool,
}

/// Which runs a question about the latest start looks at.
pub enum RunFilter {
    All,
    Successes,
    Failures,
}

pub open spec fn selected(f: RunFilter, r: RunRecord) -> bool {
    match f {
        RunFilter::All => true,
        RunFilter::Successes => r.success,
        RunFilter::Failures => !r.success,
    }
}

/// Among the first `n` records, the one at `k` is selected, starts no
/// earlier than any selected one, and every selected record after it starts
/// strictly earlier: it is the last of the latest.
pub open spec fn latest_within(rs: Seq<RunRecord>, f: RunFilter, n: int, k: int) -> bool {
    &&& 0 <= k < n <= rs.len()
    &&& selected(f, rs[k])
    &&& forall|j: int|
        0 <= j < n && selected(f, #[trigger] rs[j]) ==> !rs[k].started_at@.before(
            rs[j].started_at@,
        )
    &&& forall|j: int|
        k < j < n && selected(f, #[trigger] rs[j]) ==> rs[j].started_at@.before(
            rs[k].started_at@,
        )
}

/// `r` is the latest start among the selected records: none when no record
/// is selected.
pub open spec fn latest_start(rs: Seq<RunRecord>, f: RunFilter, r: Option<LocalDateTime>) -> bool {
    match r {
        None => forall|j: int| 0 <= j < rs.len() ==> !selected(f, #[trigger] rs[j]),
        Some(t) => exists|k: int| latest_within(rs, f, rs.len() as int, k) && rs[k].started_at == t,
    }
}

pub open spec fn successes_of(rs: Seq<RunRecord>) -> Seq<RunRecord> {
    rs.filter(|r: RunRecord| r.success)
}

pub open spec fn failures_of(rs: Seq<RunRecord>) -> Seq<RunRecord> {
    rs.filter(|r: RunRecord| !r.success)
}

pub open spec fn timeouts_of(rs: Seq<RunRecord>) -> Seq<RunRecord> {
    rs.filter(|r: RunRecord| r.timed_out)
}

/// The counts and latest starts of a task's runs.
#[derive(Debug, Clone, Copy)]
pub struct RunCounts {
    pub total_runs: u64,
    pub successes: u64,
    pub failures: u64,
    pub timeouts: u64,
    pub last_run: Option<LocalDateTime>,
    pub last_success: Option<LocalDateTime>,
    pub last_failure: Option<LocalDateTime>,
}

/// The counts and latest starts that the records `rs` give.
pub open spec fn counts_of(rs: Seq<RunRecord>, c: RunCounts) -> bool {
    &&& c.total_runs == rs.len()
    &&& c.successes == successes_of(rs).len()
    &&& c.failures == failures_of(rs).len()
    &&& c.timeouts == timeouts_of(rs).len()
    &&& latest_start(rs, RunFilter::All, c.last_run)
    &&& latest_start(rs, RunFilter::Successes, c.last_success)
    &&& latest_start(rs, RunFilter::Failures, c.last_failure)
}

/// Every run is a success or a failure, so the successes and the failures
/// add up to all the runs; timeouts are some of the runs.
pub proof fn law_counts_add_up(rs: Seq<RunRecord>)
    ensures
        successes_of(rs).len() + failures_of(rs).len() == rs.len(),
        timeouts_of(rs).len() <= rs.len(),
    decreases rs.len(),
{
    if rs.len() > 0 {
        law_counts_add_up(rs.drop_last());
        lemma_filter_step(rs);
    }
}

/// One more record adds to the count of its kind.
proof fn lemma_filter_step(rs: Seq<RunRecord>)
    requires
        rs.len() > 0,
    ensures
        successes_of(rs).len() == successes_of(rs.drop_last()).len() + (if rs.last().success {
            1int
        } else {
            0
        }),
        failures_of(rs).len() == failures_of(rs.drop_last()).len() + (if rs.last().success {
            0int
        } else {
            1
        }),
        timeouts_of(rs).len() == timeouts_of(rs.drop_last()).len() + (if rs.last().timed_out {
            1int
        } else {
            0
        }),
{
    reveal_with_fuel(Seq::filter, 1);
}

/// Whether the latest pick among the first `i` records changes with record `i`.
fn take_latest(records: &Vec<RunRecord>, best: Option<usize>, i: usize, f: Ghost<RunFilter>) -> (r:
    Option<usize>)
    requires
        i < records.len(),
        selected(f@, records@[i as int]),
        match best {
            None => forall|j: int| 0 <= j < i ==> !selected(f@, #[trigger] records@[j]),
            Some(k) => latest_within(records@, f@, i as int, k as int),
        },
    ensures
        r matches Some(k) && latest_within(records@, f@, i + 1, k as int),
{
    match best {
        None => Some(i),
        Some(k) => {
            if records[i].started_at.is_before(&records[k].started_at) {
                Some(k)
            } else {
                Some(i)
            }
        },
    }
}

/// Counts the runs, the successes, the failures and the timeouts, and finds
/// the latest start of any run, of a success and of a failure.
pub fn count_runs(records: &Vec<RunRecord>) -> (c: RunCounts)
    ensures
        counts_of(records@, c),
        c.successes + c.failures == c.total_runs,
        c.timeouts <= c.total_runs,
{
    let n = records.len();
    let mut successes: u64 = 0;
    let mut failures: u64 = 0;
    let mut timeouts: u64 = 0;
    let mut best_all: Option<usize> = None;
    let mut best_ok: Option<usize> = None;
    let mut best_ko: Option<usize> = None;
    let mut i: usize = 0;
    while i < n
        invariant
            n == records.len(),
            i <= n,
            successes == successes_of(records@.take(i as int)).len(),
            failures == failures_of(records@.take(i as int)).len(),
            timeouts == timeouts_of(records@.take(i as int)).len(),
            successes + failures == i,
            timeouts <= i,
            match best_all {
                None => forall|j: int| 0 <= j < i ==> !selected(RunFilter::All, #[trigger] records@[j]),
                Some(k) => latest_within(records@, RunFilter::All, i as int, k as int),
            },
            match best_ok {
                None => forall|j: int|
                    0 <= j < i ==> !selected(RunFilter::Successes, #[trigger] records@[j]),
                Some(k) => latest_within(records@, RunFilter::Successes, i as int, k as int),
            },
            match best_ko {
                None => forall|j: int|
                    0 <= j < i ==> !selected(RunFilter::Failures, #[trigger] records@[j]),
                Some(k) => latest_within(records@, RunFilter::Failures, i as int, k as int),
            },
        decreases n - i,
    {
        proof {
            assert(records@.take(i + 1).drop_last() =~= records@.take(i as int));
            assert(records@.take(i + 1).last() == records@[i as int]);
            lemma_filter_step(records@.take(i + 1));
        }
        let r = records[i];
        best_all = take_latest(records, best_all, i, Ghost(RunFilter::All));
        if r.success {
            successes = successes + 1;
            best_ok = take_latest(records, best_ok, i, Ghost(RunFilter::Successes));
        } else {
            failures = failures + 1;
            best_ko = take_latest(records, best_ko, i, Ghost(RunFilter::Failures));
        }
        if r.timed_out {
            timeouts = timeouts + 1;
        }
        i = i + 1;
    }
    proof {
        assert(records@.take(n as int) =~= records@);
    }
    RunCounts {
        total_runs: n as u64,
        successes,
        failures,
        timeouts,
        last_run: match best_all {
            Some(k) => Some(records[k].started_at),
            None => None,
        },
        last_success: match best_ok {
            Some(k) => Some(records[k].started_at),
            None => None,
        },
        last_failure: match best_ko {
            Some(k) => Some(records[k].started_at),
            None => None,
        },
    }
}

/// In the chronological order of the records, the one at `a` comes before the
/// one at `b`: it starts earlier, or at the same instant and stands first.
pub open spec fn comes_before(rs: Seq<RunRecord>, a: int, b: int) -> bool {
    ||| rs[a].started_at@.before(rs[b].started_at@)
    ||| (!rs[b].started_at@.before(rs[a].started_at@) && a < b)
}

/// `order` lists each position of `rs` once, in chronological order; records
/// that start at the same instant keep their order (a stable sort).
pub open spec fn chronological(rs: Seq<RunRecord>, order: Seq<usize>) -> bool {
    &&& order.len() == rs.len()
    &&& forall|p: int| 0 <= p < order.len() ==> #[trigger] order[p] < rs.len()
    &&& forall|p: int, q: int|
        0 <= p < q < order.len() ==> comes_before(rs, #[trigger] order[p] as int, #[trigger] order[q] as int)
    &&& forall|k: int| 0 <= k < rs.len() ==> #[trigger] lists(order, k)
}

/// `k` stands somewhere in `order`.
pub open spec fn lists(order: Seq<usize>, k: int) -> bool {
    exists|p: int| 0 <= p < order.len() && order[p] == k
}

/// The positions of the records in chronological order, records that start
/// at the same instant in the order they were given.
pub fn chronological_order(records: &Vec<RunRecord>) -> (order: Vec<usize>)
    ensures
        chronological(records@, order@),
{
    let n = records.len();
    let mut order: Vec<usize> = Vec::new();
    let mut i: usize = 0;
    while i < n
        invariant
            n == records.len(),
            i <= n,
            order.len() == i,
            forall|p: int| 0 <= p < order.len() ==> #[trigger] order@[p] < i,
            forall|p: int, q: int|
                0 <= p < q < order.len() ==> comes_before(records@, #[trigger] order@[p] as int, #[trigger] order@[q] as int),
            forall|k: int| 0 <= k < i ==> #[trigger] lists(order@, k),
        decreases n - i,
    {
        let t = records[i].started_at;
        let mut pos: usize = 0;
        while pos < order.len() && !t.is_before(&records[order[pos]].started_at)
            invariant
                n == records.len(),
                i < n,
                pos <= order.len() == i,
                t == records@[i as int].started_at,
                forall|p: int| 0 <= p < order.len() ==> #[trigger] order@[p] < i,
                forall|p: int| 0 <= p < pos ==> !t@.before(records@[#[trigger] order@[p] as int].started_at@),
            decreases order.len() - pos,
        {
            pos = pos + 1;
        }
        proof {
            assert forall|q: int| pos <= q < order.len() implies t@.before(
                records@[#[trigger] order@[q] as int].started_at@,
            ) by {
                if q > pos {
                    assert(comes_before(records@, order@[pos as int] as int, order@[q] as int));
                }
            }
        }
        let ghost old_order = order@;
        order.insert(pos, i);
        proof {
            assert(order@ == old_order.insert(pos as int, i));
            assert forall|p: int| 0 <= p < order.len() implies #[trigger] order@[p] < i + 1 by {
                if p < pos {
                    assert(order@[p] == old_order[p]);
                } else if p > pos {
                    assert(order@[p] == old_order[p - 1]);
                }
            }
            assert forall|p: int, q: int| 0 <= p < q < order.len() implies comes_before(
                records@,
                #[trigger] order@[p] as int,
                #[trigger] order@[q] as int,
            ) by {
                let op = if p < pos { p } else { p - 1 };
                let oq = if q < pos { q } else { q - 1 };
                if p < pos && q < pos {
                    assert(comes_before(records@, old_order[op] as int, old_order[oq] as int));
                } else if p > pos && q > pos {
                    assert(comes_before(records@, old_order[op] as int, old_order[oq] as int));
                } else if p == pos {
                    assert(order@[q] == old_order[oq]);
                    assert(t@.before(records@[old_order[oq] as int].started_at@));
                } else if q == pos {
                    assert(order@[p] == old_order[op]);
                    assert(!t@.before(records@[old_order[op] as int].started_at@));
                } else {
                    assert(order@[p] == old_order[op]);
                    assert(order@[q] == old_order[oq]);
                    assert(!t@.before(records@[old_order[op] as int].started_at@));
                    assert(t@.before(records@[old_order[oq] as int].started_at@));
                }
            }
            assert forall|k: int| 0 <= k < i + 1 implies #[trigger] lists(order@, k) by {
                if k == i {
                    assert(order@[pos as int] == k);
                } else {
                    assert(lists(old_order, k));
                    let p = choose|p: int| 0 <= p < old_order.len() && old_order[p] == k;
                    if p < pos {
                        assert(order@[p] == k);
                    } else {
                        assert(order@[p + 1] == k);
                    }
                }
            }
        }
        i = i + 1;
    }
    order
}

/// The health verdict on a task.
#[derive(Debug, Clone, Copy, PartialEq, Eq, Structural)]
pub enum TaskHealth {
    /// The task is disabled.
    Disabled,
    /// The task has never run.
    NeverRun,
    /// At least 90% of its runs succeeded.
    Healthy,
    /// At least 50% and less than 90% of its runs succeeded.
    Degraded,
    /// Less than 50% of its runs succeeded.
    Critical,
}

/// The verdict on a task that is `enabled` or not and has `successes` out of
/// `total` runs.
pub open spec fn health_spec(enabled: bool, total: int, successes: int) -> TaskHealth {
    if !enabled {
        TaskHealth::Disabled
    } else if total == 0 {
        TaskHealth::NeverRun
    } else if 100 * successes >= 90 * total {
        TaskHealth::Healthy
    } else if 100 * successes >= 50 * total {
        TaskHealth::Degraded
    } else {
        TaskHealth::Critical
    }
}

/// A task whose runs mostly fail: it has run, and less than 50% of its
/// runs succeeded.
pub open spec fn failing_spec(total: int, successes: int) -> bool {
    total > 0 && 100 * successes < 50 * total
}

/// The health verdict on a task from its run counts.
pub fn health_of(enabled: bool, counts: &RunCounts) -> (h: TaskHealth)
    ensures
        h == health_spec(enabled, counts.total_runs as int, counts.successes as int),
{
    let total = counts.total_runs as u128;
    let successes = counts.successes as u128;
    if !enabled {
        TaskHealth::Disabled
    } else if total == 0 {
        TaskHealth::NeverRun
    } else if 100 * successes >= 90 * total {
        TaskHealth::Healthy
    } else if 100 * successes >= 50 * total {
        TaskHealth::Degraded
    } else {
        TaskHealth::Critical
    }
}

/// Whether the task's runs mostly fail.
pub fn is_failing(counts: &RunCounts) -> (r: bool)
    ensures
        r == failing_spec(counts.total_runs as int, counts.successes as int),
{
    let total = counts.total_runs as u128;
    let successes = counts.successes as u128;
    total > 0 && 100 * successes < 50 * total
}

/// An enabled task is critical exactly when its runs mostly fail, and a
/// disabled task or one that never ran is never failing.
pub proof fn law_critical_iff_failing(enabled: bool, total: nat, successes: nat)
    ensures
        enabled ==> (health_spec(enabled, total as int, successes as int) == TaskHealth::Critical
            <==> failing_spec(total as int, successes as int)),
        total == 0 ==> !failing_spec(total as int, successes as int),
{
}

} // verus!
