//! The decisions of the executor: after each run of a task, whether to run
//! it again, under which attempt number and after which delay; and, for the
//! supervising daemon, when each enabled task runs next and which tasks are
//! due at a given instant. The runs themselves (processes, timeouts,
//! threads, sleeping) are the caller's.

use vstd::prelude::*;
use vstd::arithmetic::power2::{lemma_pow2_unfold, pow2};
use crate::registry::{
    enabled_entries, has_name, lookup, name_of, task_enabled, RetryKind, RetryPolicy, Task,
    TaskRegistry,
};
use crate::scheduler::{next_defined, occurrence_ok};
use crate::time::{CivilTime, LocalDateTime};

verus! {

/// What follows a run.
#[derive(Debug, Clone, Copy, PartialEq, Eq, Structural)]
pub enum RetryStep {
    /// No more runs.
    Stop,
    /// Run again as attempt `attempt`, after `delay_secs` seconds.
    Retry { attempt: u32, delay_secs: u64 },
}

/// The delay before the retry numbered `next` (from 1): none for
/// `Immediate`, `delay_secs` for `Fixed`, `initial_delay_secs * 2^(next-1)`
/// for `Exponential`.
pub open spec fn retry_delay(p: RetryPolicy, next: nat) -> int {
    match p.kind {
        RetryKind::Immediate => 0,
        RetryKind::Fixed => p.delay_secs as int,
        RetryKind::Exponential => p.initial_delay_secs * pow2((next - 1) as nat),
        RetryKind::Never => 0,
    }
}

/// The run numbered `attempt` (from 0) has ended with `success`: the runs
/// stop on success, once `max_retries` retries were made, or when the
/// policy never retries; otherwise the next attempt follows after its delay.
pub open spec fn retry_step(p: RetryPolicy, attempt: u32, success: bool) -> RetryStep {
    if success || attempt >= p.max_retries || p.kind == RetryKind::Never {
        RetryStep::Stop
    } else {
        RetryStep::Retry {
            attempt: (attempt + 1) as u32,
            delay_secs: retry_delay(p, (attempt + 1) as nat) as u64,
        }
    }
}

/// The delay of the next retry can be computed without overflow: an
/// exponential delay needs `2^attempt` and `initial_delay_secs * 2^attempt`
/// to fit in a `u64`.
pub open spec fn retry_fits(p: RetryPolicy, attempt: u32, success: bool) -> bool {
    (!success && attempt < p.max_retries && p.kind == RetryKind::Exponential) ==> (attempt < 64
        && p.initial_delay_secs * pow2(attempt as nat) <= u64::MAX)
}

/// `2^e` for `e < 64`.
fn pow2_u64(e: u32) -> (r: u64)
    requires
        e < 64,
    ensures
        r == pow2(e as nat),
{
    let mut r: u64 = 1;
    let mut i: u32 = 0;
    proof {
        vstd::arithmetic::power2::lemma2_to64();
    }
    while i < e
        invariant
            i <= e < 64,
            r == pow2(i as nat),
        decreases e - i,
    {
        proof {
            lemma_pow2_unfold((i + 1) as nat);
            vstd::arithmetic::power2::lemma_pow2_strictly_increases((i + 1) as nat, 64);
            vstd::arithmetic::power2::lemma2_to64();
        }
        r = r * 2;
        i += 1;
    }
    r
}

/// What follows the run numbered `attempt` of a task with this policy.
pub fn next_retry(policy: &RetryPolicy, attempt: u32, success: bool) -> (r: RetryStep)
    requires
        retry_fits(*policy, attempt, success),
    ensures
        r == retry_step(*policy, attempt, success),
{
    if success || attempt >= policy.max_retries || policy.kind == RetryKind::Never {
        return RetryStep::Stop;
    }
    let next = attempt + 1;
    let delay_secs: u64 = match policy.kind {
        RetryKind::Never => 0,
        RetryKind::Immediate => 0,
        RetryKind::Fixed => policy.delay_secs,
        RetryKind::Exponential => {
            let factor = pow2_u64(attempt);
            assert(policy.initial_delay_secs * factor <= u64::MAX);
            policy.initial_delay_secs * factor
        },
    };
    RetryStep::Retry { attempt: next, delay_secs }
}

/// How many runs a task makes when its runs from attempt `attempt` on end
/// as `outcomes` says (`outcomes[k]` for attempt `k`; a missing outcome is
/// a failure).
pub open spec fn runs_from(p: RetryPolicy, outcomes: Seq<bool>, attempt: u32) -> nat
    decreases p.max_retries - attempt,
{
    let success = attempt < outcomes.len() && outcomes[attempt as int];
    match retry_step(p, attempt, success) {
        RetryStep::Stop => 1,
        RetryStep::Retry { .. } => 1 + runs_from(p, outcomes, (attempt + 1) as u32),
    }
}

/// A task runs at most `max_retries + 1` times: once, then at most
/// `max_retries` retries; the attempt numbers go up by one.
pub proof fn law_runs_bounded(p: RetryPolicy, outcomes: Seq<bool>, attempt: u32)
    requires
        attempt <= p.max_retries,
    ensures
        1 <= runs_from(p, outcomes, attempt) <= p.max_retries - attempt + 1,
    decreases p.max_retries - attempt,
{
    let success = attempt < outcomes.len() && outcomes[attempt as int];
    if let RetryStep::Retry { .. } = retry_step(p, attempt, success) {
        law_runs_bounded(p, outcomes, (attempt + 1) as u32);
    }
}

/// A retry follows only a failed run, while retries remain, under a policy
/// that retries; it carries the next attempt number.
pub proof fn law_retry_only_after_failure(p: RetryPolicy, attempt: u32, success: bool)
    ensures
        retry_step(p, attempt, success) matches RetryStep::Retry { attempt: next, .. } ==> {
            &&& !success
            &&& p.kind != RetryKind::Never
            &&& next == attempt + 1
            &&& next <= p.max_retries
        },
        success ==> retry_step(p, attempt, success) == RetryStep::Stop,
        p.kind == RetryKind::Never ==> retry_step(p, attempt, success) == RetryStep::Stop,
{
}

/// A failed run, while retries remain, under a policy that retries, is
/// followed by the next attempt: at once under `Immediate`, after
/// `delay_secs` under `Fixed`, after `initial_delay_secs * 2^attempt` under
/// `Exponential`.
pub proof fn law_retry_after_failure(p: RetryPolicy, attempt: u32)
    requires
        attempt < p.max_retries,
        p.kind != RetryKind::Never,
    ensures
        retry_step(p, attempt, false) matches RetryStep::Retry { attempt: next, delay_secs } && {
            &&& next == attempt + 1
            &&& p.kind == RetryKind::Immediate ==> delay_secs == 0
            &&& p.kind == RetryKind::Fixed ==> delay_secs == p.delay_secs
            &&& p.kind == RetryKind::Exponential ==> delay_secs == (p.initial_delay_secs * pow2(
                attempt as nat,
            )) as u64
        },
{
}

/// When every run fails, a task that may be retried runs exactly
/// `max_retries + 1` times from its first attempt (`max_retries - attempt + 1`
/// from attempt `attempt`).
pub proof fn law_all_failing_runs(p: RetryPolicy, attempt: u32)
    requires
        attempt <= p.max_retries,
        p.kind != RetryKind::Never,
    ensures
        runs_from(p, Seq::empty(), attempt) == p.max_retries - attempt + 1,
        attempt == 0 ==> runs_from(p, Seq::empty(), attempt) == p.max_retries + 1,
    decreases p.max_retries - attempt,
{
    if attempt < p.max_retries {
        law_all_failing_runs(p, (attempt + 1) as u32);
    }
}

/// Under an exponential policy each retry waits twice as long as the one
/// before.
pub proof fn law_exponential_doubles(p: RetryPolicy, next: nat)
    requires
        p.kind == RetryKind::Exponential,
        next >= 1,
    ensures
        retry_delay(p, next + 1) == 2 * retry_delay(p, next),
        retry_delay(p, 1) == p.initial_delay_secs,
{
    let i = p.initial_delay_secs as int;
    let x = pow2((next - 1) as nat) as int;
    lemma_pow2_unfold(next);
    vstd::arithmetic::power2::lemma2_to64();
    assert(pow2(next) == 2 * x);
    assert(i * (2 * x) == 2 * (i * x)) by (nonlinear_arith);
    assert(retry_delay(p, next + 1) == i * pow2(next));
    assert(retry_delay(p, next) == i * x);
    assert(retry_delay(p, 1) == i * pow2(0));
}

/// A task that the daemon watches, and when it runs next.
pub struct PlannedRun {
    pub name: String,
    pub next: LocalDateTime,
}

/// The daemon's schedule: the watched tasks and their next runs.
pub struct RunPlan {
    pub runs: Vec<PlannedRun>,
}

/// `runs` plans the tasks `ts` from `from`: each task in turn either has no
/// next occurrence, or stands in `runs`, in the same order, with a next
/// occurrence of its schedule.
pub open spec fn plans(runs: Seq<PlannedRun>, ts: Seq<Task>, from: CivilTime) -> bool
    decreases ts.len(),
{
    if ts.len() == 0 {
        runs.len() == 0
    } else {
        let t = ts.last();
        ||| (occurrence_ok(t.schedule, from, None) && plans(runs, ts.drop_last(), from))
        ||| (runs.len() > 0 && runs.last().name@ == name_of(t) && occurrence_ok(
            t.schedule,
            from,
            Some(runs.last().next),
        ) && plans(runs.drop_last(), ts.drop_last(), from))
    }
}

/// A planned run is due at `now`: its time has come.
pub open spec fn is_due(r: PlannedRun, now: CivilTime) -> bool {
    !now.before(r.next@)
}

/// A run is launched at `now`: it is due and its task is still registered.
pub open spec fn launched(r: PlannedRun, ts: Seq<Task>, now: CivilTime) -> bool {
    is_due(r, now) && has_name(ts, r.name@)
}

/// The names of the runs launched at `now`, in plan order.
pub open spec fn launched_names(runs: Seq<PlannedRun>, ts: Seq<Task>, now: CivilTime) -> Seq<
    Seq<char>,
> {
    runs.filter(|r: PlannedRun| launched(r, ts, now)).map_values(|r: PlannedRun| r.name@)
}

/// How a run stands after the tick at `now`: a launched run moves to the
/// next occurrence of its task's schedule, when there is one; any other run
/// stays as it was.
pub open spec fn ticked(before: PlannedRun, after: PlannedRun, ts: Seq<Task>, now: CivilTime) -> bool {
    &&& after.name == before.name
    &&& if launched(before, ts, now) {
        let s = lookup(ts, before.name@).unwrap().schedule;
        ||| (occurrence_ok(s, now, None) && after.next == before.next)
        ||| occurrence_ok(s, now, Some(after.next))
    } else {
        after.next == before.next
    }
}

/// Every schedule of `ts` can give its next occurrence after `now`.
pub open spec fn all_defined(ts: Seq<Task>, now: CivilTime) -> bool {
    forall|i: int| 0 <= i < ts.len() ==> next_defined(#[trigger] ts[i].schedule, now)
}

impl RunPlan {
    /// The next run of every enabled task of `registry` after `now`, in
    /// name order; a task whose schedule has no next occurrence is left out.
    pub fn new(registry: &TaskRegistry, now: &LocalDateTime) -> (r: RunPlan)
        requires
            registry.wf(),
            all_defined(enabled_entries(registry.entries()), now@),
        ensures
            plans(r.runs@, enabled_entries(registry.entries()), now@),
    {
        let tasks = registry.enabled_tasks();
        let ghost ts = enabled_entries(registry.entries());
        let mut runs: Vec<PlannedRun> = Vec::new();
        let mut i: usize = 0;
        while i < tasks.len()
            invariant
                crate::registry::derefs(tasks@) == ts,
                i <= tasks.len(),
                all_defined(ts, now@),
                plans(runs@, ts.take(i as int), now@),
            decreases tasks.len() - i,
        {
            let t = tasks[i];
            proof {
                assert(ts.take(i + 1).drop_last() =~= ts.take(i as int));
                assert(*t == ts[i as int]);
                assert(next_defined(ts[i as int].schedule, now@));
            }
            let next = t.schedule.next_occurrence(now);
            let ghost before = runs@;
            match next {
                Some(v) => {
                    runs.push(PlannedRun { name: t.config.name.clone(), next: v });
                    assert(runs@.drop_last() =~= before);
                },
                None => {},
            }
            i += 1;
        }
        assert(ts.take(tasks.len() as int) =~= ts);
        RunPlan { runs }
    }

    /// The tick at `now`: launches the due runs whose task `registry` still
    /// holds, moves each of them to its task's next occurrence after `now`
    /// (it stays due when there is none), and returns their names in plan
    /// order.
    pub fn tick(&mut self, registry: &TaskRegistry, now: &LocalDateTime) -> (names: Vec<String>)
        requires
            registry.wf(),
            all_defined(registry.entries(), now@),
        ensures
            final(self).runs.len() == old(self).runs.len(),
            forall|p: int|
                0 <= p < old(self).runs.len() ==> ticked(
                    #[trigger] old(self).runs@[p],
                    final(self).runs@[p],
                    registry.entries(),
                    now@,
                ),
            names@.map_values(|n: String| n@) == launched_names(
                old(self).runs@,
                registry.entries(),
                now@,
            ),
    {
        let ghost ts = registry.entries();
        let ghost old_runs = self.runs@;
        let mut names: Vec<String> = Vec::new();
        let mut p: usize = 0;
        while p < self.runs.len()
            invariant
                registry.wf(),
                ts == registry.entries(),
                all_defined(ts, now@),
                self.runs.len() == old_runs.len(),
                p <= old_runs.len(),
                forall|q: int| 0 <= q < p ==> ticked(#[trigger] old_runs[q], self.runs@[q], ts, now@),
                forall|q: int| p <= q < old_runs.len() ==> #[trigger] self.runs@[q] == old_runs[q],
                names@.map_values(|n: String| n@) == launched_names(old_runs.take(p as int), ts, now@),
            decreases old_runs.len() - p,
        {
            proof {
                reveal_with_fuel(Seq::filter, 1);
                assert(old_runs.take(p + 1).drop_last() =~= old_runs.take(p as int));
                assert(old_runs.take(p + 1).last() == old_runs[p as int]);
            }
            let ghost names_before = names@.map_values(|n: String| n@);
            let due = !now.is_before(&self.runs[p].next);
            if due {
                let found = registry.get_task(self.runs[p].name.as_str());
                match found {
                    Ok(t) => {
                        proof {
                            let i = crate::registry::position(ts, old_runs[p as int].name@);
                            assert(lookup(ts, old_runs[p as int].name@) == Some(ts[i]));
                            assert(next_defined(ts[i].schedule, now@));
                        }
                        let name = self.runs[p].name.clone();
                        names.push(name.clone());
                        proof {
                            assert(names@.map_values(|n: String| n@) =~= names_before.push(
                                old_runs[p as int].name@,
                            ));
                        }
                        match t.schedule.next_occurrence(now) {
                            Some(v) => {
                                self.runs.set(p, PlannedRun { name, next: v });
                            },
                            None => {},
                        }
                    },
                    Err(_) => {},
                }
            }
            p += 1;
        }
        proof {
            assert(old_runs.take(old_runs.len() as int) =~= old_runs);
        }
        names
    }
}

} // verus!
