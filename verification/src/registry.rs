//! Tasks and the registry that holds them: each task is a configuration
//! (name, command, schedule text, timeout, retry policy, description,
//! enabled flag) with its parsed schedule; names are unique.

use vstd::prelude::*;
use crate::scheduler::{
    error_text, fault_text, plan_is, plan_outcome, plan_refused, PlanOutcome, Schedule,
    ScheduleError,
};
use crate::text::{
    chars_less, chars_of, lemma_text_less_asymmetric, lemma_text_less_irreflexive,
    lemma_text_less_total, lemma_text_less_transitive, same_chars, text_less,
};
use crate::time::Duration;

verus! {

/// Why the registry refused a request.
#[derive(Debug)]
pub enum RegistryError {
    /// No task has this name.
    UnknownTask(String),
    /// A task with this name is already registered.
    DuplicateTask(String),
    /// The task's schedule expression is refused; `err` is the reason.
    InvalidSchedule { name: String, err: String },
}

/// How a failed run is retried.
#[derive(Debug, Clone, Copy, PartialEq, Eq, Structural)]
pub enum RetryKind {
    /// Never (spelled `none` in configuration files).
    Never,
    /// At once.
    Immediate,
    /// After a fixed delay.
    Fixed,
    /// After a delay that doubles at each retry.
    Exponential,
}

impl Default for RetryKind {
    fn default() -> (r: Self)
        ensures
            r == RetryKind::Never,
    {
        RetryKind::Never
    }
}

/// The retry policy of a task.
#[derive(Debug, Clone, Copy, PartialEq, Eq, Structural)]
pub struct RetryPolicy {
    /// How failed runs are retried.
    pub kind: RetryKind,
    /// How many retries at most.
    pub max_retries: u32,
    /// The delay of `Fixed`, in seconds.
    pub delay_secs: u64,
    /// The first delay of `Exponential`, in seconds.
    pub initial_delay_secs: u64,
}

impl Default for RetryPolicy {
    fn default() -> (r: Self)
        ensures
            r == (RetryPolicy {
                kind: RetryKind::Never,
                max_retries: 0,
                delay_secs: 0,
                initial_delay_secs: 0,
            }),
    {
        RetryPolicy { kind: RetryKind::Never, max_retries: 0, delay_secs: 0, initial_delay_secs: 0 }
    }
}

/// The configuration of a task as written in the configuration file.
#[derive(Debug, Clone)]
pub struct TaskConfig {
    pub name: String,
    pub command: String,
    pub schedule: String,
    pub timeout_secs: Option<u64>,
    pub retry: RetryPolicy,
    pub description: Option<String>,
    pub enabled: bool,
}

/// Whether a task is enabled when the configuration does not say.
pub fn default_enabled() -> (r: bool)
    ensures
        r,
{
    true
}

/// A task: its configuration and its parsed schedule.
#[derive(Debug, Clone)]
pub struct Task {
    pub config: TaskConfig,
    pub schedule: Schedule,
}

// ---------------------------------------------------------------- model

/// The name of a task.
pub open spec fn name_of(t: Task) -> Seq<char> {
    t.config.name@
}

/// The tasks are sorted by name, so no name occurs twice.
pub open spec fn names_sorted(s: Seq<Task>) -> bool {
    forall|i: int, j: int| 0 <= i < j < s.len() ==> text_less(name_of(s[i]), name_of(s[j]))
}

/// Some task is named `n`.
pub open spec fn has_name(s: Seq<Task>, n: Seq<char>) -> bool {
    exists|i: int| 0 <= i < s.len() && name_of(s[i]) == n
}

/// Where the task named `n` stands (meaningful when `has_name(s, n)`).
pub open spec fn position(s: Seq<Task>, n: Seq<char>) -> int {
    choose|i: int| 0 <= i < s.len() && name_of(s[i]) == n
}

/// The task named `n`, if any.
pub open spec fn lookup(s: Seq<Task>, n: Seq<char>) -> Option<Task> {
    if has_name(s, n) {
        Some(s[position(s, n)])
    } else {
        None
    }
}

/// Whether a task is enabled.
pub open spec fn task_enabled(t: Task) -> bool {
    t.config.enabled
}

/// The enabled tasks, in order.
pub open spec fn enabled_entries(s: Seq<Task>) -> Seq<Task> {
    s.filter(|t: Task| task_enabled(t))
}

/// The tasks `s` with the task named `name` enabled or disabled.
pub open spec fn with_enabled(s: Seq<Task>, name: Seq<char>, enabled: bool) -> Seq<Task> {
    let i = position(s, name);
    let t = s[i];
    s.update(i, Task { config: TaskConfig { enabled, ..t.config }, schedule: t.schedule })
}

/// The tasks behind a sequence of references.
pub open spec fn derefs(s: Seq<&Task>) -> Seq<Task> {
    s.map_values(|t: &Task| *t)
}

/// The task that `config` makes when its schedule parses.
#[verifier::opaque]
pub open spec fn task_from(config: TaskConfig, t: Task) -> bool {
    t.config == config && plan_is(Ok(t.schedule), plan_outcome(config.schedule@))
}

/// In a sorted sequence, the task named `name_of(s[i])` stands at `i`.
pub proof fn lemma_position(s: Seq<Task>, i: int)
    requires
        names_sorted(s),
        0 <= i < s.len(),
    ensures
        has_name(s, name_of(s[i])),
        position(s, name_of(s[i])) == i,
        lookup(s, name_of(s[i])) == Some(s[i]),
{
    let n = name_of(s[i]);
    assert(0 <= i < s.len() && name_of(s[i]) == n);
    let k = position(s, n);
    if k < i {
        assert(text_less(name_of(s[k]), name_of(s[i])));
        lemma_text_less_irreflexive(n);
    } else if i < k {
        assert(text_less(name_of(s[i]), name_of(s[k])));
        lemma_text_less_irreflexive(n);
    }
}

/// Inserting a task where its name sorts keeps the names sorted, makes the
/// task findable by its name, and changes no other lookup.
proof fn lemma_insert_sorted(before: Seq<Task>, i: int, task: Task)
    requires
        names_sorted(before),
        0 <= i <= before.len(),
        forall|j: int| 0 <= j < i ==> text_less(#[trigger] name_of(before[j]), name_of(task)),
        i < before.len() ==> text_less(name_of(task), name_of(before[i])),
    ensures
        names_sorted(before.insert(i, task)),
        lookup(before.insert(i, task), name_of(task)) == Some(task),
        forall|n: Seq<char>|
            n != name_of(task) ==> #[trigger] lookup(before.insert(i, task), n) == lookup(before, n),
{
    let after = before.insert(i, task);
    let name = name_of(task);
    assert forall|a: int, b: int| 0 <= a < b < after.len() implies text_less(
        name_of(after[a]),
        name_of(after[b]),
    ) by {
        if b < i {
        } else if b == i {
        } else if a < i {
            assert(after[b] == before[b - 1]);
            if b - 1 > i {
                lemma_text_less_transitive(name, name_of(before[i]), name_of(before[b - 1]));
            }
            lemma_text_less_transitive(name_of(before[a]), name, name_of(before[b - 1]));
        } else if a == i {
            assert(after[b] == before[b - 1]);
            if b - 1 > i {
                lemma_text_less_transitive(name, name_of(before[i]), name_of(before[b - 1]));
            }
        } else {
            assert(after[a] == before[a - 1]);
            assert(after[b] == before[b - 1]);
        }
    }
    lemma_position(after, i);
    assert forall|n: Seq<char>| n != name implies #[trigger] lookup(after, n) == lookup(
        before,
        n,
    ) by {
        if has_name(before, n) {
            let k = position(before, n);
            lemma_position(before, k);
            if k < i {
                assert(after[k] == before[k]);
                lemma_position(after, k);
            } else {
                assert(after[k + 1] == before[k]);
                lemma_position(after, k + 1);
            }
        } else if has_name(after, n) {
            let k = position(after, n);
            if k < i {
                assert(after[k] == before[k]);
            } else if k > i {
                assert(after[k] == before[k - 1]);
            }
        }
    }
}

// ---------------------------------------------------------------- tasks

impl Task {
    /// The task that `config` describes, with its schedule parsed; refused
    /// when the schedule expression is.
    pub fn from_config(config: TaskConfig) -> (r: Result<Self, RegistryError>)
        requires
            !(plan_outcome(config.schedule@) is Overflow),
        ensures
            plan_refused(plan_outcome(config.schedule@)) ==> (r matches Err(
                RegistryError::InvalidSchedule { name, err },
            ) && name@ == config.name@ && err@ == fault_text(plan_outcome(config.schedule@))),
            !plan_refused(plan_outcome(config.schedule@)) ==> (r matches Ok(t) && task_from(
                config,
                t,
            )),
            r matches Ok(t) ==> t.config == config,
    {
        let parsed = Schedule::parse(config.schedule.as_str());
        match parsed {
            Ok(schedule) => {
                proof {
                    reveal(task_from);
                }
                Ok(Task { config, schedule })
            },
            Err(e) => {
                proof {
                    lemma_fault_text(e, plan_outcome(config.schedule@));
                }
                Err(RegistryError::InvalidSchedule { name: config.name.clone(), err: e.to_string() })
            },
        }
    }

    /// A task from a configuration and a schedule already parsed.
    pub fn from_config_with_schedule(config: TaskConfig, schedule: Schedule) -> (r: Self)
        ensures
            r.config == config,
            r.schedule == schedule,
    {
        Task { config, schedule }
    }

    /// The task's name.
    pub fn name(&self) -> (r: &str)
        ensures
            r@ == self.config.name@,
    {
        self.config.name.as_str()
    }

    /// The task's shell command.
    pub fn command(&self) -> (r: &str)
        ensures
            r@ == self.config.command@,
    {
        self.config.command.as_str()
    }

    /// Whether the task is enabled.
    pub fn is_enabled(&self) -> (r: bool)
        ensures
            r == self.config.enabled,
    {
        self.config.enabled
    }

    /// The task's timeout, if it has one.
    pub fn timeout(&self) -> (r: Option<Duration>)
        ensures
            match self.config.timeout_secs {
                Some(s) => r matches Some(d) && d.secs_spec() == s && d.nanos_spec() == 0,
                None => r is None,
            },
    {
        match self.config.timeout_secs {
            Some(s) => Some(Duration::from_secs(s)),
            None => None,
        }
    }

    /// The task's retry policy.
    pub fn retry_policy(&self) -> (r: &RetryPolicy)
        ensures
            *r == self.config.retry,
    {
        &self.config.retry
    }
}

/// A refused parse gives the text that the refusal describes.
proof fn lemma_fault_text(e: ScheduleError, o: PlanOutcome)
    requires
        plan_is(Err(e), o),
    ensures
        plan_refused(o),
        error_text(e) == fault_text(o),
{
}

// ---------------------------------------------------------------- registry

/// All the tasks, sorted by name. The tasks are held in a vector kept
/// sorted by name rather than in a hash map keyed by name: vstd's
/// specification of `HashMap` lets Verus reason about integer keys, while
/// with `String` keys even the size after one `insert` cannot be proved.
/// The sorted vector keeps every name once (the invariant `wf`) and gives
/// the listing its name order directly.
#[derive(Debug)]
pub struct TaskRegistry {
    tasks: Vec<Task>,
}

impl TaskRegistry {
    /// The tasks, sorted by name.
    pub closed spec fn entries(&self) -> Seq<Task> {
        self.tasks@
    }

    /// The registry's invariant: tasks sorted by name, so names are unique.
    pub open spec fn wf(&self) -> bool {
        names_sorted(self.entries())
    }

    /// An empty registry.
    pub fn new() -> (r: Self)
        ensures
            r.wf(),
            r.entries().len() == 0,
    {
        TaskRegistry { tasks: Vec::new() }
    }

    /// Where a task named `name` stands or would stand, and whether it is there.
    fn locate(&self, name: &Vec<char>) -> (r: (usize, bool))
        requires
            self.wf(),
        ensures
            r.0 <= self.entries().len(),
            forall|j: int| 0 <= j < r.0 ==> text_less(#[trigger] name_of(self.entries()[j]), name@),
            r.1 <==> has_name(self.entries(), name@),
            r.1 ==> r.0 < self.entries().len() && name_of(self.entries()[r.0 as int]) == name@,
            !r.1 ==> r.0 < self.entries().len() ==> text_less(
                name@,
                name_of(self.entries()[r.0 as int]),
            ),
    {
        let ghost s = self.entries();
        let mut i: usize = 0;
        while i < self.tasks.len()
            invariant
                s == self.entries(),
                names_sorted(s),
                i <= s.len(),
                forall|j: int| 0 <= j < i ==> text_less(#[trigger] name_of(s[j]), name@),
            decreases s.len() - i,
        {
            let ni = chars_of(self.tasks[i].config.name.as_str());
            if !chars_less(&ni, name) {
                let same = same_chars(&ni, name);
                proof {
                    lemma_text_less_total(name_of(s[i as int]), name@);
                    if !same {
                        assert forall|j: int| 0 <= j < s.len() implies name_of(s[j]) != name@ by {
                            if j < i {
                                lemma_text_less_irreflexive(name@);
                            } else if j > i {
                                assert(text_less(name_of(s[i as int]), name_of(s[j])));
                                if name_of(s[j]) == name@ {
                                    lemma_text_less_asymmetric(name@, name_of(s[i as int]));
                                }
                            } else {
                            }
                        }
                    }
                }
                return (i, same);
            }
            i += 1;
        }
        proof {
            assert forall|j: int| 0 <= j < s.len() implies name_of(s[j]) != name@ by {
                lemma_text_less_irreflexive(name@);
            }
        }
        (i, false)
    }

    /// Adds the task that `config` describes. Refused when a task of that
    /// name exists (checked first) or when its schedule is refused; then the
    /// registry is unchanged.
    #[verifier::rlimit(40)]
    pub fn add_task(&mut self, config: TaskConfig) -> (r: Result<(), RegistryError>)
        requires
            old(self).wf(),
            !has_name(old(self).entries(), config.name@) ==> !(plan_outcome(
                config.schedule@,
            ) is Overflow),
        ensures
            final(self).wf(),
            has_name(old(self).entries(), config.name@) ==> (r matches Err(
                RegistryError::DuplicateTask(n),
            ) && n@ == config.name@ && final(self).entries() == old(self).entries()),
            !has_name(old(self).entries(), config.name@) && plan_refused(
                plan_outcome(config.schedule@),
            ) ==> (r matches Err(RegistryError::InvalidSchedule { name, err }) && name@
                == config.name@ && err@ == fault_text(plan_outcome(config.schedule@))
                && final(self).entries() == old(self).entries()),
            !has_name(old(self).entries(), config.name@) && !plan_refused(
                plan_outcome(config.schedule@),
            ) ==> (r is Ok && final(self).entries().len() == old(self).entries().len() + 1
                && (lookup(final(self).entries(), config.name@) matches Some(t) && task_from(
                config,
                t,
            )) && forall|n: Seq<char>|
                n != config.name@ ==> #[trigger] lookup(final(self).entries(), n) == lookup(
                    old(self).entries(),
                    n,
                )),
    {
        let name = chars_of(config.name.as_str());
        let (i, found) = self.locate(&name);
        if found {
            return Err(RegistryError::DuplicateTask(config.name.clone()));
        }
        let task = match Task::from_config(config) {
            Ok(t) => t,
            Err(e) => {
                return Err(e);
            },
        };
        let ghost before = self.tasks@;
        self.tasks.insert(i, task);
        proof {
            lemma_insert_sorted(before, i as int, task);
        }
        Ok(())
    }

    /// The enabled tasks, in name order.
    pub fn enabled_tasks(&self) -> (r: Vec<&Task>)
        requires
            self.wf(),
        ensures
            derefs(r@) == enabled_entries(self.entries()),
            names_sorted(derefs(r@)),
    {
        proof {
            law_enabled_unique(self.entries());
        }
        let ghost s = self.entries();
        let mut r: Vec<&Task> = Vec::new();
        let mut i: usize = 0;
        assert(s.take(0) =~= Seq::<Task>::empty());
        proof {
            reveal_with_fuel(Seq::filter, 1);
        }
        assert(derefs(r@) =~= s.take(0).filter(|t: Task| task_enabled(t)));
        while i < self.tasks.len()
            invariant
                s == self.entries(),
                i <= s.len(),
                derefs(r@) == s.take(i as int).filter(|t: Task| task_enabled(t)),
            decreases s.len() - i,
        {
            let t = &self.tasks[i];
            proof {
                reveal_with_fuel(Seq::filter, 1);
                assert(s.take(i + 1).drop_last() =~= s.take(i as int));
            }
            let ghost before = derefs(r@);
            if t.config.enabled {
                r.push(t);
                assert(derefs(r@) =~= before.push(*t));
            }
            i += 1;
        }
        assert(s.take(s.len() as int) =~= s);
        r
    }

    /// All the tasks, in name order.
    pub fn all_tasks(&self) -> (r: Vec<&Task>)
        requires
            self.wf(),
        ensures
            derefs(r@) == self.entries(),
            names_sorted(derefs(r@)),
    {
        let ghost s = self.entries();
        let mut r: Vec<&Task> = Vec::new();
        let mut i: usize = 0;
        while i < self.tasks.len()
            invariant
                s == self.entries(),
                i <= s.len(),
                derefs(r@) == s.take(i as int),
            decreases s.len() - i,
        {
            let ghost before = derefs(r@);
            r.push(&self.tasks[i]);
            assert(derefs(r@) =~= before.push(s[i as int]));
            assert(s.take(i + 1) =~= s.take(i as int).push(s[i as int]));
            i += 1;
        }
        assert(s.take(s.len() as int) =~= s);
        r
    }

    /// The task named `name`.
    pub fn get_task(&self, name: &str) -> (r: Result<&Task, RegistryError>)
        requires
            self.wf(),
        ensures
            has_name(self.entries(), name@) ==> (r matches Ok(t) && lookup(self.entries(), name@)
                == Some(*t)),
            !has_name(self.entries(), name@) ==> (r matches Err(RegistryError::UnknownTask(n))
                && n@ == name@),
    {
        let wanted = chars_of(name);
        let (i, found) = self.locate(&wanted);
        if found {
            proof {
                lemma_position(self.entries(), i as int);
            }
            Ok(&self.tasks[i])
        } else {
            let n = crate::text::string_of(&wanted);
            Err(RegistryError::UnknownTask(n))
        }
    }

    /// Enables or disables the task named `name`; nothing else changes.
    pub fn set_enabled(&mut self, name: &str, enabled: bool) -> (r: Result<(), RegistryError>)
        requires
            old(self).wf(),
        ensures
            final(self).wf(),
            has_name(old(self).entries(), name@) ==> r is Ok && final(self).entries() == with_enabled(
                old(self).entries(),
                name@,
                enabled,
            ),
            !has_name(old(self).entries(), name@) ==> (r matches Err(RegistryError::UnknownTask(n))
                && n@ == name@ && final(self).entries() == old(self).entries()),
    {
        let wanted = chars_of(name);
        let (i, found) = self.locate(&wanted);
        if !found {
            let n = crate::text::string_of(&wanted);
            return Err(RegistryError::UnknownTask(n));
        }
        proof {
            lemma_position(self.entries(), i as int);
        }
        let ghost before = self.tasks@;
        let mut t = self.tasks.remove(i);
        t.config.enabled = enabled;
        self.tasks.insert(i, t);
        proof {
            let after = self.tasks@;
            assert(after =~= before.update(i as int, t));
            assert forall|a: int, b: int| 0 <= a < b < after.len() implies text_less(
                name_of(after[a]),
                name_of(after[b]),
            ) by {
                assert(name_of(after[a]) == name_of(before[a]));
                assert(name_of(after[b]) == name_of(before[b]));
            }
        }
        Ok(())
    }

    /// The number of tasks.
    pub fn len(&self) -> (r: usize)
        ensures
            r == self.entries().len(),
    {
        self.tasks.len()
    }

    /// Whether there is no task.
    pub fn is_empty(&self) -> (r: bool)
        ensures
            r == (self.entries().len() == 0),
    {
        self.tasks.len() == 0
    }
}

/// What loading a list of configurations gives.
pub enum LoadOutcome {
    /// Every configuration became a task.
    Loaded,
    /// This name was configured twice.
    Duplicate(Seq<char>),
    /// The task of this name has a refused schedule, for this reason.
    Invalid(Seq<char>, Seq<char>),
}

/// An earlier configuration among the first `i` has the name of `cs[i]`.
pub open spec fn named_earlier(cs: Seq<TaskConfig>, i: int) -> bool {
    exists|j: int| 0 <= j < i && cs[j].name@ == cs[i].name@
}

/// The configurations taken in order: the first one whose name was already
/// taken, or whose schedule is refused, stops the loading.
pub open spec fn load_outcome(cs: Seq<TaskConfig>) -> LoadOutcome
    decreases cs.len(),
{
    if cs.len() == 0 {
        LoadOutcome::Loaded
    } else {
        match load_outcome(cs.drop_last()) {
            LoadOutcome::Loaded => {
                let i = cs.len() - 1;
                if named_earlier(cs, i) {
                    LoadOutcome::Duplicate(cs[i].name@)
                } else if plan_refused(plan_outcome(cs[i].schedule@)) {
                    LoadOutcome::Invalid(cs[i].name@, fault_text(plan_outcome(cs[i].schedule@)))
                } else {
                    LoadOutcome::Loaded
                }
            },
            other => other,
        }
    }
}

/// Every schedule that loading reaches can be parsed without overflow.
pub open spec fn load_parses(cs: Seq<TaskConfig>) -> bool {
    forall|i: int|
        0 <= i < cs.len() && load_outcome(cs.take(i)) is Loaded && !named_earlier(cs, i)
            ==> !(#[trigger] plan_outcome(cs[i].schedule@) is Overflow)
}

/// The schedules of the first `n` configurations that loading reaches can
/// be parsed without overflow.
pub open spec fn parses_upto(cs: Seq<TaskConfig>, n: int) -> bool {
    forall|i: int|
        0 <= i < n && load_outcome(cs.take(i)) is Loaded && !named_earlier(cs, i)
            ==> !(#[trigger] plan_outcome(cs[i].schedule@) is Overflow)
}

/// `r` is what loading the configurations `cs` gives.
pub open spec fn loaded_as(r: Result<TaskRegistry, RegistryError>, cs: Seq<TaskConfig>) -> bool {
    match load_outcome(cs) {
        LoadOutcome::Loaded => r matches Ok(reg) && reg.wf() && reg.entries().len() == cs.len() && (
        forall|n: Seq<char>|
            has_name(reg.entries(), n) <==> exists|i: int|
                0 <= i < cs.len() && #[trigger] cs[i].name@ == n) && (forall|i: int|
            0 <= i < cs.len() ==> (lookup(reg.entries(), #[trigger] cs[i].name@) matches Some(t)
                && task_from(cs[i], t))),
        LoadOutcome::Duplicate(n) => r matches Err(RegistryError::DuplicateTask(m)) && m@ == n,
        LoadOutcome::Invalid(n, e) => r matches Err(RegistryError::InvalidSchedule { name, err })
            && name@ == n && err@ == e,
    }
}

impl TaskRegistry {
    /// A registry holding the tasks of `configs`, added in order; refused at
    /// the first configuration whose name is taken or whose schedule is
    /// refused. This is what loading a configuration file does once the
    /// file has been read into configurations.
    pub fn from_configs(configs: Vec<TaskConfig>) -> (r: Result<Self, RegistryError>)
        requires
            load_parses(configs@),
        ensures
            loaded_as(r, configs@),
    {
        match Self::load_checked(configs) {
            Some(r) => r,
            None => {
                proof {
                    assert(false);
                }
                Err(RegistryError::UnknownTask(String::new()))
            },
        }
    }

    /// Loads `configs` as `from_configs` does, or gives nothing when a
    /// schedule that loading reaches would overflow while it is parsed
    /// (where `from_configs` cannot be called).
    #[verifier::rlimit(80)]
    pub fn load_checked(configs: Vec<TaskConfig>) -> (r: Option<Result<Self, RegistryError>>)
        ensures
            r is None <==> !load_parses(configs@),
            r matches Some(x) ==> loaded_as(x, configs@),
    {
        let ghost cs = configs@;
        let mut rest = configs;
        let mut registry = TaskRegistry::new();
        let mut i: usize = 0;
        let n = rest.len();
        let mut failure: Option<RegistryError> = None;
        assert(cs.take(0) =~= Seq::<TaskConfig>::empty());
        while i < n
            invariant_except_break
                load_outcome(cs.take(i as int)) is Loaded,
                registry.entries().len() == i,
                forall|m: Seq<char>|
                    has_name(registry.entries(), m) <==> exists|j: int|
                        0 <= j < i && #[trigger] cs[j].name@ == m,
                forall|j: int|
                    0 <= j < i ==> (lookup(registry.entries(), #[trigger] cs[j].name@) matches Some(t)
                        && task_from(cs[j], t)),
                failure is None,
                rest@ == cs.skip(i as int),
            invariant
                cs == configs@,
                n == cs.len(),
                i <= n,
                parses_upto(cs, i as int),
                registry.wf(),
            ensures
                match failure {
                    Some(e) => load_parses(cs) && match load_outcome(cs) {
                        LoadOutcome::Duplicate(m) => e matches RegistryError::DuplicateTask(d) && d@ == m,
                        LoadOutcome::Invalid(m, t) => e matches RegistryError::InvalidSchedule { name, err }
                            && name@ == m && err@ == t,
                        LoadOutcome::Loaded => false,
                    },
                    None => {
                        &&& i == n
                        &&& parses_upto(cs, i as int)
                        &&& load_outcome(cs.take(i as int)) is Loaded
                        &&& registry.entries().len() == i
                        &&& forall|m: Seq<char>|
                            has_name(registry.entries(), m) <==> exists|j: int|
                                0 <= j < i && #[trigger] cs[j].name@ == m
                        &&& forall|j: int|
                            0 <= j < i ==> (lookup(registry.entries(), #[trigger] cs[j].name@) matches Some(t)
                                && task_from(cs[j], t))
                    },
                },
            decreases n - i,
        {
            let config = rest.remove(0);
            assert(config == cs[i as int]);
            assert(rest@ =~= cs.skip(i + 1));
            let ghost before = registry.entries();
            proof {
                lemma_load_step(cs, i as int, before);
            }
            let taken = registry.get_task(config.name.as_str()).is_ok();
            if !taken && Schedule::overflows(config.schedule.as_str()) {
                proof {
                    assert(load_outcome(cs.take(i as int)) is Loaded && !named_earlier(cs, i as int)
                        && plan_outcome(cs[i as int].schedule@) is Overflow);
                    assert(!load_parses(cs));
                }
                return None;
            }
            proof {
                lemma_parses_step(cs, i as int);
            }
            let added = registry.add_task(config);
            match added {
                Ok(()) => {},
                Err(e) => {
                    proof {
                        lemma_load_stops(cs, i as int + 1);
                        lemma_load_rest(cs, i as int + 1);
                    }
                    failure = Some(e);
                    break;
                },
            }
            proof {
                lemma_load_added(cs, i as int, before, registry.entries());
            }
            i += 1;
        }
        match failure {
            Some(e) => Some(Err(e)),
            None => {
                assert(cs.take(n as int) =~= cs);
                Some(Ok(registry))
            },
        }
    }
}

/// Loading the configuration `cs[i]` into a registry that holds exactly the
/// first `i`: its name is taken exactly when an earlier one had it, and
/// the outcome of the first `i + 1` follows from that and its schedule.
proof fn lemma_load_step(cs: Seq<TaskConfig>, i: int, before: Seq<Task>)
    requires
        0 <= i < cs.len(),
        load_outcome(cs.take(i)) is Loaded,
        forall|m: Seq<char>|
            has_name(before, m) <==> exists|j: int| 0 <= j < i && #[trigger] cs[j].name@ == m,
    ensures
        has_name(before, cs[i].name@) <==> named_earlier(cs, i),
        load_outcome(cs.take(i + 1)) == (if named_earlier(cs, i) {
            LoadOutcome::Duplicate(cs[i].name@)
        } else if plan_refused(plan_outcome(cs[i].schedule@)) {
            LoadOutcome::Invalid(cs[i].name@, fault_text(plan_outcome(cs[i].schedule@)))
        } else {
            LoadOutcome::Loaded
        }),
{
    let prefix = cs.take(i + 1);
    assert(prefix.drop_last() =~= cs.take(i));
    assert(named_earlier(prefix, i) == named_earlier(cs, i)) by {
        if named_earlier(prefix, i) {
            let j = choose|j: int| 0 <= j < i && prefix[j].name@ == prefix[i].name@;
            assert(prefix[j] == cs[j]);
        }
        if named_earlier(cs, i) {
            let j = choose|j: int| 0 <= j < i && cs[j].name@ == cs[i].name@;
            assert(prefix[j] == cs[j]);
        }
    }
    if named_earlier(cs, i) {
        let j = choose|j: int| 0 <= j < i && cs[j].name@ == cs[i].name@;
        assert(cs[j].name@ == cs[i].name@);
    }
}

/// After `cs[i]` was added, the registry holds exactly the first `i + 1`.
proof fn lemma_load_added(cs: Seq<TaskConfig>, i: int, before: Seq<Task>, after: Seq<Task>)
    requires
        0 <= i < cs.len(),
        !has_name(before, cs[i].name@),
        forall|m: Seq<char>|
            has_name(before, m) <==> exists|j: int| 0 <= j < i && #[trigger] cs[j].name@ == m,
        forall|j: int|
            0 <= j < i ==> (lookup(before, #[trigger] cs[j].name@) matches Some(t) && task_from(cs[j], t)),
        lookup(after, cs[i].name@) matches Some(t) && task_from(cs[i], t),
        forall|m: Seq<char>| m != cs[i].name@ ==> #[trigger] lookup(after, m) == lookup(before, m),
    ensures
        forall|m: Seq<char>|
            has_name(after, m) <==> exists|j: int| 0 <= j < i + 1 && #[trigger] cs[j].name@ == m,
        forall|j: int|
            0 <= j < i + 1 ==> (lookup(after, #[trigger] cs[j].name@) matches Some(t) && task_from(cs[j], t)),
{
    assert forall|m: Seq<char>|
        has_name(after, m) <==> exists|j: int| 0 <= j < i + 1 && #[trigger] cs[j].name@ == m by {
        if m == cs[i].name@ {
            assert(lookup(after, m) is Some);
        } else {
            assert(lookup(after, m) == lookup(before, m));
            if exists|j: int| 0 <= j < i + 1 && #[trigger] cs[j].name@ == m {
                let j = choose|j: int| 0 <= j < i + 1 && #[trigger] cs[j].name@ == m;
                assert(j < i);
            }
        }
    }
    assert forall|j: int| 0 <= j < i + 1 implies (lookup(after, #[trigger] cs[j].name@) matches Some(t)
        && task_from(cs[j], t)) by {
        if j < i {
            if cs[j].name@ == cs[i].name@ {
                assert(has_name(before, cs[i].name@));
            }
            assert(lookup(after, cs[j].name@) == lookup(before, cs[j].name@));
        }
    }
}

/// Once loading stops at the first `k` configurations, it reaches none of
/// the later ones, so every schedule it reaches parses when the first `k`
/// do.
proof fn lemma_load_rest(cs: Seq<TaskConfig>, k: int)
    requires
        0 <= k <= cs.len(),
        !(load_outcome(cs.take(k)) is Loaded),
        parses_upto(cs, k),
    ensures
        load_parses(cs),
{
    assert forall|j: int|
        0 <= j < cs.len() && load_outcome(cs.take(j)) is Loaded && !named_earlier(cs, j) implies !(
        #[trigger] plan_outcome(cs[j].schedule@) is Overflow) by {
        if j >= k {
            lemma_not_reached(cs, k, j);
        }
    }
}

/// The schedule of `cs[i]` parses if loading reaches it, so the first `i + 1`
/// parse when the first `i` do.
proof fn lemma_parses_step(cs: Seq<TaskConfig>, i: int)
    requires
        0 <= i < cs.len(),
        parses_upto(cs, i),
        (load_outcome(cs.take(i)) is Loaded && !named_earlier(cs, i)) ==> !(plan_outcome(
            cs[i].schedule@,
        ) is Overflow),
    ensures
        parses_upto(cs, i + 1),
{
}

/// Loading that stopped within the first `k` configurations has stopped
/// within the first `j >= k`.
proof fn lemma_not_reached(cs: Seq<TaskConfig>, k: int, j: int)
    requires
        0 <= k <= j <= cs.len(),
        !(load_outcome(cs.take(k)) is Loaded),
    ensures
        !(load_outcome(cs.take(j)) is Loaded),
{
    let p = cs.take(j);
    assert(p.take(k) =~= cs.take(k));
    lemma_load_stops(p, k);
}

/// Once loading stops at a configuration, later ones do not change why.
proof fn lemma_load_stops(cs: Seq<TaskConfig>, k: int)
    requires
        0 <= k <= cs.len(),
        !(load_outcome(cs.take(k)) is Loaded),
    ensures
        load_outcome(cs) == load_outcome(cs.take(k)),
    decreases cs.len() - k,
{
    if k < cs.len() {
        assert(cs.take(k + 1).drop_last() =~= cs.take(k));
        lemma_load_stops(cs, k + 1);
    } else {
        assert(cs.take(k) =~= cs);
    }
}

// ---------------------------------------------------------------- laws

/// Setting a task back to the state it had undoes enabling or disabling it:
/// the registry is as before.
pub proof fn law_set_enabled_undone(s: Seq<Task>, name: Seq<char>, enabled: bool)
    requires
        names_sorted(s),
        has_name(s, name),
    ensures
        with_enabled(
            with_enabled(s, name, enabled),
            name,
            lookup(s, name).unwrap().config.enabled,
        ) == s,
{
    let i = position(s, name);
    lemma_position(s, i);
    let s1 = with_enabled(s, name, enabled);
    lemma_with_enabled_keeps_names(s, name, enabled);
    lemma_position(s1, i);
    assert(with_enabled(s1, name, s[i].config.enabled) =~= s);
}

/// Enabling or disabling a task keeps every name where it was.
proof fn lemma_with_enabled_keeps_names(s: Seq<Task>, name: Seq<char>, enabled: bool)
    requires
        names_sorted(s),
        has_name(s, name),
    ensures
        with_enabled(s, name, enabled).len() == s.len(),
        forall|j: int|
            0 <= j < s.len() ==> name_of(#[trigger] with_enabled(s, name, enabled)[j]) == name_of(
                s[j],
            ),
        forall|j: int|
            0 <= j < s.len() && j != position(s, name) ==> #[trigger] with_enabled(s, name, enabled)[j]
                == s[j],
        names_sorted(with_enabled(s, name, enabled)),
        position(s, name) == position(with_enabled(s, name, enabled), name),
        with_enabled(s, name, enabled)[position(s, name)].config.enabled == enabled,
{
    let i = position(s, name);
    lemma_position(s, i);
    let s1 = with_enabled(s, name, enabled);
    assert(name_of(s1[i]) == name);
    lemma_position(s1, i);
}

/// After a task is enabled it is among the enabled tasks; after it is
/// disabled it is not; the other tasks keep their state.
pub proof fn law_set_enabled_lists(s: Seq<Task>, name: Seq<char>, enabled: bool)
    requires
        names_sorted(s),
        has_name(s, name),
    ensures
        has_name(enabled_entries(with_enabled(s, name, enabled)), name) == enabled,
        forall|n: Seq<char>|
            n != name ==> (has_name(enabled_entries(with_enabled(s, name, enabled)), n)
                <==> #[trigger] has_name(enabled_entries(s), n)),
{
    let i = position(s, name);
    lemma_position(s, i);
    let s1 = with_enabled(s, name, enabled);
    lemma_with_enabled_keeps_names(s, name, enabled);
    lemma_enabled_names(s1);
    lemma_enabled_names(s);
    assert forall|n: Seq<char>| n != name implies (has_name(enabled_entries(s1), n)
        <==> #[trigger] has_name(enabled_entries(s), n)) by {
        if has_name(enabled_entries(s), n) {
            let j = choose|j: int| 0 <= j < s.len() && name_of(s[j]) == n && task_enabled(s[j]);
            assert(j != i);
            assert(s1[j] == s[j]);
        }
        if has_name(enabled_entries(s1), n) {
            let j = choose|j: int| 0 <= j < s1.len() && name_of(s1[j]) == n && task_enabled(s1[j]);
            assert(j != i);
            assert(s1[j] == s[j]);
        }
    }
    if enabled {
        assert(name_of(s1[i]) == name && task_enabled(s1[i]));
    } else if has_name(enabled_entries(s1), name) {
        let j = choose|j: int| 0 <= j < s1.len() && name_of(s1[j]) == name && task_enabled(s1[j]);
        assert(name_of(s[j]) == name_of(s[i]));
        crate::text::lemma_text_less_irreflexive(name);
        if j < i {
            assert(text_less(name_of(s[j]), name_of(s[i])));
        } else if j > i {
            assert(text_less(name_of(s[i]), name_of(s[j])));
        }
        assert(j == i);
    }
}

/// A name is among the enabled tasks exactly when an enabled task has it.
proof fn lemma_enabled_names(s: Seq<Task>)
    ensures
        forall|n: Seq<char>|
            #[trigger] has_name(enabled_entries(s), n) <==> exists|j: int|
                0 <= j < s.len() && name_of(s[j]) == n && task_enabled(s[j]),
{
    lemma_enabled_subset(s);
    assert forall|n: Seq<char>|
        (exists|j: int| 0 <= j < s.len() && name_of(s[j]) == n && task_enabled(s[j])) implies #[trigger] has_name(
        enabled_entries(s),
        n,
    ) by {
        let j = choose|j: int| 0 <= j < s.len() && name_of(s[j]) == n && task_enabled(s[j]);
        s.lemma_filter_contains(|t: Task| task_enabled(t), j);
        let e = enabled_entries(s);
        let k = choose|k: int| 0 <= k < e.len() && e[k] == s[j];
        assert(name_of(e[k]) == n);
    }
}

/// The enabled tasks are some of the tasks, each of them enabled, never
/// more than all the tasks.
pub proof fn law_enabled_subset(s: Seq<Task>)
    ensures
        enabled_entries(s).len() <= s.len(),
        forall|k: int|
            0 <= k < enabled_entries(s).len() ==> task_enabled(#[trigger] enabled_entries(s)[k])
                && s.contains(enabled_entries(s)[k]),
{
    lemma_enabled_subset(s);
}

proof fn lemma_enabled_subset(s: Seq<Task>)
    ensures
        enabled_entries(s).len() <= s.len(),
        forall|k: int|
            0 <= k < enabled_entries(s).len() ==> task_enabled(#[trigger] enabled_entries(s)[k])
                && s.contains(enabled_entries(s)[k]),
        forall|n: Seq<char>|
            #[trigger] has_name(enabled_entries(s), n) ==> exists|j: int|
                0 <= j < s.len() && name_of(s[j]) == n && task_enabled(s[j]),
{
    let e = enabled_entries(s);
    s.lemma_filter_len(|t: Task| task_enabled(t));
    assert forall|k: int| 0 <= k < e.len() implies task_enabled(#[trigger] e[k]) && s.contains(
        e[k],
    ) by {
        s.lemma_filter_pred(|t: Task| task_enabled(t), k);
        assert(e.contains(e[k]));
        s.lemma_filter_contains_rev(|t: Task| task_enabled(t), e[k]);
    }
    assert forall|n: Seq<char>| #[trigger] has_name(e, n) implies exists|j: int|
        0 <= j < s.len() && name_of(s[j]) == n && task_enabled(s[j]) by {
        let k = choose|k: int| 0 <= k < e.len() && name_of(e[k]) == n;
        assert(task_enabled(e[k]) && s.contains(e[k]));
        let j = choose|j: int| 0 <= j < s.len() && s[j] == e[k];
        assert(name_of(s[j]) == n && task_enabled(s[j]));
    }
}

/// The enabled tasks keep the name order of the registry, so each enabled
/// task is listed once and no name occurs twice among them.
pub proof fn law_enabled_unique(s: Seq<Task>)
    requires
        names_sorted(s),
    ensures
        names_sorted(enabled_entries(s)),
    decreases s.len(),
{
    reveal_with_fuel(Seq::filter, 1);
    if s.len() > 0 {
        let rest = s.drop_last();
        assert(names_sorted(rest));
        law_enabled_unique(rest);
        let e = enabled_entries(rest);
        if task_enabled(s.last()) {
            assert forall|k: int| 0 <= k < e.len() implies text_less(
                name_of(#[trigger] e[k]),
                name_of(s.last()),
            ) by {
                assert(e.contains(e[k]));
                rest.lemma_filter_contains_rev(|t: Task| task_enabled(t), e[k]);
                let j = choose|j: int| 0 <= j < rest.len() && rest[j] == e[k];
                assert(s[j] == e[k]);
            }
            assert(enabled_entries(s) == e.push(s.last()));
        } else {
            assert(enabled_entries(s) == e);
        }
    }
}

} // verus!
