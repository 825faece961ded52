//! The fixed table of tasks and shared resources, with the priority ceiling of
//! each resource computed once from the tasks that access it.
use vstd::prelude::*;

verus! {

/// What makes a task pending: a hardware interrupt vector, or a software spawn.
#[derive(Clone, Copy, Debug, PartialEq, Eq, Structural)]
pub enum Trigger {
    Interrupt(u16),
    Software,
}

/// The static description of one task. Priority 0 is reserved for the idle task.
#[derive(Clone, Copy, Debug, PartialEq, Eq, Structural)]
pub struct TaskDef {
    pub priority: u8,
    pub trigger: Trigger,
}

/// Why a task/resource registration was not accepted.
#[derive(Clone, Copy, Debug, PartialEq, Eq, Structural)]
pub enum ConfigError {
    /// A task was given priority 0, the idle level.
    ZeroPriority,
    /// Two tasks are bound to the same interrupt vector.
    DuplicateVector,
    /// A resource names a task id outside the table.
    UnknownTask,
}

/// The priority ceiling of a resource: the highest priority among the tasks
/// that access it, 0 when none does.
pub open spec fn ceiling_of(tasks: Seq<TaskDef>, users: Seq<usize>) -> nat
    decreases users.len(),
{
    if users.len() == 0 {
        0
    } else {
        let rest = ceiling_of(tasks, users.drop_last());
        let p = tasks[users.last() as int].priority as nat;
        if p > rest {
            p
        } else {
            rest
        }
    }
}

pub open spec fn priorities_valid(tasks: Seq<TaskDef>) -> bool {
    forall|i: int| 0 <= i < tasks.len() ==> tasks[i].priority >= 1
}

pub open spec fn vectors_unique(tasks: Seq<TaskDef>) -> bool {
    forall|i: int, j: int|
        0 <= i < j < tasks.len() && tasks[i].trigger is Interrupt ==> tasks[i].trigger
            != tasks[j].trigger
}

pub open spec fn users_valid(n: nat, users: Seq<Seq<usize>>) -> bool {
    forall|r: int, k: int| 0 <= r < users.len() && 0 <= k < users[r].len() ==> users[r][k] < n
}

/// A registration that can be accepted.
pub open spec fn config_valid(tasks: Seq<TaskDef>, users: Seq<Seq<usize>>) -> bool {
    priorities_valid(tasks) && vectors_unique(tasks) && users_valid(tasks.len(), users)
}

/// Every access of a resource comes with a ceiling no lower than the accessor's priority.
pub proof fn lemma_user_below_ceiling(tasks: Seq<TaskDef>, users: Seq<usize>, k: int)
    requires
        0 <= k < users.len(),
        forall|j: int| 0 <= j < users.len() ==> users[j] < tasks.len(),
    ensures
        tasks[users[k] as int].priority <= ceiling_of(tasks, users),
    decreases users.len(),
{
    if k < users.len() - 1 {
        let rest = users.drop_last();
        lemma_user_below_ceiling(tasks, rest, k);
    }
}

pub struct TaskTable {
    tasks: Vec<TaskDef>,
    users: Vec<Vec<usize>>,
    ceilings: Vec<u8>,
}

impl TaskTable {
    pub closed spec fn tasks_view(&self) -> Seq<TaskDef> {
        self.tasks@
    }

    /// For each resource, the ids of the tasks that access it.
    pub closed spec fn users_view(&self) -> Seq<Seq<usize>> {
        self.users@.map_values(|v: Vec<usize>| v@)
    }

    pub closed spec fn ceilings_view(&self) -> Seq<u8> {
        self.ceilings@
    }

    pub open spec fn wf(&self) -> bool {
        &&& config_valid(self.tasks_view(), self.users_view())
        &&& self.ceilings_view().len() == self.users_view().len()
        &&& forall|r: int|
            0 <= r < self.users_view().len() ==> self.ceilings_view()[r] as nat == ceiling_of(
                self.tasks_view(),
                self.users_view()[r],
            )
    }

    /// Whether task `t` accesses resource `r`.
    pub open spec fn accesses(&self, t: usize, r: usize) -> bool {
        r < self.users_view().len() && self.users_view()[r as int].contains(t)
    }

    pub open spec fn prio(&self, t: usize) -> nat {
        self.tasks_view()[t as int].priority as nat
    }

    pub open spec fn ceiling(&self, r: usize) -> nat {
        self.ceilings_view()[r as int] as nat
    }

    /// A task that accesses a resource never has a priority above its ceiling.
    pub proof fn lemma_accessor_below_ceiling(&self, t: usize, r: usize)
        requires
            self.wf(),
            self.accesses(t, r),
        ensures
            self.prio(t) <= self.ceiling(r),
    {
        let us = self.users_view()[r as int];
        let k = choose|k: int| 0 <= k < us.len() && us[k] == t;
        lemma_user_below_ceiling(self.tasks_view(), us, k);
    }

    /// Checks a registration and computes the ceiling of every resource.
    /// `users[r]` lists the ids of the tasks that access resource `r`.
    pub fn new(tasks: Vec<TaskDef>, users: Vec<Vec<usize>>) -> (r: Result<TaskTable, ConfigError>)
        ensures
            !priorities_valid(tasks@) <==> r == Err::<TaskTable, ConfigError>(
                ConfigError::ZeroPriority,
            ),
            priorities_valid(tasks@) && !vectors_unique(tasks@) <==> r == Err::<
                TaskTable,
                ConfigError,
            >(ConfigError::DuplicateVector),
            priorities_valid(tasks@) && vectors_unique(tasks@) && !users_valid(
                tasks@.len(),
                users@.map_values(|v: Vec<usize>| v@),
            ) <==> r == Err::<TaskTable, ConfigError>(ConfigError::UnknownTask),
            r is Ok ==> r->Ok_0.wf() && r->Ok_0.tasks_view() == tasks@ && r->Ok_0.users_view()
                == users@.map_values(|v: Vec<usize>| v@),
    {
        let n = tasks.len();
        let mut i: usize = 0;
        while i < n
            invariant
                n == tasks@.len(),
                0 <= i <= n,
                forall|j: int| 0 <= j < i ==> tasks@[j].priority >= 1,
            decreases n - i,
        {
            if tasks[i].priority == 0 {
                return Err(ConfigError::ZeroPriority);
            }
            i = i + 1;
        }
        let mut i: usize = 0;
        while i < n
            invariant
                n == tasks@.len(),
                0 <= i <= n,
                priorities_valid(tasks@),
                forall|a: int, b: int|
                    0 <= a < i && a < b < n && tasks@[a].trigger is Interrupt
                        ==> tasks@[a].trigger != tasks@[b].trigger,
            decreases n - i,
        {
            if let Trigger::Interrupt(v) = tasks[i].trigger {
                let mut j: usize = i + 1;
                while j < n
                    invariant
                        n == tasks@.len(),
                        priorities_valid(tasks@),
                        0 <= i < j <= n,
                        tasks@[i as int].trigger == Trigger::Interrupt(v),
                        forall|b: int| i < b < j ==> tasks@[i as int].trigger != tasks@[b].trigger,
                    decreases n - j,
                {
                    if tasks[j].trigger == Trigger::Interrupt(v) {
                        return Err(ConfigError::DuplicateVector);
                    }
                    j = j + 1;
                }
            }
            i = i + 1;
        }
        let ghost uv = users@.map_values(|v: Vec<usize>| v@);
        let mut ceilings: Vec<u8> = Vec::new();
        let mut r: usize = 0;
        while r < users.len()
            invariant
                n == tasks@.len(),
                priorities_valid(tasks@),
                vectors_unique(tasks@),
                uv == users@.map_values(|v: Vec<usize>| v@),
                uv.len() == users@.len(),
                0 <= r <= users@.len(),
                ceilings@.len() == r,
                forall|a: int, k: int| 0 <= a < r && 0 <= k < uv[a].len() ==> uv[a][k] < n,
                forall|a: int| 0 <= a < r ==> ceilings@[a] as nat == ceiling_of(tasks@, uv[a]),
            decreases users@.len() - r,
        {
            let us = &users[r];
            assert(uv[r as int] == us@);
            let mut c: u8 = 0;
            let mut k: usize = 0;
            while k < us.len()
                invariant
                    n == tasks@.len(),
                    priorities_valid(tasks@),
                    vectors_unique(tasks@),
                    uv == users@.map_values(|v: Vec<usize>| v@),
                    r < uv.len(),
                    uv[r as int] == us@,
                    0 <= k <= us@.len(),
                    forall|j: int| 0 <= j < k ==> us@[j] < n,
                    c as nat == ceiling_of(tasks@, us@.take(k as int)),
                decreases us@.len() - k,
            {
                let t = us[k];
                if t >= n {
                    assert(!users_valid(tasks@.len(), uv)) by {
                        assert(uv[r as int][k as int] >= n);
                    }
                    return Err(ConfigError::UnknownTask);
                }
                assert(us@.take(k as int + 1).drop_last() == us@.take(k as int));
                let p = tasks[t].priority;
                if p > c {
                    c = p;
                }
                k = k + 1;
            }
            assert(us@.take(k as int) == us@);
            ceilings.push(c);
            r = r + 1;
        }
        Ok(TaskTable { tasks, users, ceilings })
    }

    pub fn num_tasks(&self) -> (r: usize)
        ensures
            r == self.tasks_view().len(),
    {
        self.tasks.len()
    }

    pub fn num_resources(&self) -> (r: usize)
        ensures
            r == self.users_view().len(),
    {
        self.users.len()
    }

    pub fn priority(&self, t: usize) -> (r: u8)
        requires
            t < self.tasks_view().len(),
        ensures
            r == self.tasks_view()[t as int].priority,
    {
        self.tasks[t].priority
    }

    pub fn trigger(&self, t: usize) -> (r: Trigger)
        requires
            t < self.tasks_view().len(),
        ensures
            r == self.tasks_view()[t as int].trigger,
    {
        self.tasks[t].trigger
    }

    /// The priority ceiling of resource `r`.
    pub fn ceiling_value(&self, r: usize) -> (c: u8)
        requires
            r < self.ceilings_view().len(),
        ensures
            c == self.ceilings_view()[r as int],
    {
        self.ceilings[r]
    }
}

} // verus!
