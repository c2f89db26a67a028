//! Dispatch of claimed tasks to their handlers.
use vstd::prelude::*;
use crate::arith::{clip_u64, sat_add_u64};
use crate::task::TaskKind;
use crate::text::text;

verus! {

/// What a handler made of its task.
#[derive(Debug)]
pub enum TaskOutcome {
    Complete,
    Retry { delay_ms: u64, error_code: u16, error: String },
    Fail { error_code: u16, error: String },
}

/// Model of an outcome.
pub enum OutcomeModel {
    Complete,
    Retry { delay_ms: u64, error_code: u16, error: Seq<char> },
    Fail { error_code: u16, error: Seq<char> },
}

impl View for TaskOutcome {
    type V = OutcomeModel;

    open spec fn view(&self) -> OutcomeModel {
        match self {
            TaskOutcome::Complete => OutcomeModel::Complete,
            TaskOutcome::Retry { delay_ms, error_code, error } => OutcomeModel::Retry {
                delay_ms: *delay_ms,
                error_code: *error_code,
                error: error@,
            },
            TaskOutcome::Fail { error_code, error } => OutcomeModel::Fail {
                error_code: *error_code,
                error: error@,
            },
        }
    }
}

/// Registry error.
#[derive(Debug, Clone, Copy, PartialEq, Eq, Structural)]
pub enum TaskRegistryError {
    DuplicateKind(TaskKind),
    Stopped,
}

/// How a claimed task goes on.
#[derive(Debug)]
pub enum Dispatch {
    /// Hand it to the handler at this position.
    Run(usize),
    /// Fail it.
    Fail { error_code: u16, error: String },
}

/// How the claim of a task ends.
#[derive(Debug)]
pub enum Settlement {
    Complete,
    Retry { eligible_at_ms: u64, error_code: u16, error: String },
    Fail { error_code: u16, error: String },
}

/// Model of a settlement.
pub enum SettlementModel {
    Complete,
    Retry { eligible_at_ms: u64, error_code: u16, error: Seq<char> },
    Fail { error_code: u16, error: Seq<char> },
}

impl View for Settlement {
    type V = SettlementModel;

    open spec fn view(&self) -> SettlementModel {
        match self {
            Settlement::Complete => SettlementModel::Complete,
            Settlement::Retry { eligible_at_ms, error_code, error } => SettlementModel::Retry {
                eligible_at_ms: *eligible_at_ms,
                error_code: *error_code,
                error: error@,
            },
            Settlement::Fail { error_code, error } => SettlementModel::Fail {
                error_code: *error_code,
                error: error@,
            },
        }
    }
}

/// A registered handler: its kind and the payload version that it takes.
#[derive(Debug, Clone, Copy, PartialEq, Eq, Structural)]
pub struct Registration {
    pub kind: TaskKind,
    pub version: u16,
}

/// The kinds of the registrations.
pub open spec fn kinds(handlers: Seq<Registration>) -> Seq<TaskKind> {
    Seq::new(handlers.len(), |i: int| handlers[i].kind)
}

/// First position whose kind came before.
pub open spec fn first_repeat(kinds: Seq<TaskKind>, from: int) -> Option<TaskKind>
    decreases kinds.len() - from,
{
    if from < 0 || from >= kinds.len() {
        None
    } else if kinds.take(from).contains(kinds[from]) {
        Some(kinds[from])
    } else {
        first_repeat(kinds, from + 1)
    }
}

/// Handlers of distinct kinds, and how many tasks run at a time.
#[derive(Debug)]
pub struct TaskExecutor {
    pub handlers: Vec<Registration>,
    pub max_concurrency: usize,
}

/// The position of the handler of a kind.
pub open spec fn handler_for(handlers: Seq<Registration>, kind: TaskKind, from: int) -> Option<int>
    decreases handlers.len() - from,
{
    if from >= handlers.len() {
        None
    } else if handlers[from].kind == kind {
        Some(from)
    } else {
        handler_for(handlers, kind, from + 1)
    }
}

impl TaskExecutor {
    /// A registry of handlers; their kinds must be distinct. At least one task
    /// runs at a time.
    pub fn new(max_concurrency: usize, handlers: Vec<Registration>) -> (r: Result<
        TaskExecutor,
        TaskRegistryError,
    >)
        ensures
            match first_repeat(kinds(handlers@), 0) {
                Some(kind) => r == Err::<TaskExecutor, TaskRegistryError>(
                    TaskRegistryError::DuplicateKind(kind),
                ),
                None => r matches Ok(executor) && executor.handlers@ == handlers@
                    && executor.max_concurrency == (if max_concurrency == 0 {
                    1
                } else {
                    max_concurrency
                }),
            },
    {
        let ghost all = kinds(handlers@);
        let mut i: usize = 0;
        while i < handlers.len()
            invariant
                i <= handlers.len(),
                all == kinds(handlers@),
                first_repeat(all, 0) == first_repeat(all, i as int),
            decreases handlers.len() - i,
        {
            let kind = handlers[i].kind;
            let mut j: usize = 0;
            while j < i
                invariant
                    j <= i,
                    i < handlers.len(),
                    all == kinds(handlers@),
                    kind == all[i as int],
                    first_repeat(all, 0) == first_repeat(all, i as int),
                    forall|k: int| 0 <= k < j ==> all.take(i as int)[k] != kind,
                decreases i - j,
            {
                if handlers[j].kind == kind {
                    assert(all.take(i as int)[j as int] == kind);
                    return Err(TaskRegistryError::DuplicateKind(kind));
                }
                j = j + 1;
            }
            assert(!all.take(i as int).contains(kind));
            i = i + 1;
        }
        let limit: usize = if max_concurrency == 0 {
            1
        } else {
            max_concurrency
        };
        Ok(TaskExecutor { handlers, max_concurrency: limit })
    }

    /// Find the handler of a claimed task.
    pub fn dispatch(&self, kind: TaskKind, kind_version: u16) -> (r: Dispatch)
        ensures
            match handler_for(self.handlers@, kind, 0) {
                None => r matches Dispatch::Fail { error_code, error } && error_code == 2 && error@
                    == "no handler registered for task kind"@,
                Some(at) => if self.handlers@[at].version != kind_version {
                    r matches Dispatch::Fail { error_code, error } && error_code == 3 && error@
                        == "task payload version is unsupported"@
                } else {
                    r matches Dispatch::Run(found) && found == at
                },
            },
    {
        let mut i: usize = 0;
        while i < self.handlers.len()
            invariant
                i <= self.handlers.len(),
                handler_for(self.handlers@, kind, 0) == handler_for(self.handlers@, kind, i as int),
            decreases self.handlers.len() - i,
        {
            if self.handlers[i].kind == kind {
                if self.handlers[i].version != kind_version {
                    return Dispatch::Fail {
                        error_code: 3,
                        error: text("task payload version is unsupported"),
                    };
                }
                return Dispatch::Run(i);
            }
            i = i + 1;
        }
        Dispatch::Fail { error_code: 2, error: text("no handler registered for task kind") }
    }

    /// Free places for tasks.
    pub fn available_capacity(&self, running: usize) -> (r: usize)
        ensures
            r == (if running >= self.max_concurrency {
                0
            } else {
                self.max_concurrency - running
            }),
    {
        if running >= self.max_concurrency {
            0
        } else {
            self.max_concurrency - running
        }
    }
}

/// How a claim ends after its handler's outcome.
pub fn settle(outcome: TaskOutcome, now_ms: u64) -> (r: Settlement)
    ensures
        r@ == (match outcome@ {
            OutcomeModel::Complete => SettlementModel::Complete,
            OutcomeModel::Retry { delay_ms, error_code, error } => SettlementModel::Retry {
                eligible_at_ms: clip_u64(now_ms + delay_ms),
                error_code,
                error,
            },
            OutcomeModel::Fail { error_code, error } => SettlementModel::Fail { error_code, error },
        }),
{
    match outcome {
        TaskOutcome::Complete => Settlement::Complete,
        TaskOutcome::Retry { delay_ms, error_code, error } => Settlement::Retry {
            eligible_at_ms: sat_add_u64(now_ms, delay_ms),
            error_code,
            error,
        },
        TaskOutcome::Fail { error_code, error } => Settlement::Fail { error_code, error },
    }
}

} // verus!
