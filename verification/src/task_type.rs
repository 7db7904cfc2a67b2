//! Identifiers, task types, reference kinds and durations.
use vstd::prelude::*;

verus! {

/// The identifier of a task.
#[derive(Clone, Copy, PartialEq, Eq, Structural, Debug, Hash)]
pub struct TaskId {
    pub id: u32,
}

/// The identifier of a registered native function.
#[derive(Clone, Copy, PartialEq, Eq, Structural, Debug, Hash)]
pub struct FunctionId {
    pub id: u32,
}

/// The identifier of a registered trait type.
#[derive(Clone, Copy, PartialEq, Eq, Structural, Debug, Hash)]
pub struct TraitTypeId {
    pub id: u32,
}

/// What kind of task a task is; tasks of one type are counted together.
#[derive(Debug)]
pub enum TaskType {
    Root(TaskId),
    Once(TaskId),
    Native(FunctionId),
    ResolveNative(FunctionId),
    ResolveTrait(TraitTypeId, String),
}

/// A task type as a mathematical value.
pub enum TaskTypeView {
    Root(TaskId),
    Once(TaskId),
    Native(FunctionId),
    ResolveNative(FunctionId),
    ResolveTrait(TraitTypeId, Seq<char>),
}

impl View for TaskType {
    type V = TaskTypeView;

    open spec fn view(&self) -> TaskTypeView {
        match self {
            TaskType::Root(id) => TaskTypeView::Root(*id),
            TaskType::Once(id) => TaskTypeView::Once(*id),
            TaskType::Native(f) => TaskTypeView::Native(*f),
            TaskType::ResolveNative(f) => TaskTypeView::ResolveNative(*f),
            TaskType::ResolveTrait(t, n) => TaskTypeView::ResolveTrait(*t, n@),
        }
    }
}

impl Clone for TaskType {
    fn clone(&self) -> (r: Self)
        ensures
            r@ == self@,
    {
        match self {
            TaskType::Root(id) => TaskType::Root(*id),
            TaskType::Once(id) => TaskType::Once(*id),
            TaskType::Native(f) => TaskType::Native(*f),
            TaskType::ResolveNative(f) => TaskType::ResolveNative(*f),
            TaskType::ResolveTrait(t, n) => TaskType::ResolveTrait(*t, n.clone()),
        }
    }
}

impl TaskType {
    /// Whether two task types are the same.
    pub fn same_as(&self, other: &TaskType) -> (r: bool)
        ensures
            r == (self@ == other@),
    {
        match (self, other) {
            (TaskType::Root(a), TaskType::Root(b)) => a.id == b.id,
            (TaskType::Once(a), TaskType::Once(b)) => a.id == b.id,
            (TaskType::Native(a), TaskType::Native(b)) => a.id == b.id,
            (TaskType::ResolveNative(a), TaskType::ResolveNative(b)) => a.id == b.id,
            (TaskType::ResolveTrait(a, n), TaskType::ResolveTrait(b, m)) => a.id == b.id && *n
                == *m,
            _ => false,
        }
    }
}

/// How a task type is shown: `root`, `once`, the function's name,
/// `resolve <function>`, or `resolve trait <trait>::<method>`, where `name`
/// is the registered name of the function or trait.
pub open spec fn task_type_text(t: TaskTypeView, name: Seq<char>) -> Seq<char> {
    match t {
        TaskTypeView::Root(_) => "root"@,
        TaskTypeView::Once(_) => "once"@,
        TaskTypeView::Native(_) => name,
        TaskTypeView::ResolveNative(_) => "resolve "@ + name,
        TaskTypeView::ResolveTrait(_, m) => "resolve trait "@ + name + "::"@ + m,
    }
}

impl TaskType {
    /// The text that shows the task type, given the registered name of its
    /// function or trait (unused for root and once tasks).
    pub fn to_display_string(&self, registered_name: &str) -> (r: String)
        ensures
            r@ == task_type_text(self@, registered_name@),
    {
        match self {
            TaskType::Root(_) => String::from_str("root"),
            TaskType::Once(_) => String::from_str("once"),
            TaskType::Native(_) => String::from_str(registered_name),
            TaskType::ResolveNative(_) => String::from_str("resolve ").concat(registered_name),
            TaskType::ResolveTrait(_, m) => String::from_str("resolve trait ").concat(registered_name).concat("::").concat(
                m.as_str(),
            ),
        }
    }
}

/// How one task refers to another.
#[derive(Clone, Copy, PartialEq, Eq, Structural, Debug, Hash)]
pub enum ReferenceType {
    Child,
    Dependency,
    Input,
}

/// The largest duration, in nanoseconds: `u64::MAX` seconds and
/// 999_999_999 nanoseconds.
pub const MAX_DURATION_NANOS: u128 = 18_446_744_073_709_551_615_999_999_999u128;

/// A span of time, counted in nanoseconds, no longer than the largest
/// duration that `u64` seconds and a nanosecond part can hold.
#[derive(Clone, Copy, Debug)]
pub struct Duration {
    nanos: u128,
}

impl View for Duration {
    type V = nat;

    closed spec fn view(&self) -> nat {
        self.nanos as nat
    }
}

impl Duration {
    #[verifier::type_invariant]
    spec fn within_range(self) -> bool {
        self.nanos <= MAX_DURATION_NANOS
    }

    /// The empty duration.
    pub fn zero() -> (r: Duration)
        ensures
            r@ == 0,
    {
        Duration { nanos: 0 }
    }

    /// A duration of `nanos` nanoseconds; `None` where that is longer than
    /// the largest duration.
    pub fn from_nanos(nanos: u128) -> (r: Option<Duration>)
        ensures
            nanos <= MAX_DURATION_NANOS ==> (r matches Some(d) && d@ == nanos),
            nanos > MAX_DURATION_NANOS ==> r is None,
    {
        if nanos <= MAX_DURATION_NANOS {
            Some(Duration { nanos })
        } else {
            None
        }
    }

    /// The duration in nanoseconds.
    pub fn as_nanos(&self) -> (r: u128)
        ensures
            r == self@,
            r <= MAX_DURATION_NANOS,
    {
        proof {
            use_type_invariant(self);
        }
        self.nanos
    }

    /// The sum of two durations; the sum must not exceed the largest duration.
    pub fn add(self, other: Duration) -> (r: Duration)
        requires
            self@ + other@ <= MAX_DURATION_NANOS,
        ensures
            r@ == self@ + other@,
    {
        Duration { nanos: self.nanos + other.nanos }
    }

    /// The sum of two durations, or `None` where it exceeds the largest
    /// duration.
    pub fn checked_add(self, other: Duration) -> (r: Option<Duration>)
        ensures
            self@ + other@ <= MAX_DURATION_NANOS ==> (r matches Some(d) && d@ == self@ + other@),
            self@ + other@ > MAX_DURATION_NANOS ==> r is None,
    {
        proof {
            use_type_invariant(&self);
            use_type_invariant(&other);
        }
        if other.nanos <= MAX_DURATION_NANOS - self.nanos {
            Some(Duration { nanos: self.nanos + other.nanos })
        } else {
            None
        }
    }

    /// The longer of two durations.
    pub fn max(self, other: Duration) -> (r: Duration)
        ensures
            r@ == if self@ >= other@ {
                self@
            } else {
                other@
            },
    {
        if self.nanos >= other.nanos {
            self
        } else {
            other
        }
    }
}

} // verus!
