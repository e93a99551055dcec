use vstd::prelude::*;
use crate::value::{Value, ValueKind};
use crate::handles::{Scope, SignalHandle, MemoHandle, Subscriber};

verus! {

/// A computation over the reactive graph: the body of a memo or an effect.
///
/// Reading a cell through `ReadSignal` / `ReadMemo` while a subscriber is on
/// the tracking stack registers that subscriber as a dependent of the cell.
/// `Untracked` evaluates its body with an empty tracking stack, so reads
/// inside it register nothing.
pub enum Expr {
    Const(Value),
    ReadSignal(SignalHandle),
    ReadMemo(MemoHandle),
    Add(Box<Expr>, Box<Expr>),
    Untracked(Box<Expr>),
}

/// Whether an expression reads no memo (its evaluation then touches no cached
/// state and is a pure function of the current signal values).
pub open spec fn memo_free(e: Expr) -> bool
    decreases e,
{
    match e {
        Expr::Const(_) => true,
        Expr::ReadSignal(_) => true,
        Expr::ReadMemo(_) => false,
        Expr::Add(a, b) => memo_free(*a) && memo_free(*b),
        Expr::Untracked(inner) => memo_free(*inner),
    }
}

/// The size of an expression: evaluating `e` needs a depth budget of at
/// least `size(e)`.
pub open spec fn size(e: Expr) -> nat
    decreases e,
{
    match e {
        Expr::Const(_) => 1,
        Expr::ReadSignal(_) => 1,
        Expr::ReadMemo(_) => 1,
        Expr::Add(a, b) => 1 + size(*a) + size(*b),
        Expr::Untracked(inner) => 1 + size(*inner),
    }
}

impl Clone for Expr {
    fn clone(&self) -> (res: Expr)
        ensures
            res == *self,
        decreases *self,
    {
        match self {
            Expr::Const(v) => Expr::Const(v.clone()),
            Expr::ReadSignal(h) => Expr::ReadSignal(*h),
            Expr::ReadMemo(h) => Expr::ReadMemo(*h),
            Expr::Add(a, b) => Expr::Add(Box::new((**a).clone()), Box::new((**b).clone())),
            Expr::Untracked(inner) => Expr::Untracked(Box::new((**inner).clone())),
        }
    }
}

/// A mutable reactive value cell and its registered dependents.
pub struct SignalState {
    pub value: Value,
    pub subscribers: Vec<Subscriber>,
}

/// A derived, cached computation. `history` holds every value the memo has
/// computed, newest last; the cached value is the last entry. `dirty` marks
/// that an input changed since the last computation, so the next read must
/// recompute.
pub struct MemoState {
    pub expr: Expr,
    pub dirty: bool,
    pub history: Vec<Value>,
    pub subscribers: Vec<Subscriber>,
}

/// A side-effecting subscriber. `history` holds the value of every run,
/// newest last: the observable record of the effect's side effects, and its
/// last-seen value.
pub struct EffectState {
    pub expr: Expr,
    pub history: Vec<Value>,
}

/// One entry of a scope's type-keyed context map.
pub struct ContextEntry {
    pub kind: ValueKind,
    pub value: Value,
}

/// The state of one scope: its place in the ownership tree, its injected
/// context values, and the arenas of the entities it exclusively owns.
pub struct ScopeState {
    /// Index of the parent scope's state; `None` for a root.
    pub parent: Option<usize>,
    /// The child scopes, in creation order.
    pub children: Vec<Scope>,
    /// The type-keyed context entries, newest last; the newest entry of a
    /// kind shadows older ones.
    pub contexts: Vec<ContextEntry>,
    pub signals: Vec<SignalState>,
    pub memos: Vec<MemoState>,
    pub effects: Vec<EffectState>,
}

} // verus!
