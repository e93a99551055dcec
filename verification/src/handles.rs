use vstd::prelude::*;
use slotmap::DefaultKey;
use crate::slots::key_eq;

verus! {

/// A scope handle: the generation-checked arena key, together with the index
/// of the scope's state in the runtime's backing store. A handle is
/// meaningless outside the runtime it came from.
#[derive(Clone, Copy, Debug)]
pub struct Scope {
    pub key: DefaultKey,
    pub idx: usize,
}

/// A handle to a signal: the owning scope and the slot in its signal arena.
#[derive(Clone, Copy, Debug)]
pub struct SignalHandle {
    pub scope: Scope,
    pub id: usize,
}

/// A handle to a memo: the owning scope and the slot in its memo arena.
#[derive(Clone, Copy, Debug)]
pub struct MemoHandle {
    pub scope: Scope,
    pub id: usize,
}

/// A handle to an effect: the owning scope and the slot in its effect arena.
#[derive(Clone, Copy, Debug)]
pub struct EffectHandle {
    pub scope: Scope,
    pub id: usize,
}

/// The unit that can be "currently running" on the tracking stack and thereby
/// accrue dependency edges from reads: an effect or a memo.
#[derive(Clone, Copy, Debug)]
pub enum Subscriber {
    Effect(EffectHandle),
    Memo(MemoHandle),
}

/// The one error class of the core: an internal referential-integrity
/// violation, unrecoverable by design.
#[derive(Clone, Copy, PartialEq, Eq, Structural, Debug)]
pub enum Fault {
    /// A handle that does not resolve to a live entity (stale after disposal,
    /// or from a foreign runtime).
    Dangling,
    /// A typed access whose expected tag differs from the stored one.
    TypeMismatch,
    /// An addition inside a computation overflowed.
    Overflow,
    /// A computation exceeded the evaluation depth budget (a dependency
    /// cycle, or a degenerate expression).
    Exhausted,
}

pub fn scope_eq(a: &Scope, b: &Scope) -> (r: bool)
    ensures
        r == (*a == *b),
{
    key_eq(&a.key, &b.key) && a.idx == b.idx
}

pub fn subscriber_eq(a: &Subscriber, b: &Subscriber) -> (r: bool)
    ensures
        r == (*a == *b),
{
    match (a, b) {
        (Subscriber::Effect(x), Subscriber::Effect(y)) => scope_eq(&x.scope, &y.scope)
            && x.id == y.id,
        (Subscriber::Memo(x), Subscriber::Memo(y)) => scope_eq(&x.scope, &y.scope)
            && x.id == y.id,
        _ => false,
    }
}

} // verus!
