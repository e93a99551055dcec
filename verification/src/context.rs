//! Type-keyed context injection along the scope tree: an ancestor provides
//! a value, any descendant looks it up by type, and the nearest providing
//! ancestor wins.

use vstd::prelude::*;
use crate::handles::{Scope, Fault};
use crate::state::{ContextEntry, ScopeState};
use crate::runtime::Runtime;
use crate::value::{Value, ValueKind, kind_of, value_kind};

verus! {

/// The newest entry of `kind` among a scope's own context entries.
pub open spec fn ctx_find(entries: Seq<ContextEntry>, kind: ValueKind) -> Option<Value>
    decreases entries.len(),
{
    if entries.len() == 0 {
        None
    } else if entries.last().kind == kind {
        Some(entries.last().value)
    } else {
        ctx_find(entries.drop_last(), kind)
    }
}

/// Context lookup: the scope's own entries first, then the ancestor chain,
/// nearest first; `None` once the root is exhausted.
pub open spec fn ctx_lookup(states: Seq<ScopeState>, i: int, kind: ValueKind) -> Option<Value>
    decreases i,
{
    if 0 <= i < states.len() {
        match ctx_find(states[i].contexts@, kind) {
            Some(v) => Some(v),
            None => match states[i].parent {
                Some(p) => if (p as int) < i {
                    ctx_lookup(states, p as int, kind)
                } else {
                    None
                },
                None => None,
            },
        }
    } else {
        None
    }
}

/// Provide a context value in `scope`, keyed by its type tag, shadowing any
/// earlier value of the same kind in this scope.
pub fn provide_context(rt: &mut Runtime, scope: Scope, value: Value) -> (r: Result<(), Fault>)
    requires
        old(rt).wf(),
    ensures
        final(rt).wf(),
        r is Ok <==> old(rt).live(scope),
        !old(rt).live(scope) ==> *final(rt) == *old(rt) && r == Err::<(), Fault>(Fault::Dangling),
        r is Ok ==> {
            &&& final(rt).smap() == old(rt).smap()
            &&& final(rt).stack == old(rt).stack
            &&& final(rt).n() == old(rt).n()
            &&& forall|i: int|
                0 <= i < old(rt).n() && i != scope.idx as int ==> final(rt).st(i) == old(rt).st(
                    i,
                )
            &&& final(rt).st(scope.idx as int).contexts@ == old(rt).st(
                scope.idx as int,
            ).contexts@.push(ContextEntry { kind: kind_of(value), value })
            &&& final(rt).st(scope.idx as int).signals == old(rt).st(scope.idx as int).signals
            &&& final(rt).st(scope.idx as int).memos == old(rt).st(scope.idx as int).memos
            &&& final(rt).st(scope.idx as int).effects == old(rt).st(scope.idx as int).effects
            &&& final(rt).st(scope.idx as int).children == old(rt).st(scope.idx as int).children
            &&& final(rt).st(scope.idx as int).parent == old(rt).st(scope.idx as int).parent
        },
{
    let i = match rt.resolve(scope) {
        Some(i) => i,
        None => {
            return Err(Fault::Dangling);
        },
    };
    proof {
        assert((i as int) < rt.n());
    }
    let k = value_kind(&value);
    {
        let st = &mut rt.states[i];
        st.contexts.push(ContextEntry { kind: k, value });
    }
    proof {
        let pre = *old(rt);
        let post = *rt;
        assert forall|ii: int| 0 <= ii < post.n() implies #[trigger] post.scope_wf(ii) by {
            assert(pre.scope_wf(ii));
            match post.st(ii).parent {
                Some(q) => {
                    let c = choose|c: int|
                        0 <= c < pre.st(q as int).children@.len() && (#[trigger] pre.st(
                            q as int,
                        ).children@[c]).idx as int == ii;
                    assert(post.st(q as int).children@[c] == pre.st(q as int).children@[c]);
                },
                None => {},
            }
            assert forall|c: int| 0 <= c < post.st(ii).children@.len() implies post.child_ok(
                ii,
                #[trigger] post.st(ii).children@[c],
            ) by {
                assert(pre.child_ok(ii, pre.st(ii).children@[c]));
            }
        }
    }
    Ok(())
}

/// Scan one scope's own entries, newest first.
fn find_in_scope(rt: &Runtime, i: usize, kind: ValueKind) -> (r: Option<Value>)
    requires
        rt.wf(),
        (i as int) < rt.n(),
    ensures
        r == ctx_find(rt.st(i as int).contexts@, kind),
{
    let entries = &rt.states[i].contexts;
    let mut j: usize = entries.len();
    proof {
        assert(entries@.take(j as int) =~= entries@);
    }
    while j > 0
        invariant
            j <= entries@.len(),
            entries@ == rt.st(i as int).contexts@,
            ctx_find(entries@, kind) == ctx_find(entries@.take(j as int), kind),
        decreases j,
    {
        proof {
            assert(entries@.take(j as int).last() == entries@[j as int - 1]);
            assert(entries@.take(j as int).drop_last() =~= entries@.take(j as int - 1));
        }
        if entries[j - 1].kind == kind {
            return Some(entries[j - 1].value.clone());
        }
        j -= 1;
    }
    proof {
        assert(entries@.take(0) =~= Seq::<ContextEntry>::empty());
    }
    None
}

/// Walk the ancestor chain from scope index `i` upward.
fn lookup_from(rt: &Runtime, i: usize, kind: ValueKind) -> (r: Option<Value>)
    requires
        rt.wf(),
        (i as int) < rt.n(),
    ensures
        r == ctx_lookup(rt.states@, i as int, kind),
    decreases i,
{
    match find_in_scope(rt, i, kind) {
        Some(v) => Some(v),
        None => {
            proof {
                assert(rt.scope_wf(i as int));
            }
            match rt.states[i].parent {
                Some(p) => lookup_from(rt, p, kind),
                None => None,
            }
        },
    }
}

/// Look a context value up by type from `scope`: the nearest providing
/// ancestor's value (the scope itself counts), `None` when no ancestor
/// provides one.
pub fn use_context(rt: &Runtime, scope: Scope, kind: ValueKind) -> (r: Result<
    Option<Value>,
    Fault,
>)
    requires
        rt.wf(),
    ensures
        r is Ok <==> rt.live(scope),
        r is Err ==> r == Err::<Option<Value>, Fault>(Fault::Dangling),
        r matches Ok(v) ==> v == ctx_lookup(rt.states@, scope.idx as int, kind),
{
    let i = match rt.resolve(scope) {
        Some(i) => i,
        None => {
            return Err(Fault::Dangling);
        },
    };
    proof {
        assert((i as int) < rt.n());
    }
    Ok(lookup_from(rt, i, kind))
}

} // verus!
