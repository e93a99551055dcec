//! The runtime: the single source of truth for scope storage and the
//! dependency-tracking stack.
//!
//! Every cross-entity operation goes through the runtime: resolving a handle,
//! pushing and popping the tracking stack, creating and disposing scopes.
//! A handle that does not resolve is a `Fault::Dangling`; that is a
//! use-after-dispose (or a handle from a foreign runtime) and unrecoverable
//! by design.

use vstd::prelude::*;
use slotmap::DefaultKey;
use crate::slots::{ScopeArena, arena_new};
use crate::handles::{Scope, SignalHandle, MemoHandle, EffectHandle, Subscriber, Fault};
use crate::state::{ScopeState, SignalState, MemoState, EffectState};
use crate::value::Value;

verus! {

/// A placeholder for the transition machinery, which is not part of this
/// core: no transition ever runs.
pub struct TransitionState {
}

pub struct Runtime {
    pub slots: ScopeArena,
    pub states: Vec<ScopeState>,
    pub stack: Vec<Subscriber>,
}

impl Runtime {
    /// The arena: each live scope key, mapped to its index in `states`.
    pub open spec fn smap(self) -> Map<DefaultKey, usize> {
        self.slots@
    }

    /// How many scope states the backing store holds (live or disposed).
    pub open spec fn n(self) -> int {
        self.states@.len() as int
    }

    pub open spec fn st(self, i: int) -> ScopeState {
        self.states@[i]
    }

    /// A scope handle resolves: its key is in the arena and maps to its
    /// index.
    pub open spec fn live(self, s: Scope) -> bool {
        &&& self.smap().contains_key(s.key)
        &&& self.smap()[s.key] == s.idx
        &&& (s.idx as int) < self.n()
    }

    pub open spec fn live_signal(self, h: SignalHandle) -> bool {
        self.live(h.scope) && (h.id as int) < self.st(h.scope.idx as int).signals@.len()
    }

    pub open spec fn sig(self, h: SignalHandle) -> SignalState {
        self.st(h.scope.idx as int).signals@[h.id as int]
    }

    pub open spec fn sig_val(self, h: SignalHandle) -> Value {
        self.sig(h).value
    }

    pub open spec fn sig_subs(self, h: SignalHandle) -> Seq<Subscriber> {
        self.sig(h).subscribers@
    }

    pub open spec fn live_memo(self, h: MemoHandle) -> bool {
        self.live(h.scope) && (h.id as int) < self.st(h.scope.idx as int).memos@.len()
    }

    pub open spec fn memo_st(self, h: MemoHandle) -> MemoState {
        self.st(h.scope.idx as int).memos@[h.id as int]
    }

    pub open spec fn memo_log(self, h: MemoHandle) -> Seq<Value> {
        self.memo_st(h).history@
    }

    pub open spec fn memo_dirty(self, h: MemoHandle) -> bool {
        self.memo_st(h).dirty
    }

    pub open spec fn memo_subs(self, h: MemoHandle) -> Seq<Subscriber> {
        self.memo_st(h).subscribers@
    }

    pub open spec fn live_effect(self, h: EffectHandle) -> bool {
        self.live(h.scope) && (h.id as int) < self.st(h.scope.idx as int).effects@.len()
    }

    pub open spec fn eff_st(self, h: EffectHandle) -> EffectState {
        self.st(h.scope.idx as int).effects@[h.id as int]
    }

    /// The record of an effect's runs: the value of each run, newest last.
    pub open spec fn eff_log(self, h: EffectHandle) -> Seq<Value> {
        self.eff_st(h).history@
    }

    pub open spec fn memo_expr(self, h: MemoHandle) -> crate::state::Expr {
        self.memo_st(h).expr
    }

    pub open spec fn eff_expr(self, h: EffectHandle) -> crate::state::Expr {
        self.eff_st(h).expr
    }

    /// One child entry of scope `i` is consistent: the child sits deeper in
    /// the backing store, points back at `i`, and its index is claimed by no
    /// key but the child's own.
    pub open spec fn child_ok(self, i: int, ch: Scope) -> bool {
        &&& i < ch.idx as int
        &&& (ch.idx as int) < self.n()
        &&& self.st(ch.idx as int).parent == Some(i as usize)
        &&& forall|k: DefaultKey| self.smap().contains_key(k) && self.smap()[k] == ch.idx
            ==> k == ch.key
    }

    pub open spec fn scope_wf(self, i: int) -> bool {
        &&& match self.st(i).parent {
            Some(p) => {
                &&& (p as int) < i
                &&& exists|c: int|
                    0 <= c < self.st(p as int).children@.len() && (#[trigger] self.st(
                        p as int,
                    ).children@[c]).idx as int == i
            },
            None => true,
        }
        &&& forall|c: int|
            0 <= c < self.st(i).children@.len() ==> self.child_ok(
                i,
                #[trigger] self.st(i).children@[c],
            )
    }

    /// Well-formedness of the whole runtime: the arena maps keys to distinct
    /// indices of the backing store, and the ownership tree's parent and
    /// child links agree.
    pub open spec fn wf(self) -> bool {
        &&& self.smap().dom().finite()
        &&& self.smap().len() <= self.states@.len()
        &&& self.states@.len() < 0xFFFF_0000
        &&& forall|k: DefaultKey| #[trigger] self.smap().contains_key(k)
            ==> (self.smap()[k] as int) < self.n()
        &&& forall|k1: DefaultKey, k2: DefaultKey|
            self.smap().contains_key(k1) && self.smap().contains_key(k2) && #[trigger] self.smap()[k1]
                == #[trigger] self.smap()[k2] ==> k1 == k2
        &&& forall|i: int| 0 <= i < self.n() ==> #[trigger] self.scope_wf(i)
    }
}

/// Scope `i` lies in the subtree rooted at `r`: following parent links
/// upward from `i` reaches `r`.
pub open spec fn in_subtree(states: Seq<ScopeState>, i: int, r: int) -> bool
    decreases i,
{
    if i == r {
        true
    } else if 0 <= i < states.len() {
        match states[i].parent {
            Some(p) => if (p as int) < i {
                in_subtree(states, p as int, r)
            } else {
                false
            },
            None => false,
        }
    } else {
        false
    }
}

/// Membership in a subtree puts the root no deeper than the member.
pub proof fn lemma_subtree_le(states: Seq<ScopeState>, i: int, r: int)
    requires
        in_subtree(states, i, r),
    ensures
        r <= i,
    decreases i,
{
    if i != r {
        let p = states[i].parent->Some_0;
        lemma_subtree_le(states, p as int, r);
    }
}

/// Subtree membership is transitive.
pub proof fn lemma_subtree_trans(states: Seq<ScopeState>, x: int, m: int, r: int)
    requires
        in_subtree(states, x, m),
        in_subtree(states, m, r),
    ensures
        in_subtree(states, x, r),
    decreases x,
{
    if x != m {
        let p = states[x].parent->Some_0;
        lemma_subtree_trans(states, p as int, m, r);
        if x != r {
        }
    }
}

impl Runtime {
    /// A strict member of the subtree at `i` lies in the subtree of one of
    /// `i`'s recorded children.
    pub proof fn lemma_subtree_via_child(self, j: int, i: int)
        requires
            self.wf(),
            0 <= j < self.n(),
            0 <= i,
            in_subtree(self.states@, j, i),
            j != i,
        ensures
            exists|c: int|
                0 <= c < self.st(i).children@.len() && in_subtree(
                    self.states@,
                    j,
                    (#[trigger] self.st(i).children@[c]).idx as int,
                ),
        decreases j,
    {
        assert(self.scope_wf(j));
        let p = self.states@[j].parent->Some_0;
        if p as int == i {
            let c = choose|c: int|
                0 <= c < self.st(p as int).children@.len() && (#[trigger] self.st(
                    p as int,
                ).children@[c]).idx as int == j;
            assert(in_subtree(self.states@, j, self.st(i).children@[c].idx as int));
        } else {
            self.lemma_subtree_via_child(p as int, i);
            let c = choose|c: int|
                0 <= c < self.st(i).children@.len() && in_subtree(
                    self.states@,
                    p as int,
                    (#[trigger] self.st(i).children@[c]).idx as int,
                );
            lemma_subtree_le(self.states@, p as int, self.st(i).children@[c].idx as int);
            assert(in_subtree(self.states@, j, self.st(i).children@[c].idx as int));
        }
    }
}

impl Runtime {
    pub fn new() -> (r: Runtime)
        ensures
            r.wf(),
            r.n() == 0,
            r.stack@.len() == 0,
            forall|k: DefaultKey| !r.smap().contains_key(k),
    {
        let r = Runtime { slots: arena_new(), states: Vec::new(), stack: Vec::new() };
        proof {
            assert(r.smap().dom() =~= Set::<DefaultKey>::empty());
        }
        r
    }

    /// Resolve a scope handle: `Some` exactly when the handle is live.
    pub(crate) fn resolve(&self, s: Scope) -> (r: Option<usize>)
        requires
            self.wf(),
        ensures
            match r {
                Some(i) => self.live(s) && i == s.idx,
                None => !self.live(s),
            },
    {
        match self.slots.get(s.key) {
            Some(i) => if i == s.idx {
                Some(i)
            } else {
                None
            },
            None => None,
        }
    }

    /// Validate a scope handle, as every entity lookup does first.
    pub fn scope(&self, s: Scope) -> (r: Result<(), Fault>)
        requires
            self.wf(),
        ensures
            r is Ok <==> self.live(s),
            r is Err ==> r == Err::<(), Fault>(Fault::Dangling),
    {
        match self.resolve(s) {
            Some(_) => Ok(()),
            None => Err(Fault::Dangling),
        }
    }

    /// The subscriber currently on top of the tracking stack, if any: the
    /// computation that reads will be attributed to.
    pub fn running_effect(&self) -> (r: Option<Subscriber>)
        ensures
            self.stack@.len() > 0 ==> r == Some(self.stack@.last()),
            self.stack@.len() == 0 ==> r is None,
    {
        let n = self.stack.len();
        if n > 0 {
            Some(self.stack[n - 1])
        } else {
            None
        }
    }

    /// No transition is ever running in this core.
    pub fn running_transition(&self) -> (r: Option<TransitionState>)
        ensures
            r is None,
    {
        None
    }

    /// No transition is ever pending in this core.
    pub fn transition(&self) -> (r: Option<TransitionState>)
        ensures
            r is None,
    {
        None
    }

    /// Push a subscriber: a tracked computation body is about to run.
    pub fn push_stack(&mut self, sub: Subscriber)
        ensures
            final(self).stack@ == old(self).stack@.push(sub),
            final(self).slots == old(self).slots,
            final(self).states == old(self).states,
    {
        self.stack.push(sub);
    }

    /// Pop the innermost subscriber: its tracked body has finished.
    pub fn pop_stack(&mut self)
        ensures
            old(self).stack@.len() > 0 ==> final(self).stack@ == old(self).stack@.drop_last(),
            old(self).stack@.len() == 0 ==> final(self).stack@ == old(self).stack@,
            final(self).slots == old(self).slots,
            final(self).states == old(self).states,
    {
        let _ = self.stack.pop();
    }

    /// Drop a single scope's arena entry, without touching descendants.
    /// Scope-level disposal builds on this; it removes the whole subtree.
    pub fn remove_scope(&mut self, s: &Scope)
        requires
            old(self).wf(),
        ensures
            final(self).wf(),
            final(self).states == old(self).states,
            final(self).stack == old(self).stack,
            final(self).smap() =~= old(self).smap().remove(s.key),
    {
        let _ = self.slots.remove(s.key);
        proof {
            self.lemma_wf_after_shrink(*old(self));
        }
    }

    /// Shrinking the arena (removing keys, changing nothing else) preserves
    /// well-formedness.
    pub proof fn lemma_wf_after_shrink(self, pre: Runtime)
        requires
            pre.wf(),
            self.states == pre.states,
            forall|k: DefaultKey| #[trigger] self.smap().contains_key(k)
                ==> pre.smap().contains_key(k) && self.smap()[k] == pre.smap()[k],
            self.smap().dom().finite(),
            self.smap().len() <= pre.smap().len(),
        ensures
            self.wf(),
    {
        assert forall|i: int| 0 <= i < self.n() implies #[trigger] self.scope_wf(i) by {
            assert(pre.scope_wf(i));
            assert forall|c: int| 0 <= c < self.st(i).children@.len() implies self.child_ok(
                i,
                #[trigger] self.st(i).children@[c],
            ) by {
                assert(pre.child_ok(i, pre.st(i).children@[c]));
            }
        }
    }
}

impl Runtime {
    /// Insert a new scope into the arena, as a child of `parent` (or as a
    /// root), and return its handle together with its disposer. Fails only
    /// on a dangling parent handle.
    pub fn create_scope(&mut self, parent: Option<Scope>) -> (r: Result<
        (Scope, crate::scope::ScopeDisposer),
        Fault,
    >)
        requires
            old(self).wf(),
            old(self).n() < 0xFFFF_0000 - 1,
        ensures
            final(self).wf(),
            match parent {
                Some(p) => r is Ok <==> old(self).live(p),
                None => r is Ok,
            },
            r is Err ==> *final(self) == *old(self) && r == Err::<
                (Scope, crate::scope::ScopeDisposer),
                Fault,
            >(Fault::Dangling),
            r matches Ok((s, d)) ==> {
                &&& d.scope == s
                &&& s.idx as int == old(self).n()
                &&& !old(self).smap().contains_key(s.key)
                &&& final(self).smap() =~= old(self).smap().insert(s.key, s.idx)
                &&& final(self).live(s)
                &&& final(self).stack == old(self).stack
                &&& final(self).n() == old(self).n() + 1
                &&& final(self).st(s.idx as int).parent == (match parent {
                    Some(p) => Some(p.idx),
                    None => None::<usize>,
                })
                &&& final(self).st(s.idx as int).children@.len() == 0
                &&& final(self).st(s.idx as int).contexts@.len() == 0
                &&& final(self).st(s.idx as int).signals@.len() == 0
                &&& final(self).st(s.idx as int).memos@.len() == 0
                &&& final(self).st(s.idx as int).effects@.len() == 0
                &&& match parent {
                    Some(p) => {
                        &&& forall|i: int|
                            0 <= i < old(self).n() && i != p.idx as int ==> final(self).st(i)
                                == old(self).st(i)
                        &&& final(self).st(p.idx as int).children@ == old(self).st(
                            p.idx as int,
                        ).children@.push(s)
                        &&& final(self).st(p.idx as int).parent == old(self).st(
                            p.idx as int,
                        ).parent
                        &&& final(self).st(p.idx as int).contexts == old(self).st(
                            p.idx as int,
                        ).contexts
                        &&& final(self).st(p.idx as int).signals == old(self).st(
                            p.idx as int,
                        ).signals
                        &&& final(self).st(p.idx as int).memos == old(self).st(
                            p.idx as int,
                        ).memos
                        &&& final(self).st(p.idx as int).effects == old(self).st(
                            p.idx as int,
                        ).effects
                    },
                    None => forall|i: int|
                        0 <= i < old(self).n() ==> final(self).st(i) == old(self).st(i),
                }
            },
    {
        let parent_idx: Option<usize> = match parent {
            Some(p) => {
                match self.resolve(p) {
                    Some(i) => Some(i),
                    None => {
                        return Err(Fault::Dangling);
                    },
                }
            },
            None => None,
        };
        let idx = self.states.len();
        let key = self.slots.insert(idx);
        let s = Scope { key, idx };
        self.states.push(
            ScopeState {
                parent: parent_idx,
                children: Vec::new(),
                contexts: Vec::new(),
                signals: Vec::new(),
                memos: Vec::new(),
                effects: Vec::new(),
            },
        );
        if let Some(p) = parent {
            let st = &mut self.states[p.idx];
            st.children.push(s);
        }
        proof {
            let pre = *old(self);
            let post = *self;
            assert(post.smap() =~= pre.smap().insert(s.key, idx));
            assert(post.smap().dom() =~= pre.smap().dom().insert(s.key));
            assert(post.smap().dom().len() == pre.smap().dom().len() + 1);
            assert forall|i: int| 0 <= i < post.n() implies #[trigger] post.scope_wf(i) by {
                if i < pre.n() {
                    assert(pre.scope_wf(i));
                    match post.st(i).parent {
                        Some(q) => {
                            let c = choose|c: int|
                                0 <= c < pre.st(q as int).children@.len() && (
                                #[trigger] pre.st(q as int).children@[c]).idx as int == i;
                            assert(post.st(q as int).children@[c] == pre.st(
                                q as int,
                            ).children@[c]);
                        },
                        None => {},
                    }
                    assert forall|c: int|
                        0 <= c < post.st(i).children@.len() implies post.child_ok(
                        i,
                        #[trigger] post.st(i).children@[c],
                    ) by {
                        if c < pre.st(i).children@.len() {
                            assert(pre.child_ok(i, pre.st(i).children@[c]));
                            assert(post.st(i).children@[c] == pre.st(i).children@[c]);
                        } else {
                            // the freshly pushed child entry of the parent
                            let ch = post.st(i).children@[c];
                            assert(ch == s);
                            assert(post.st(idx as int).parent == Some(i as usize));
                        }
                    }
                } else {
                    assert(i == idx as int);
                    match parent {
                        Some(p) => {
                            assert(pre.scope_wf(p.idx as int));
                            let cs = post.st(p.idx as int).children@;
                            assert(cs[cs.len() - 1].idx as int == i);
                        },
                        None => {},
                    }
                }
            }
        }
        Ok((s, crate::scope::ScopeDisposer { scope: s }))
    }
}

impl Runtime {
    /// Remove the scope at `s` and, recursively, every scope in its
    /// subtree, live or not, from the arena. Afterwards no key whose scope
    /// lies in the subtree resolves, and every key outside it is untouched.
    pub(crate) fn dispose_sub(&mut self, s: Scope)
        requires
            old(self).wf(),
            (s.idx as int) < old(self).n(),
            forall|k: DefaultKey|
                old(self).smap().contains_key(k) && old(self).smap()[k] == s.idx ==> k == s.key,
        ensures
            final(self).wf(),
            final(self).states == old(self).states,
            final(self).stack == old(self).stack,
            forall|k: DefaultKey| #[trigger] final(self).smap().contains_key(k)
                ==> old(self).smap().contains_key(k) && final(self).smap()[k] == old(
                self,
            ).smap()[k],
            forall|k: DefaultKey|
                old(self).smap().contains_key(k) && !in_subtree(
                    old(self).states@,
                    old(self).smap()[k] as int,
                    s.idx as int,
                ) ==> #[trigger] final(self).smap().contains_key(k),
            forall|k: DefaultKey| #[trigger] final(self).smap().contains_key(k)
                ==> !in_subtree(old(self).states@, final(self).smap()[k] as int, s.idx as int),
        decreases self.states@.len() - s.idx,
    {
        let ghost pre = *old(self);
        match self.slots.get(s.key) {
            Some(i) => {
                if i == s.idx {
                    let _ = self.slots.remove(s.key);
                }
            },
            None => {},
        }
        proof {
            assert(self.smap().dom().len() <= pre.smap().dom().len());
            self.lemma_wf_after_shrink(pre);
        }
        let n = self.states[s.idx].children.len();
        let mut j: usize = 0;
        proof {
            assert forall|k: DefaultKey|
                #[trigger] self.smap().contains_key(k) && in_subtree(
                    pre.states@,
                    self.smap()[k] as int,
                    s.idx as int,
                ) implies exists|c: int|
                j <= c < n && in_subtree(
                    pre.states@,
                    self.smap()[k] as int,
                    (#[trigger] pre.st(s.idx as int).children@[c]).idx as int,
                ) by {
                let x = self.smap()[k] as int;
                assert(x != s.idx as int);
                pre.lemma_subtree_via_child(x, s.idx as int);
            }
        }
        while j < n
            invariant
                pre == *old(self),
                self.wf(),
                j <= n,
                (s.idx as int) < self.n(),
                n == self.st(s.idx as int).children@.len(),
                self.states == pre.states,
                self.stack == pre.stack,
                forall|k: DefaultKey| #[trigger] self.smap().contains_key(k)
                    ==> pre.smap().contains_key(k) && self.smap()[k] == pre.smap()[k],
                forall|k: DefaultKey| #[trigger] self.smap().contains_key(k)
                    ==> self.smap()[k] != s.idx,
                forall|k: DefaultKey|
                    pre.smap().contains_key(k) && !in_subtree(
                        pre.states@,
                        pre.smap()[k] as int,
                        s.idx as int,
                    ) ==> #[trigger] self.smap().contains_key(k),
                forall|k: DefaultKey|
                    #[trigger] self.smap().contains_key(k) && in_subtree(
                        pre.states@,
                        self.smap()[k] as int,
                        s.idx as int,
                    ) ==> exists|c: int|
                        j <= c < n && in_subtree(
                            pre.states@,
                            self.smap()[k] as int,
                            (#[trigger] pre.st(s.idx as int).children@[c]).idx as int,
                        ),
            decreases n - j,
        {
            let c = self.states[s.idx].children[j];
            let ghost mid = *self;
            proof {
                assert(self.st(s.idx as int).children@[j as int] == c);
                assert(self.scope_wf(s.idx as int));
                assert(self.child_ok(s.idx as int, c));
                assert(s.idx < c.idx && (c.idx as int) < self.n());
                assert(self.states@.len() == old(self).states@.len());
            }
            self.dispose_sub(c);
            proof {
                let postc = *self;
                assert(in_subtree(pre.states@, s.idx as int, s.idx as int));
                assert(in_subtree(pre.states@, c.idx as int, s.idx as int));
                assert forall|k: DefaultKey|
                    #[trigger] postc.smap().contains_key(k) && in_subtree(
                        pre.states@,
                        postc.smap()[k] as int,
                        s.idx as int,
                    ) implies exists|ci: int|
                    j + 1 <= ci < n && in_subtree(
                        pre.states@,
                        postc.smap()[k] as int,
                        (#[trigger] pre.st(s.idx as int).children@[ci]).idx as int,
                    ) by {
                    let x = postc.smap()[k] as int;
                    assert(mid.smap().contains_key(k));
                    let ci = choose|ci: int|
                        j <= ci < n && in_subtree(
                            pre.states@,
                            x,
                            (#[trigger] pre.st(s.idx as int).children@[ci]).idx as int,
                        );
                    if ci == j {
                        assert(!in_subtree(mid.states@, x, c.idx as int));
                        assert(false);
                    }
                }
                assert forall|k: DefaultKey|
                    pre.smap().contains_key(k) && !in_subtree(
                        pre.states@,
                        pre.smap()[k] as int,
                        s.idx as int,
                    ) implies #[trigger] postc.smap().contains_key(k) by {
                    assert(mid.smap().contains_key(k));
                    if in_subtree(mid.states@, mid.smap()[k] as int, c.idx as int) {
                        lemma_subtree_trans(
                            pre.states@,
                            pre.smap()[k] as int,
                            c.idx as int,
                            s.idx as int,
                        );
                    }
                }
            }
            j += 1;
        }
        proof {
            assert forall|k: DefaultKey| #[trigger] self.smap().contains_key(k) implies
                !in_subtree(pre.states@, self.smap()[k] as int, s.idx as int) by {
                if in_subtree(pre.states@, self.smap()[k] as int, s.idx as int) {
                    assert(exists|c: int|
                        n <= c < n && in_subtree(
                            pre.states@,
                            self.smap()[k] as int,
                            (#[trigger] pre.st(s.idx as int).children@[c]).idx as int,
                        ));
                    assert(false);
                }
            }
        }
    }
}

} // verus!
