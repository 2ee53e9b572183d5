//! A lazily-evaluated, branching traversal over a store, kept as an explicit
//! work-list of (state, value-or-error) branches processed step by step.

use vstd::prelude::*;

use crate::graph_traits::{Dup, Id, SchemaExt};
use crate::typed_error::{SchemaError, SchemaResult};
use crate::typed_graph::TypedGraph;

verus! {

/// The value and accumulated state of one surviving branch.
pub struct WalkerTarget<T, State> {
    pub val: T,
    pub state: State,
}

/// A branching traversal: every current branch holds its per-branch state
/// and either a value or the error that terminated it.
pub struct GraphWalker<'a, T, State, S: SchemaExt> {
    g: &'a TypedGraph<S>,
    front: Vec<(State, SchemaResult<T, S>)>,
}

impl<'a, T, State, S: SchemaExt> GraphWalker<'a, T, State, S> {
    /// The current branches, for specifications.
    pub closed spec fn spec_front(self) -> Seq<(State, SchemaResult<T, S>)> {
        self.front@
    }

    /// The block one branch contributes to a stateless step: an error branch
    /// passes through; a live branch becomes one child branch per step result
    /// value (the state unchanged), or the error that terminated the step.
    pub open spec fn branch_block<NewT>(
        b: (State, SchemaResult<T, S>),
        ret: SchemaResult<Vec<NewT>, S>,
    ) -> Seq<(State, SchemaResult<NewT, S>)> {
        match b.1 {
            Result::Err(e) => seq![(b.0, Result::<NewT, SchemaError<S>>::Err(e))],
            Result::Ok(_) => match ret {
                Result::Err(e) => seq![(b.0, Result::<NewT, SchemaError<S>>::Err(e))],
                Result::Ok(v) => Seq::new(
                    v@.len(),
                    |i: int| (b.0, Result::<NewT, SchemaError<S>>::Ok(v@[i])),
                ),
            },
        }
    }

    /// The whole front after a stateless step: the branch blocks in branch
    /// order, and nothing else.
    pub open spec fn expansion<NewT>(
        front: Seq<(State, SchemaResult<T, S>)>,
        rets: Seq<SchemaResult<Vec<NewT>, S>>,
    ) -> Seq<(State, SchemaResult<NewT, S>)>
        decreases front.len(),
    {
        if front.len() == 0 {
            Seq::empty()
        } else {
            Self::branch_block(front[0], rets[0]) + Self::expansion(
                front.drop_first(),
                rets.drop_first(),
            )
        }
    }

    /// How `expansion` acts on a push.
    pub proof fn lemma_expansion_push<NewT>(
        front: Seq<(State, SchemaResult<T, S>)>,
        rets: Seq<SchemaResult<Vec<NewT>, S>>,
        b: (State, SchemaResult<T, S>),
        ret: SchemaResult<Vec<NewT>, S>,
    )
        requires
            front.len() == rets.len(),
        ensures
            Self::expansion(front.push(b), rets.push(ret)) == Self::expansion(front, rets)
                + Self::branch_block(b, ret),
        decreases front.len(),
    {
        broadcast use vstd::seq_lib::group_seq_lib_default;

        if front.len() == 0 {
            assert(front.push(b)[0] == b);
            assert(front.push(b).drop_first() =~= front);
            assert(rets.push(ret).drop_first() =~= rets);
            assert(Self::expansion(front, rets) =~= Seq::<(State, SchemaResult<NewT, S>)>::empty());
        } else {
            assert(front.push(b)[0] == front[0]);
            assert(rets.push(ret)[0] == rets[0]);
            assert(front.push(b).drop_first() =~= front.drop_first().push(b));
            assert(rets.push(ret).drop_first() =~= rets.drop_first().push(ret));
            Self::lemma_expansion_push(front.drop_first(), rets.drop_first(), b, ret);
        }
    }

    /// One witness of a stateless step: the step function's answers per live
    /// branch, and the store reference handed to it.
    pub open spec fn progress_rel_with<
        NewT,
        F: Fn(T, &'a TypedGraph<S>) -> SchemaResult<Vec<NewT>, S>,
    >(
        walker_step: F,
        g: TypedGraph<S>,
        front: Seq<(State, SchemaResult<T, S>)>,
        result: Seq<(State, SchemaResult<NewT, S>)>,
        gr: &'a TypedGraph<S>,
        rets: Seq<SchemaResult<Vec<NewT>, S>>,
    ) -> bool {
        &&& *gr == g
        &&& rets.len() == front.len()
        &&& forall|k: int|
            0 <= k < front.len() ==> ((#[trigger] front[k]).1 matches Ok(t) ==> call_ensures(
                walker_step,
                (t, gr),
                rets[k],
            ))
        &&& result == Self::expansion(front, rets)
    }

    /// A stateless step relates old and new fronts: there are step answers,
    /// admitted by the step function's postcondition, whose branch blocks
    /// make up the new front exactly, in branch order.
    pub open spec fn progress_rel<
        NewT,
        F: Fn(T, &'a TypedGraph<S>) -> SchemaResult<Vec<NewT>, S>,
    >(
        walker_step: F,
        g: TypedGraph<S>,
        front: Seq<(State, SchemaResult<T, S>)>,
        result: Seq<(State, SchemaResult<NewT, S>)>,
    ) -> bool {
        exists|gr: &'a TypedGraph<S>, rets: Seq<SchemaResult<Vec<NewT>, S>>| #[trigger]
            Self::progress_rel_with(walker_step, g, front, result, gr, rets)
    }

    /// The block one branch contributes to a stateful step: as in the
    /// stateless step, except each child carries its own folded state.
    pub open spec fn branch_block_ws<NewT, A>(
        b: (State, SchemaResult<T, S>),
        ret: SchemaResult<Vec<(A, NewT)>, S>,
        states: Seq<State>,
    ) -> Seq<(State, SchemaResult<NewT, S>)> {
        match b.1 {
            Result::Err(e) => seq![(b.0, Result::<NewT, SchemaError<S>>::Err(e))],
            Result::Ok(_) => match ret {
                Result::Err(e) => seq![(b.0, Result::<NewT, SchemaError<S>>::Err(e))],
                Result::Ok(v) => Seq::new(
                    v@.len(),
                    |i: int| (states[i], Result::<NewT, SchemaError<S>>::Ok(v@[i].1)),
                ),
            },
        }
    }

    /// One admitted fold of a state increment into a parent state.
    pub open spec fn folded_state<A, U: Fn(&State, A) -> State>(
        update_state: U,
        parent: State,
        increment: A,
        folded: State,
        sr: &State,
    ) -> bool {
        *sr == parent && call_ensures(update_state, (sr, increment), folded)
    }

    /// Some admitted fold of a state increment into a parent state.
    pub open spec fn some_fold<A, U: Fn(&State, A) -> State>(
        update_state: U,
        parent: State,
        increment: A,
        folded: State,
    ) -> bool {
        exists|sr: &State| #[trigger] Self::folded_state(
            update_state,
            parent,
            increment,
            folded,
            sr,
        )
    }

    /// Each child's state is a fold of its increment into the parent state,
    /// as the state-update function's postcondition admits.
    pub open spec fn child_states_ok<NewT, A, U: Fn(&State, A) -> State>(
        update_state: U,
        parent: State,
        children: Seq<(A, NewT)>,
        states: Seq<State>,
    ) -> bool {
        &&& states.len() == children.len()
        &&& forall|i: int|
            0 <= i < children.len() ==> Self::some_fold(
                update_state,
                parent,
                ((#[trigger] children[i]).0),
                states[i],
            )
    }

    /// The whole front after a stateful step.
    pub open spec fn expansion_ws<NewT, A>(
        front: Seq<(State, SchemaResult<T, S>)>,
        rets: Seq<SchemaResult<Vec<(A, NewT)>, S>>,
        statess: Seq<Seq<State>>,
    ) -> Seq<(State, SchemaResult<NewT, S>)>
        decreases front.len(),
    {
        if front.len() == 0 {
            Seq::empty()
        } else {
            Self::branch_block_ws(front[0], rets[0], statess[0]) + Self::expansion_ws(
                front.drop_first(),
                rets.drop_first(),
                statess.drop_first(),
            )
        }
    }

    /// How `expansion_ws` acts on a push.
    pub proof fn lemma_expansion_ws_push<NewT, A>(
        front: Seq<(State, SchemaResult<T, S>)>,
        rets: Seq<SchemaResult<Vec<(A, NewT)>, S>>,
        statess: Seq<Seq<State>>,
        b: (State, SchemaResult<T, S>),
        ret: SchemaResult<Vec<(A, NewT)>, S>,
        states: Seq<State>,
    )
        requires
            front.len() == rets.len(),
            front.len() == statess.len(),
        ensures
            Self::expansion_ws(front.push(b), rets.push(ret), statess.push(states))
                == Self::expansion_ws(front, rets, statess) + Self::branch_block_ws(
                b,
                ret,
                states,
            ),
        decreases front.len(),
    {
        broadcast use vstd::seq_lib::group_seq_lib_default;

        if front.len() == 0 {
            assert(front.push(b)[0] == b);
            assert(front.push(b).drop_first() =~= front);
            assert(rets.push(ret).drop_first() =~= rets);
            assert(statess.push(states).drop_first() =~= statess);
            assert(Self::expansion_ws(front, rets, statess) =~= Seq::<
                (State, SchemaResult<NewT, S>),
            >::empty());
        } else {
            assert(front.push(b)[0] == front[0]);
            assert(rets.push(ret)[0] == rets[0]);
            assert(statess.push(states)[0] == statess[0]);
            assert(front.push(b).drop_first() =~= front.drop_first().push(b));
            assert(rets.push(ret).drop_first() =~= rets.drop_first().push(ret));
            assert(statess.push(states).drop_first() =~= statess.drop_first().push(states));
            Self::lemma_expansion_ws_push(
                front.drop_first(),
                rets.drop_first(),
                statess.drop_first(),
                b,
                ret,
                states,
            );
        }
    }

    /// One witness of a stateful step.
    pub open spec fn progress_ws_rel_with<
        NewT,
        A,
        F: Fn(T, &'a TypedGraph<S>) -> SchemaResult<Vec<(A, NewT)>, S>,
        U: Fn(&State, A) -> State,
    >(
        walker_step: F,
        update_state: U,
        g: TypedGraph<S>,
        front: Seq<(State, SchemaResult<T, S>)>,
        result: Seq<(State, SchemaResult<NewT, S>)>,
        gr: &'a TypedGraph<S>,
        rets: Seq<SchemaResult<Vec<(A, NewT)>, S>>,
        statess: Seq<Seq<State>>,
    ) -> bool {
        &&& *gr == g
        &&& rets.len() == front.len()
        &&& statess.len() == front.len()
        &&& forall|k: int|
            0 <= k < front.len() ==> ((#[trigger] front[k]).1 matches Ok(t) ==> call_ensures(
                walker_step,
                (t, gr),
                rets[k],
            ))
        &&& forall|k: int|
            0 <= k < front.len() && (#[trigger] front[k]).1 is Ok ==> (rets[k] matches Ok(v)
                ==> Self::child_states_ok(update_state, front[k].0, v@, statess[k]))
        &&& result == Self::expansion_ws(front, rets, statess)
    }

    /// A stateful step relates old and new fronts as the stateless one does,
    /// with each child's state folded from its parent's.
    pub open spec fn progress_ws_rel<
        NewT,
        A,
        F: Fn(T, &'a TypedGraph<S>) -> SchemaResult<Vec<(A, NewT)>, S>,
        U: Fn(&State, A) -> State,
    >(
        walker_step: F,
        update_state: U,
        g: TypedGraph<S>,
        front: Seq<(State, SchemaResult<T, S>)>,
        result: Seq<(State, SchemaResult<NewT, S>)>,
    ) -> bool {
        exists|
            gr: &'a TypedGraph<S>,
            rets: Seq<SchemaResult<Vec<(A, NewT)>, S>>,
            statess: Seq<Seq<State>>,
        | #[trigger]
            Self::progress_ws_rel_with(
                walker_step,
                update_state,
                g,
                front,
                result,
                gr,
                rets,
                statess,
            )
    }

    /// The store being traversed, for specifications.
    pub closed spec fn spec_graph(self) -> TypedGraph<S> {
        *self.g
    }

    /// A walker with one unit branch, ready to start from everywhere.
    pub fn new(g: &'a TypedGraph<S>) -> (r: GraphWalker<'a, (), (), S>)
        ensures
            r.spec_graph() == *g,
            r.spec_front().len() == 1,
            r.spec_front()[0].1 is Ok,
    {
        let mut front: Vec<((), SchemaResult<(), S>)> = Vec::new();
        front.push(((), Ok(())));
        GraphWalker { g, front }
    }

    /// A walker starting from the node with the given id: one branch holding
    /// the node's weight, or no branch at all if the id is not live.
    pub fn new_from(g: &'a TypedGraph<S>, start: usize) -> (r: GraphWalker<'a, S::N, (), S>)
        requires
            g.wf(),
        ensures
            r.spec_graph() == *g,
            g.spec_has_node(start) ==> r.spec_front().len() == 1 && r.spec_front()[0].1
                == Result::<S::N, SchemaError<S>>::Ok(g.node_entry(start).weight),
            !g.spec_has_node(start) ==> r.spec_front().len() == 0,
    {
        let mut front: Vec<((), SchemaResult<S::N, S>)> = Vec::new();
        match g.get_node_safe(start) {
            Some(w) => {
                front.push(((), Ok(w.dup())));
            },
            None => {},
        }
        GraphWalker { g, front }
    }

    /// Replace the state of every branch.
    pub fn set_state<NewState: Copy>(self, new_state: NewState) -> (r: GraphWalker<
        'a,
        T,
        NewState,
        S,
    >)
        ensures
            r.spec_graph() == self.spec_graph(),
            r.spec_front().len() == self.spec_front().len(),
            forall|k: int|
                0 <= k < r.spec_front().len() ==> (#[trigger] r.spec_front()[k]).0 == new_state
                    && r.spec_front()[k].1 == self.spec_front()[k].1,
    {
        let ghost front0 = self.spec_front();
        let g = self.g;
        let mut rest = self.front;
        let n0 = rest.len();
        proof {
            assert(front0.len() == n0 as int);
        }
        let mut out: Vec<(NewState, SchemaResult<T, S>)> = Vec::new();
        let mut k: usize = 0;
        while rest.len() > 0
            invariant
                front0 == self.spec_front(),
                k + rest@.len() == front0.len(),
                front0.len() <= usize::MAX,
                rest@ == front0.skip(k as int),
                out@.len() == k as int,
                forall|p: int|
                    0 <= p < k ==> (#[trigger] out@[p]).0 == new_state && out@[p].1 == front0[p].1,
            decreases rest@.len(),
        {
            let (_, res) = rest.remove(0);
            proof {
                assert(front0.skip(k as int)[0] == front0[k as int]);
                assert(front0.skip(k as int).remove(0) =~= front0.skip(k + 1));
            }
            out.push((new_state, res));
            k += 1;
        }
        proof {
            assert(front0.skip(front0.len() as int).len() == 0);
        }
        GraphWalker { g, front: out }
    }

    /// Move every branch one step forward without changing its state: each
    /// live branch is expanded by the step function into zero or more child
    /// branches (fan-out), each branch already terminated by an error keeps
    /// that error, and the new front is exactly the branch blocks in branch
    /// order.
    pub fn progress<NewT, F: Fn(T, &'a TypedGraph<S>) -> SchemaResult<Vec<NewT>, S>>(
        self,
        walker_step: F,
    ) -> (r: GraphWalker<'a, NewT, State, S>) where State: Copy
        requires
            forall|t: T, gr: &'a TypedGraph<S>| call_requires(walker_step, (t, gr)),
        ensures
            r.spec_graph() == self.spec_graph(),
            Self::progress_rel(walker_step, self.spec_graph(), self.spec_front(), r.spec_front()),
    {
        let ghost front0 = self.spec_front();
        let g = self.g;
        let mut rest = self.front;
        let n0 = rest.len();
        proof {
            assert(front0.len() == n0 as int);
        }
        let mut out: Vec<(State, SchemaResult<NewT, S>)> = Vec::new();
        let ghost mut rets: Seq<SchemaResult<Vec<NewT>, S>> = Seq::empty();
        proof {
            assert(out@ =~= Self::expansion(front0.take(0), rets));
        }
        let mut k: usize = 0;
        while rest.len() > 0
            invariant
                forall|t: T, gr: &'a TypedGraph<S>| call_requires(walker_step, (t, gr)),
                front0 == self.spec_front(),
                k + rest@.len() == front0.len(),
                front0.len() <= usize::MAX,
                rest@ == front0.skip(k as int),
                rets.len() == k as int,
                forall|p: int|
                    0 <= p < k ==> ((#[trigger] front0[p]).1 matches Ok(t) ==> call_ensures(
                        walker_step,
                        (t, g),
                        rets[p],
                    )),
                out@ == Self::expansion(front0.take(k as int), rets),
            decreases rest@.len(),
        {
            let (st, res) = rest.remove(0);
            proof {
                assert(front0.skip(k as int)[0] == front0[k as int]);
                assert(front0.skip(k as int).remove(0) =~= front0.skip(k + 1));
                assert(front0.take(k + 1) =~= front0.take(k as int).push(front0[k as int]));
            }
            let ghost out_before = out@;
            let ghost rets_before = rets;
            match res {
                Err(e) => {
                    proof {
                        rets = rets.push(Result::Err(front0[k as int].1->Err_0));
                    }
                    out.push((st, Err(e)));
                    proof {
                        assert(out@ =~= out_before + Self::branch_block::<NewT>(
                            front0[k as int],
                            rets[k as int],
                        ));
                    }
                },
                Ok(t) => {
                    let ghost tv = t;
                    let step_res = walker_step(t, g);
                    let ghost retv = step_res;
                    proof {
                        rets = rets.push(retv);
                        assert(rets[k as int] == retv);
                    }
                    match step_res {
                        Err(e) => {
                            out.push((st, Err(e)));
                            proof {
                                assert(out@ =~= out_before + Self::branch_block::<NewT>(
                                    front0[k as int],
                                    rets[k as int],
                                ));
                            }
                        },
                        Ok(mut children) => {
                            let ghost children0 = children@;
                            let cn = children.len();
                            proof {
                                assert(children0.len() == cn as int);
                            }
                            let mut j: usize = 0;
                            while children.len() > 0
                                invariant
                                    j + children@.len() == children0.len(),
                                    children0.len() <= usize::MAX,
                                    children@ == children0.skip(j as int),
                                    out@.len() == out_before.len() + j,
                                    forall|p: int|
                                        0 <= p < out_before.len() ==> #[trigger] out@[p]
                                            == out_before[p],
                                    forall|p: int|
                                        out_before.len() <= p < out@.len() ==> #[trigger] out@[p]
                                            == (
                                        st,
                                        Result::<NewT, SchemaError<S>>::Ok(
                                            children0[p - out_before.len()],
                                        ),
                                        ),
                                decreases children@.len(),
                            {
                                proof {
                                    assert(children0.skip(j as int)[0] == children0[j as int]);
                                    assert(children0.skip(j as int).remove(0) =~= children0.skip(
                                        j + 1,
                                    ));
                                }
                                let c = children.remove(0);
                                out.push((st, Ok(c)));
                                j += 1;
                            }
                            proof {
                                assert(retv->Ok_0@ == children0);
                                let blk = Self::branch_block::<NewT>(
                                    front0[k as int],
                                    rets[k as int],
                                );
                                assert(front0[k as int].1 is Ok);
                                assert(blk.len() == children0.len());
                                assert(forall|i: int|
                                    0 <= i < blk.len() ==> #[trigger] blk[i] == (
                                    st,
                                    Result::<NewT, SchemaError<S>>::Ok(children0[i]),
                                    ));
                                assert(out@.len() == out_before.len() + children0.len());
                                assert(out@ =~= out_before + blk);
                            }
                        },
                    }
                },
            }
            proof {
                Self::lemma_expansion_push(
                    front0.take(k as int),
                    rets_before,
                    front0[k as int],
                    rets[k as int],
                );
                assert(out@ == Self::expansion(front0.take(k + 1), rets));
            }
            k += 1;
        }
        let result = GraphWalker { g, front: out };
        proof {
            assert(front0.take(front0.len() as int) =~= front0);
            assert(Self::progress_rel_with(
                walker_step,
                self.spec_graph(),
                self.spec_front(),
                result.spec_front(),
                g,
                rets,
            ));
        }
        result
    }

    /// Move every branch one step forward, folding each child's state
    /// increment into the parent branch's state, so sibling branches
    /// accumulate independently; the new front is exactly the branch blocks
    /// in branch order.
    pub fn progress_with_state<
        NewT,
        A,
        F: Fn(T, &'a TypedGraph<S>) -> SchemaResult<Vec<(A, NewT)>, S>,
        U: Fn(&State, A) -> State,
    >(self, walker_step: F, update_state: U) -> (r: GraphWalker<'a, NewT, State, S>)
        requires
            forall|t: T, gr: &'a TypedGraph<S>| call_requires(walker_step, (t, gr)),
            forall|st: &State, a: A| call_requires(update_state, (st, a)),
        ensures
            r.spec_graph() == self.spec_graph(),
            Self::progress_ws_rel(
                walker_step,
                update_state,
                self.spec_graph(),
                self.spec_front(),
                r.spec_front(),
            ),
    {
        let ghost front0 = self.spec_front();
        let g = self.g;
        let mut rest = self.front;
        let n0 = rest.len();
        proof {
            assert(front0.len() == n0 as int);
        }
        let mut out: Vec<(State, SchemaResult<NewT, S>)> = Vec::new();
        let ghost mut rets: Seq<SchemaResult<Vec<(A, NewT)>, S>> = Seq::empty();
        let ghost mut statess: Seq<Seq<State>> = Seq::empty();
        proof {
            assert(out@ =~= Self::expansion_ws(front0.take(0), rets, statess));
        }
        let mut k: usize = 0;
        while rest.len() > 0
            invariant
                forall|t: T, gr: &'a TypedGraph<S>| call_requires(walker_step, (t, gr)),
                forall|st: &State, a: A| call_requires(update_state, (st, a)),
                front0 == self.spec_front(),
                k + rest@.len() == front0.len(),
                front0.len() <= usize::MAX,
                rest@ == front0.skip(k as int),
                rets.len() == k as int,
                statess.len() == k as int,
                forall|p: int|
                    0 <= p < k ==> ((#[trigger] front0[p]).1 matches Ok(t) ==> call_ensures(
                        walker_step,
                        (t, g),
                        rets[p],
                    )),
                forall|p: int|
                    0 <= p < k && (#[trigger] front0[p]).1 is Ok ==> (rets[p] matches Ok(v)
                        ==> Self::child_states_ok(update_state, front0[p].0, v@, statess[p])),
                out@ == Self::expansion_ws(front0.take(k as int), rets, statess),
            decreases rest@.len(),
        {
            let (st, res) = rest.remove(0);
            proof {
                assert(front0.skip(k as int)[0] == front0[k as int]);
                assert(front0.skip(k as int).remove(0) =~= front0.skip(k + 1));
                assert(front0.take(k + 1) =~= front0.take(k as int).push(front0[k as int]));
            }
            let ghost out_before = out@;
            let ghost rets_before = rets;
            let ghost statess_before = statess;
            match res {
                Err(e) => {
                    proof {
                        rets = rets.push(Result::Err(front0[k as int].1->Err_0));
                        statess = statess.push(Seq::empty());
                    }
                    out.push((st, Err(e)));
                    proof {
                        assert(out@ =~= out_before + Self::branch_block_ws::<NewT, A>(
                            front0[k as int],
                            rets[k as int],
                            statess[k as int],
                        ));
                    }
                },
                Ok(t) => {
                    let ghost tv = t;
                    let step_res = walker_step(t, g);
                    let ghost retv = step_res;
                    proof {
                        rets = rets.push(retv);
                        assert(rets[k as int] == retv);
                    }
                    match step_res {
                        Err(e) => {
                            proof {
                                statess = statess.push(Seq::empty());
                            }
                            out.push((st, Err(e)));
                            proof {
                                assert(out@ =~= out_before + Self::branch_block_ws::<NewT, A>(
                                    front0[k as int],
                                    rets[k as int],
                                    statess[k as int],
                                ));
                            }
                        },
                        Ok(mut children) => {
                            let ghost children0 = children@;
                            let cn = children.len();
                            proof {
                                assert(children0.len() == cn as int);
                            }
                            let ghost mut sts: Seq<State> = Seq::empty();
                            let mut j: usize = 0;
                            while children.len() > 0
                                invariant
                                    forall|st2: &State, a: A| call_requires(
                                        update_state,
                                        (st2, a),
                                    ),
                                    j + children@.len() == children0.len(),
                                    children0.len() <= usize::MAX,
                                    children@ == children0.skip(j as int),
                                    sts.len() == j as int,
                                    forall|i: int|
                                        0 <= i < j ==> Self::some_fold(
                                            update_state,
                                            st,
                                            ((#[trigger] children0[i]).0),
                                            sts[i],
                                        ),
                                    out@.len() == out_before.len() + j,
                                    forall|p: int|
                                        0 <= p < out_before.len() ==> #[trigger] out@[p]
                                            == out_before[p],
                                    forall|p: int|
                                        out_before.len() <= p < out@.len() ==> #[trigger] out@[p]
                                            == (
                                        sts[p - out_before.len()],
                                        Result::<NewT, SchemaError<S>>::Ok(
                                            children0[p - out_before.len()].1,
                                        ),
                                        ),
                                decreases children@.len(),
                            {
                                proof {
                                    assert(children0.skip(j as int)[0] == children0[j as int]);
                                    assert(children0.skip(j as int).remove(0) =~= children0.skip(
                                        j + 1,
                                    ));
                                }
                                let (a, c) = children.remove(0);
                                let ghost av = a;
                                let child_state = update_state(&st, a);
                                proof {
                                    sts = sts.push(child_state);
                                    assert(av == children0[j as int].0);
                                    assert(Self::folded_state(
                                        update_state,
                                        st,
                                        children0[j as int].0,
                                        child_state,
                                        &st,
                                    ));
                                    assert(Self::some_fold(
                                        update_state,
                                        st,
                                        children0[j as int].0,
                                        child_state,
                                    ));
                                }
                                out.push((child_state, Ok(c)));
                                j += 1;
                            }
                            proof {
                                statess = statess.push(sts);
                                assert(retv->Ok_0@ == children0);
                                assert(Self::child_states_ok(
                                    update_state,
                                    front0[k as int].0,
                                    children0,
                                    sts,
                                ));
                                assert(out@ =~= out_before + Self::branch_block_ws::<NewT, A>(
                                    front0[k as int],
                                    rets[k as int],
                                    statess[k as int],
                                ));
                            }
                        },
                    }
                },
            }
            proof {
                Self::lemma_expansion_ws_push(
                    front0.take(k as int),
                    rets_before,
                    statess_before,
                    front0[k as int],
                    rets[k as int],
                    statess[k as int],
                );
                assert(out@ == Self::expansion_ws(front0.take(k + 1), rets, statess));
            }
            k += 1;
        }
        let result = GraphWalker { g, front: out };
        proof {
            assert(front0.take(front0.len() as int) =~= front0);
            assert(Self::progress_ws_rel_with(
                walker_step,
                update_state,
                self.spec_graph(),
                self.spec_front(),
                result.spec_front(),
                g,
                rets,
                statess,
            ));
        }
        result
    }

    /// Take the first surviving branch's value, or the error that terminated
    /// it; `None` when no branch is left.
    pub fn one(self) -> (r: SchemaResult<Option<T>, S>)
        ensures
            self.spec_front().len() == 0 ==> r == Result::<Option<T>, SchemaError<S>>::Ok(
                None::<T>,
            ),
            self.spec_front().len() > 0 ==> (match self.spec_front()[0].1 {
                Ok(t) => r == Result::<Option<T>, SchemaError<S>>::Ok(Some(t)),
                Err(e) => r == Result::<Option<T>, SchemaError<S>>::Err(e),
            }),
    {
        let GraphWalker { g: _, front } = self;
        let mut front = front;
        if front.len() == 0 {
            return Ok(None);
        }
        let (_, res) = front.remove(0);
        match res {
            Ok(t) => Ok(Some(t)),
            Err(e) => Err(e),
        }
    }

    /// Like `one`, but paired with the branch's final state.
    pub fn one_with_state(self) -> (r: SchemaResult<Option<WalkerTarget<T, State>>, S>)
        ensures
            self.spec_front().len() == 0 ==> r is Ok && (r matches Ok(o) ==> o is None),
            self.spec_front().len() > 0 ==> (match self.spec_front()[0].1 {
                Ok(t) => r matches Ok(o) && o matches Some(w) && w.val == t && w.state
                    == self.spec_front()[0].0,
                Err(e) => r == Result::<Option<WalkerTarget<T, State>>, SchemaError<S>>::Err(e),
            }),
    {
        let GraphWalker { g: _, front } = self;
        let mut front = front;
        if front.len() == 0 {
            return Ok(None);
        }
        let (st, res) = front.remove(0);
        match res {
            Ok(t) => Ok(Some(WalkerTarget { val: t, state: st })),
            Err(e) => Err(e),
        }
    }

    /// Collect every surviving branch's value, in branch order; the first
    /// branch that was terminated by an error aborts the whole collection
    /// with that error.
    pub fn many(self) -> (r: SchemaResult<Vec<T>, S>)
        ensures
            r matches Ok(v) ==> {
                &&& v@.len() == self.spec_front().len()
                &&& forall|p: int|
                    0 <= p < v@.len() ==> (#[trigger] self.spec_front()[p]).1 == Result::<
                        T,
                        SchemaError<S>,
                    >::Ok(v@[p])
            },
            r matches Err(e) ==> exists|p: int|
                0 <= p < self.spec_front().len() && (#[trigger] self.spec_front()[p]).1
                    == Result::<T, SchemaError<S>>::Err(e) && forall|q: int|
                    0 <= q < p ==> (#[trigger] self.spec_front()[q]).1 is Ok,
    {
        let ghost front0 = self.spec_front();
        let mut rest = self.front;
        let n0 = rest.len();
        proof {
            assert(front0.len() == n0 as int);
        }
        let mut out: Vec<T> = Vec::new();
        let mut k: usize = 0;
        while rest.len() > 0
            invariant
                front0 == self.spec_front(),
                k + rest@.len() == front0.len(),
                front0.len() <= usize::MAX,
                rest@ == front0.skip(k as int),
                out@.len() == k as int,
                forall|p: int|
                    0 <= p < k ==> (#[trigger] front0[p]).1 == Result::<T, SchemaError<S>>::Ok(
                        out@[p],
                    ),
            decreases rest@.len(),
        {
            let (_, res) = rest.remove(0);
            proof {
                assert(front0.skip(k as int)[0] == front0[k as int]);
                assert(front0.skip(k as int).remove(0) =~= front0.skip(k + 1));
            }
            match res {
                Ok(t) => {
                    out.push(t);
                },
                Err(e) => {
                    proof {
                        assert(self.spec_front() == front0);
                        assert((self.spec_front()[k as int]).1 == Result::<T, SchemaError<S>>::Err(
                            e,
                        ));
                    }
                    return Err(e);
                },
            }
            k += 1;
        }
        proof {
            assert(self.spec_front() == front0);
        }
        Ok(out)
    }

    /// Like `many`, but each value is paired with its branch's final state.
    pub fn many_with_state(self) -> (r: SchemaResult<Vec<WalkerTarget<T, State>>, S>)
        ensures
            r matches Ok(v) ==> {
                &&& v@.len() == self.spec_front().len()
                &&& forall|p: int|
                    0 <= p < v@.len() ==> (#[trigger] self.spec_front()[p]).1 == Result::<
                        T,
                        SchemaError<S>,
                    >::Ok(v@[p].val) && self.spec_front()[p].0 == v@[p].state
            },
            r matches Err(e) ==> exists|p: int|
                0 <= p < self.spec_front().len() && (#[trigger] self.spec_front()[p]).1
                    == Result::<T, SchemaError<S>>::Err(e) && forall|q: int|
                    0 <= q < p ==> (#[trigger] self.spec_front()[q]).1 is Ok,
    {
        let ghost front0 = self.spec_front();
        let mut rest = self.front;
        let n0 = rest.len();
        proof {
            assert(front0.len() == n0 as int);
        }
        let mut out: Vec<WalkerTarget<T, State>> = Vec::new();
        let mut k: usize = 0;
        while rest.len() > 0
            invariant
                front0 == self.spec_front(),
                k + rest@.len() == front0.len(),
                front0.len() <= usize::MAX,
                rest@ == front0.skip(k as int),
                out@.len() == k as int,
                forall|p: int|
                    0 <= p < k ==> (#[trigger] front0[p]).1 == Result::<T, SchemaError<S>>::Ok(
                        out@[p].val,
                    ) && front0[p].0 == out@[p].state,
            decreases rest@.len(),
        {
            let (st, res) = rest.remove(0);
            proof {
                assert(front0.skip(k as int)[0] == front0[k as int]);
                assert(front0.skip(k as int).remove(0) =~= front0.skip(k + 1));
            }
            match res {
                Ok(t) => {
                    out.push(WalkerTarget { val: t, state: st });
                },
                Err(e) => {
                    proof {
                        assert(self.spec_front() == front0);
                        assert((self.spec_front()[k as int]).1 == Result::<T, SchemaError<S>>::Err(
                            e,
                        ));
                    }
                    return Err(e);
                },
            }
            k += 1;
        }
        proof {
            assert(self.spec_front() == front0);
        }
        Ok(out)
    }
}

} // verus!
