use crate::database::action::{
    applied, default_table, lemma_applied, lemma_effect_on_version, lemma_run_concat,
    lemma_run_none, lemma_run_one, ordered, run, Action,
};
use crate::database::api::{knows, versions_of, Content};
use crate::database::versions::{
    has_slot, increasing, newer_than_all, slot_index, slot_state, DataPointState, Record,
};
use crate::tpg::model::{accepted_total, EvRef, EvState, EventStatus, Graph, TxnState, TxnStatus};
use crate::tpg::published::{pending, same_record};
use vstd::prelude::*;

verus! {

/// A timestamp that is newer than all versions names none of them.
pub proof fn lemma_fresh_slot(s: Seq<Record>, ts: u64)
    requires
        increasing(s),
        newer_than_all(s, ts),
    ensures
        !has_slot(s, ts),
{
    if has_slot(s, ts) {
        let i = slot_index(s, ts);
        if i < s.len() - 1 {
            assert(s[i].ts < s[s.len() - 1].ts);
        }
    }
}

/// Whether the change `a` makes a version of its own rather than changing
/// one that is there.
pub open spec fn appends(a: Action) -> bool {
    a is Push || (a matches Action::CopyLast { has_slot, .. } && !has_slot)
}

impl Graph {
    /// Where the store agrees with the graph but for an event, and for that
    /// event too, it agrees with the graph.
    pub proof fn lemma_published_whole(self, content: Content, x: EvRef)
        requires
            self.published_but(content, x),
            self.live_ev(x) ==> self.held(content, x),
        ensures
            self.published(content),
    {
        assert forall|r: EvRef| self.live_ev(r) implies #[trigger] self.held(content, r) by {
            if r != x {
            }
        }
    }

    /// Where the store agrees with the graph, it agrees but for any event.
    pub proof fn lemma_published_part(self, content: Content, x: EvRef)
        requires
            self.published(content),
        ensures
            self.published_but(content, x),
    {
        if self.live_ev(x) {
            assert(self.held(content, x));
        }
    }

    /// A change of the version of event `r`, with the event changed to
    /// match, keeps the store in agreement with the graph.
    ///
    /// The change `a` names the version of `r`, and either `r` holds that
    /// version or `a` makes it.  The event becomes `e`, which holds the
    /// version, in a state that the new state of the version fits.
    pub proof fn lemma_pub_with_ev(
        self,
        content: Content,
        cap: usize,
        full_to_panic: bool,
        x: EvRef,
        r: EvRef,
        e: EvState,
        a: Action,
    )
        requires
            self.published_but(content, x),
            ordered(content, cap),
            self.live_ev(r),
            a.key() == self.ev(r).write,
            a.ts() == self.txn(r.txn).ts,
            applied(content, cap, full_to_panic, a) matches Ok(done) && !done.1,
            self.ev(r).has_storage_slot || appends(a),
            e.write == self.ev(r).write,
            e.has_write == self.ev(r).has_write,
            e.has_storage_slot,
            ({
                let state = slot_state(
                    a.effect(versions_of(content, default_table(), a.key()), cap),
                    a.ts(),
                );
                &&& state is Some
                &&& e.status == EventStatus::ACCEPTED ==> state == Some(DataPointState::NORMAL)
                    && a.effect(versions_of(content, default_table(), a.key()), cap)[slot_index(
                    a.effect(versions_of(content, default_table(), a.key()), cap),
                    a.ts(),
                )].value == e.written
                &&& e.status == EventStatus::ABORTED && e.has_write ==> state == Some(
                    DataPointState::NORMAL,
                )
                &&& pending(e.status) ==> state == Some(DataPointState::EMPTY)
            }),
        ensures
            self.with_ev(r, e).published_but(
                applied(content, cap, full_to_panic, a)->Ok_0.0,
                x,
            ),
            self.with_ev(r, e).held(applied(content, cap, full_to_panic, a)->Ok_0.0, r),
            ordered(applied(content, cap, full_to_panic, a)->Ok_0.0, cap),
    {
        let after = applied(content, cap, full_to_panic, a)->Ok_0.0;
        let g = self.with_ev(r, e);
        let s = versions_of(content, default_table(), a.key());
        let ts = a.ts();
        lemma_applied(content, cap, full_to_panic, a);
        // No other event of a live transaction holds the version.
        assert forall|o: EvRef|
            self.live_ev(o) && o != r && self.ev(o).has_storage_slot implies !(
            #[trigger] self.ev(o).write == a.key() && self.txn(o.txn).ts == ts) by {
            if self.ev(o).write == a.key() && self.txn(o.txn).ts == ts {
                if self.ev(r).has_storage_slot {
                    let p = self.ev(r);
                    let q = self.ev(o);
                    assert(false);
                } else {
                    if o != x {
                        assert(self.held(content, o));
                    }
                    assert(self.recorded(content, o));
                    assert(has_slot(s, ts));
                    match a {
                        Action::Push { .. } => {
                            lemma_fresh_slot(s, ts);
                        },
                        Action::CopyLast { .. } => {
                            lemma_fresh_slot(s, ts);
                        },
                        _ => {},
                    }
                }
            }
        }
        assert forall|o: EvRef| g.live_ev(o) && o != r implies g.ev(o) == self.ev(o)
            && g.txn(o.txn).ts == self.txn(o.txn).ts && self.live_ev(o) by {}
        assert forall|o: EvRef| g.live_ev(o) && o != x implies #[trigger] g.held(after, o) by {
            if o != r {
                assert(self.held(content, o));
                assert(g.ev(o) == self.ev(o));
                if self.ev(o).has_storage_slot {
                    let w = self.ev(o).write;
                    Self::lemma_state_kept(content, after, a, w, self.txn(o.txn).ts);
                }
            }
        }
        if g.live_ev(x) && x != r {
            assert(self.recorded(content, x));
            assert(g.ev(x) == self.ev(x));
            if self.ev(x).has_storage_slot {
                let w = self.ev(x).write;
                Self::lemma_state_kept(content, after, a, w, self.txn(x.txn).ts);
            }
        }
        assert forall|p: EvRef, q: EvRef|
            #![trigger g.ev(p), g.ev(q)]
            g.live_ev(p) && g.live_ev(q) && p != q && g.ev(p).has_storage_slot && g.ev(
                q,
            ).has_storage_slot implies !(g.ev(p).write == g.ev(q).write && g.txn(p.txn).ts
            == g.txn(q.txn).ts) by {
            if p == r {
                assert(g.ev(q) == self.ev(q));
                let w = self.ev(q).write;
            } else if q == r {
                assert(g.ev(p) == self.ev(p));
                let w = self.ev(p).write;
            } else {
                assert(g.ev(p) == self.ev(p));
                assert(g.ev(q) == self.ev(q));
                let u = self.ev(p);
                let v = self.ev(q);
            }
        }
    }

    /// A change leaves the state of every version that it does not name as
    /// it is.
    pub proof fn lemma_state_kept(
        content: Content,
        after: Content,
        a: Action,
        key: Seq<char>,
        ts: u64,
    )
        requires
            knows(content, default_table(), a.key()),
            forall|k: Seq<char>|
                knows(after, default_table(), k) == knows(content, default_table(), k),
            forall|k: Seq<char>|
                k != a.key() ==> versions_of(after, default_table(), k) == versions_of(
                    content,
                    default_table(),
                    k,
                ),
            forall|other: u64|
                other != a.ts() ==> #[trigger] slot_state(
                    versions_of(after, default_table(), a.key()),
                    other,
                ) == slot_state(versions_of(content, default_table(), a.key()), other) && (
                has_slot(versions_of(content, default_table(), a.key()), other) ==> versions_of(
                    after,
                    default_table(),
                    a.key(),
                )[slot_index(versions_of(after, default_table(), a.key()), other)] == versions_of(
                    content,
                    default_table(),
                    a.key(),
                )[slot_index(versions_of(content, default_table(), a.key()), other)]),
            !(key == a.key() && ts == a.ts()),
        ensures
            has_slot(versions_of(content, default_table(), key), ts) ==> versions_of(
                after,
                default_table(),
                key,
            )[slot_index(versions_of(after, default_table(), key), ts)] == versions_of(
                content,
                default_table(),
                key,
            )[slot_index(versions_of(content, default_table(), key), ts)],
            slot_state(versions_of(after, default_table(), key), ts) == slot_state(
                versions_of(content, default_table(), key),
                ts,
            ),
            has_slot(versions_of(after, default_table(), key), ts) == has_slot(
                versions_of(content, default_table(), key),
                ts,
            ),
            knows(after, default_table(), key) == knows(content, default_table(), key),
    {
        if key == a.key() {
            assert(slot_state(versions_of(after, default_table(), a.key()), ts) == slot_state(
                versions_of(content, default_table(), a.key()),
                ts,
            ));
        }
    }

    /// The two graphs have the same transactions, alive or released alike,
    /// with the same timestamps and numbers of events.
    pub open spec fn same_lives(self, after: Graph) -> bool {
        &&& after.nodes.len() == self.nodes.len()
        &&& forall|t: int|
            0 <= t < self.nodes.len() ==> {
                &&& (#[trigger] after.nodes[t]).ev_nodes.len() == self.nodes[t].ev_nodes.len()
                &&& after.nodes[t].ts == self.nodes[t].ts
                &&& after.nodes[t].dropped == self.nodes[t].dropped
            }
    }

    /// Having the same lives is transitive.
    pub proof fn lemma_same_lives_trans(self, mid: Graph, last: Graph)
        requires
            self.same_lives(mid),
            mid.same_lives(last),
        ensures
            self.same_lives(last),
    {
        assert forall|t: int| 0 <= t < self.nodes.len() implies {
            &&& (#[trigger] last.nodes[t]).ev_nodes.len() == self.nodes[t].ev_nodes.len()
            &&& last.nodes[t].ts == self.nodes[t].ts
            &&& last.nodes[t].dropped == self.nodes[t].dropped
        } by {
            assert(mid.nodes[t].ts == self.nodes[t].ts);
        }
    }

    /// An event that is being aborted is aborted, where it is an event of
    /// the graph.
    pub open spec fn aborting(self, x: EvRef) -> bool {
        self.has_ev(x) ==> self.ev(x).status == EventStatus::ABORTED
    }

    /// Visiting a reader keeps the store in agreement with the graph, where
    /// the change of the store is made and fills no ring.  The event that is
    /// being aborted is left as it is.
    pub proof fn lemma_pub_visit_child(
        self,
        content: Content,
        cap: usize,
        full_to_panic: bool,
        x: EvRef,
        parent: EvRef,
        son: EvRef,
    )
        requires
            self.wf(),
            self.published_but(content, x),
            ordered(content, cap),
            self.has_ev(son),
            self.aborting(x),
            run(content, cap, full_to_panic, self.visit_child(parent, son).2) matches Ok(done)
                && done.1 == 0,
        ensures
            self.visit_child(parent, son).0.published_but(
                run(content, cap, full_to_panic, self.visit_child(parent, son).2)->Ok_0.0,
                x,
            ),
            ordered(
                run(content, cap, full_to_panic, self.visit_child(parent, son).2)->Ok_0.0,
                cap,
            ),
            self.same_lives(self.visit_child(parent, son).0),
            self.has_ev(x) ==> self.visit_child(parent, son).0.ev(x) == self.ev(x),
    {
        let e = self.ev(son);
        let v = self.visit_child(parent, son);
        if self.txn(son.txn).dropped {
            lemma_run_none(content, cap, full_to_panic);
            return ;
        }
        match e.status {
            EventStatus::ACCEPTED => {
                let reset = self.reset_accept(son);
                let a = reset.1;
                lemma_run_one(content, cap, full_to_panic, a);
                let after = applied(content, cap, full_to_panic, a)->Ok_0.0;
                assert(son != x);
                assert(self.live_ev(son));
                assert(self.held(content, son));
                let e2 = e.with_status(EventStatus::WAITING);
                lemma_applied(content, cap, full_to_panic, a);
                lemma_effect_on_version(
                    a,
                    versions_of(content, default_table(), a.key()),
                    cap,
                    full_to_panic,
                );
                self.lemma_pub_with_ev(content, cap, full_to_panic, x, son, e2, a);
                let g_mid = self.with_ev(son, e2);
                g_mid.lemma_published_alike(v.0, after);
            },
            EventStatus::CLAIMED | EventStatus::INQUEUE => {
                lemma_run_none(content, cap, full_to_panic);
                self.lemma_published_alike(v.0, content);
            },
            EventStatus::WAITING => {
                lemma_run_none(content, cap, full_to_panic);
                self.lemma_published_alike(v.0, content);
            },
            EventStatus::ABORTED | EventStatus::CONSTRUCT => {
                lemma_run_none(content, cap, full_to_panic);
            },
        }
    }

    /// Visiting the readers of an event keeps the store in agreement with
    /// the graph.
    pub proof fn lemma_pub_visit_children(
        self,
        content: Content,
        cap: usize,
        full_to_panic: bool,
        x: EvRef,
        parent: EvRef,
        children: Seq<EvRef>,
        j: int,
    )
        requires
            self.wf(),
            self.published_but(content, x),
            ordered(content, cap),
            self.aborting(x),
            run(content, cap, full_to_panic, self.visit_children(parent, children, j).2) matches Ok(
                done,
            ) && done.1 == 0,
        ensures
            self.visit_children(parent, children, j).0.published_but(
                run(content, cap, full_to_panic, self.visit_children(parent, children, j).2)->Ok_0.0,
                x,
            ),
            ordered(
                run(content, cap, full_to_panic, self.visit_children(parent, children, j).2)->Ok_0.0,
                cap,
            ),
            self.same_lives(self.visit_children(parent, children, j).0),
            self.has_ev(x) ==> self.visit_children(parent, children, j).0.ev(x) == self.ev(x),
        decreases children.len() - j,
    {
        if 0 <= j < children.len() {
            if self.has_ev(children[j]) {
                let v = self.visit_child(parent, children[j]);
                let rest = v.0.visit_children(parent, children, j + 1);
                lemma_run_concat(content, cap, full_to_panic, v.2, rest.2);
                self.lemma_pub_visit_child(content, cap, full_to_panic, x, parent, children[j]);
                self.lemma_visit_child(parent, children[j]);
                let mid = run(content, cap, full_to_panic, v.2)->Ok_0.0;
                assert(v.0.has_ev(x) == self.has_ev(x)) by {
                    if x.txn < self.nodes.len() {
                        assert(v.0.nodes[x.txn as int].ev_nodes.len()
                            == self.nodes[x.txn as int].ev_nodes.len());
                    }
                }
                v.0.lemma_pub_visit_children(mid, cap, full_to_panic, x, parent, children, j + 1);
                self.lemma_same_lives_trans(v.0, rest.0);
            } else {
                self.lemma_pub_visit_children(content, cap, full_to_panic, x, parent, children, j + 1);
            }
        } else {
            lemma_run_none(content, cap, full_to_panic);
        }
    }

    /// A rollback keeps the store in agreement with the graph.
    pub proof fn lemma_pub_cascade(
        self,
        content: Content,
        cap: usize,
        full_to_panic: bool,
        x: EvRef,
        stack: Seq<EvRef>,
        fuel: nat,
    )
        requires
            self.wf(),
            self.published_but(content, x),
            ordered(content, cap),
            self.aborting(x),
            run(content, cap, full_to_panic, self.cascade(stack, fuel).1) matches Ok(done)
                && done.1 == 0,
        ensures
            self.cascade(stack, fuel).0.published_but(
                run(content, cap, full_to_panic, self.cascade(stack, fuel).1)->Ok_0.0,
                x,
            ),
            ordered(run(content, cap, full_to_panic, self.cascade(stack, fuel).1)->Ok_0.0, cap),
            self.same_lives(self.cascade(stack, fuel).0),
            self.has_ev(x) ==> self.cascade(stack, fuel).0.ev(x) == self.ev(x),
        decreases fuel, stack.len(),
    {
        if stack.len() == 0 {
            lemma_run_none(content, cap, full_to_panic);
        } else if !self.has_ev(stack.last()) {
            self.lemma_pub_cascade(content, cap, full_to_panic, x, stack.drop_last(), fuel);
        } else {
            let children = self.ev(stack.last()).read_by;
            let v = self.visit_children(stack.last(), children, 0);
            self.lemma_visit_children(stack.last(), children, 0);
            if v.1.len() > fuel {
                self.lemma_pub_visit_children(
                    content,
                    cap,
                    full_to_panic,
                    x,
                    stack.last(),
                    children,
                    0,
                );
            } else {
                let rest = stack.drop_last() + v.1;
                let r = v.0.cascade(rest, (fuel - v.1.len()) as nat);
                lemma_run_concat(content, cap, full_to_panic, v.2, r.1);
                self.lemma_pub_visit_children(
                    content,
                    cap,
                    full_to_panic,
                    x,
                    stack.last(),
                    children,
                    0,
                );
                let mid = run(content, cap, full_to_panic, v.2)->Ok_0.0;
                assert(v.0.has_ev(x) == self.has_ev(x)) by {
                    if x.txn < self.nodes.len() {
                        assert(v.0.nodes[x.txn as int].ev_nodes.len()
                            == self.nodes[x.txn as int].ev_nodes.len());
                    }
                }
                v.0.lemma_pub_cascade(
                    mid,
                    cap,
                    full_to_panic,
                    x,
                    rest,
                    (fuel - v.1.len()) as nat,
                );
                self.lemma_same_lives_trans(v.0, r.0);
            }
        }
    }
}

} // verus!
