use crate::ds::transactions::Txn;
use crate::external::ffi::{Finished, Outcome, TxnMessage};
use crate::tpg::ev_node::EvNode;
use crate::tpg::model::{EvRef, Graph};
use crate::tpg::steps::Enqueue;
use crate::tpg::tpg::Tpg;
use crate::tpg::txn_node::TxnNode;
use vstd::prelude::*;

verus! {

/// What came of a request.
pub enum Constructed {
    /// The request was refused; the graph is as it was, and the report is
    /// to be sent.
    Illegal(Finished),
    /// The transaction is in the graph at place `txn`; `outcomes` says for
    /// each of its events what came of offering it to the ready queue, and
    /// `in_time` whether the request came in time: it has an event, and the
    /// last writer of each key that it reads still waits.
    Linked { txn: usize, outcomes: Vec<Enqueue>, in_time: bool },
}

impl Graph {
    /// What starting event `r` and offering it to the ready queue gives.
    pub open spec fn start_and_offer(self, r: EvRef) -> (Graph, Enqueue) {
        self.start_event(r).offer(r)
    }

    /// What starting and offering the events `j..count` of transaction `t`
    /// gives.
    pub open spec fn launch(self, t: usize, j: int, count: int) -> (Graph, Seq<Enqueue>)
        decreases count - j,
    {
        if j < 0 || j >= count {
            (self, Seq::empty())
        } else {
            let s = self.start_and_offer(EvRef { txn: t, idx: j as usize });
            let rest = s.0.launch(t, j + 1, count);
            (rest.0, seq![s.1] + rest.1)
        }
    }

    /// What the construct thread makes of a request.  A legal request
    /// becomes the newest transaction: it is linked, and each of its events
    /// is started and, if nothing holds it back, queued.  Any other request
    /// leaves the graph as it is.
    pub open spec fn construct(self, msg: TxnMessage, templates: Vec<Txn>) -> (
        Graph,
        Option<Seq<Enqueue>>,
    ) {
        if !self.accepts(msg, templates) {
            (self, None)
        } else {
            let t = self.nodes.len() as usize;
            let g1 = self.enlisted(msg, templates).set_links(t);
            let l = g1.launch(t, 0, g1.txn(t).ev_nodes.len() as int);
            (l.0, Some(l.1))
        }
    }
}

/// The number of `wanted` among `outcomes`.
pub fn count_outcomes(outcomes: &Vec<Enqueue>, wanted: Enqueue) -> (r: usize)
    ensures
        r == outcomes@.filter(|o: Enqueue| o == wanted).len(),
{
    let mut n: usize = 0;
    let mut i: usize = 0;
    while i < outcomes.len()
        invariant
            i <= outcomes@.len(),
            n <= i,
            n == outcomes@.take(i as int).filter(|o: Enqueue| o == wanted).len(),
        decreases outcomes.len() - i,
    {
        proof {
            let pred = |o: Enqueue| o == wanted;
            let upto = outcomes@.take(i + 1);
            assert(upto.drop_last() =~= outcomes@.take(i as int));
            reveal(Seq::filter);
        }
        if outcomes[i] == wanted {
            n = n + 1;
        }
        i = i + 1;
    }
    assert(outcomes@.take(outcomes@.len() as int) =~= outcomes@);
    n
}

/// Handles one request, as the construct thread does.
///
/// The request is refused, with a report that it is illegal, where it
/// names no template, gives too few row slots, or asks for keys that the
/// graph does not have; the graph is then untouched.  Otherwise the
/// transaction is built from its template and becomes the newest one, its
/// events are linked to the last writers of their keys, and each event is
/// started and offered to the ready queue.  A request that comes late, after
/// a transaction that it reads from has committed or was aborted, is linked
/// all the same; the result says so.
pub fn construct(g: &mut Tpg, msg: TxnMessage, templates: &Vec<Txn>) -> (r: Constructed)
    requires
        old(g)@.wf(),
        old(g)@.nodes.len() < usize::MAX,
    ensures
        final(g)@ == old(g)@.construct(msg, *templates).0,
        final(g)@.wf(),
        old(g)@.sound() ==> final(g)@.sound() && old(g)@.committed_stay(final(g)@),
        old(g)@.sound() && old(g)@.all_driven() ==> final(g)@.all_driven(),
        old(g)@.sound() && old(g)@.orderly() && old(g)@.in_time(msg, *templates)
            ==> final(g)@.orderly(),
        forall|content: crate::database::api::Content|
            old(g)@.sound() && #[trigger] old(g)@.published(content) ==> final(g)@.published(
                content,
            ),
        match r {
            Constructed::Illegal(report) => {
                &&& old(g)@.construct(msg, *templates).1 is None
                &&& report == (Finished { txn_req_id: msg.txn_req_id, outcome: Outcome::ILLEGAL })
            },
            Constructed::Linked { txn, outcomes, in_time } => {
                &&& txn == old(g)@.nodes.len()
                &&& old(g)@.construct(msg, *templates).1 == Some(outcomes@)
                &&& in_time == old(g)@.in_time(msg, *templates)
            },
        },
{
    proof {
        if g@.sound() {
            g@.lemma_sound_construct(msg, *templates);
            if g@.all_driven() {
                g@.lemma_driven_construct(msg, *templates);
            }
            if g@.orderly() && g@.in_time(msg, *templates) {
                g@.lemma_orderly_construct(msg, *templates);
            }
            assert forall|content: crate::database::api::Content| #[trigger]
                g@.published(content) implies g@.construct(msg, *templates).0.published(
                content,
            ) by {
                g@.lemma_pub_construct(content, msg, *templates);
            }
        }
    }
    let txn_req_id = msg.txn_req_id;
    let t = match g.enlist(msg, templates) {
        None => {
            return Constructed::Illegal(Finished { txn_req_id, outcome: Outcome::ILLEGAL });
        },
        Some(t) => t,
    };
    proof {
        old(g)@.lemma_came_in_time(msg, *templates);
    }
    let in_time = g.came_in_time(t);
    TxnNode::set_links(g, t);
    let ghost g1 = g@;
    let count = g.nodes[t].ev_nodes.len();
    let ghost all = g1.launch(t, 0, count as int);
    let mut outcomes: Vec<Enqueue> = Vec::with_capacity(count);
    let mut j: usize = 0;
    while j < count
        invariant
            j <= count,
            g1.has_txn(t),
            count == g1.txn(t).ev_nodes.len(),
            g@.wf(),
            g@.same_keys(g1),
            all == g1.launch(t, 0, count as int),
            g@.launch(t, j as int, count as int).0 == all.0,
            outcomes@ + g@.launch(t, j as int, count as int).1 == all.1,
        decreases count - j,
    {
        let r = EvRef { txn: t, idx: j };
        let ghost g_j = g@;
        let ghost out_j = outcomes@;
        proof {
            assert(g@.nodes[t as int].same_keys(g1.nodes[t as int]));
        }
        EvNode::start(g, r);
        let ghost g_s = g@;
        let outcome = EvNode::offer(g, r);
        outcomes.push(outcome);
        proof {
            let s = g_j.start_and_offer(r);
            let rest = s.0.launch(t, j + 1, count as int);
            assert(g_j.launch(t, j as int, count as int) == (rest.0, seq![s.1] + rest.1));
            assert(outcomes@ + rest.1 =~= out_j + (seq![s.1] + rest.1));
            g@.lemma_same_keys_trans(g_s, g_j);
            g@.lemma_same_keys_trans(g_j, g1);
        }
        j = j + 1;
    }
    proof {
        assert(outcomes@ + Seq::<Enqueue>::empty() =~= outcomes@);
    }
    Constructed::Linked { txn: t, outcomes, in_time }
}

} // verus!
