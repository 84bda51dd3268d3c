use crate::ds::events::{Event, EventSpec};
use crate::ds::keys::{ascending, keys_of, sort_dedup};
use crate::ds::transactions::{prepared, Txn};
use vstd::prelude::*;

verus! {

/// A request to run one transaction.
pub struct TxnMessage {
    /// The template to run.
    pub type_idx: u16,
    /// The arrival timestamp, which orders the transactions.
    pub ts: u64,
    /// The identity under which the outcome is reported.
    pub txn_req_id: u64,
    /// For each event, the row slot of each key it reads.
    pub reads_idx: Vec<Vec<usize>>,
    /// For each event, the row slot of the key it writes.
    pub write_idx: Vec<usize>,
}

/// How a transaction ended.
#[derive(Debug, Clone, Copy, PartialEq, Eq, Structural)]
pub enum Outcome {
    /// The request was refused and never entered the graph.
    ILLEGAL,
    SUCCESS,
    ABORTED,
}

/// The report that a transaction is done.
#[derive(Debug, Clone, Copy, PartialEq, Eq, Structural)]
pub struct Finished {
    pub txn_req_id: u64,
    pub outcome: Outcome,
}

/// The transactions of one application: each is the list of its state
/// accesses.
pub struct TransactionData {
    pub state_accesses: Vec<Event>,
}

pub struct AppInfo {
    pub name: String,
    pub transactions: Vec<TransactionData>,
}

/// What the adapter says of itself when it starts: its applications and
/// their transactions.
pub struct AppData {
    pub app: Vec<AppInfo>,
}

/// What becomes of a request at the door.
pub enum Deposit {
    /// The request names a template; it goes on to the construct thread.
    Forward(TxnMessage),
    /// The request names no template; the report is to be sent back.
    Refuse(Finished),
}

/// Receives a request from the adapter.  A request that names no template
/// is refused at once, with a report that it is illegal.
pub fn deposit_transaction(msg: TxnMessage, templates: &Vec<Txn>) -> (r: Deposit)
    ensures
        msg.type_idx < templates@.len() ==> r == Deposit::Forward(msg),
        msg.type_idx >= templates@.len() ==> r == Deposit::Refuse(
            Finished { txn_req_id: msg.txn_req_id, outcome: Outcome::ILLEGAL },
        ),
{
    if msg.type_idx as usize >= templates.len() {
        Deposit::Refuse(Finished { txn_req_id: msg.txn_req_id, outcome: Outcome::ILLEGAL })
    } else {
        Deposit::Forward(msg)
    }
}

/// The accesses of every transaction of every application, in order.
pub open spec fn declared(apps: Seq<AppInfo>) -> Seq<Seq<EventSpec>>
    decreases apps.len(),
{
    if apps.len() == 0 {
        Seq::empty()
    } else {
        declared(apps.drop_last()) + apps.last().transactions@.map_values(
            |t: TransactionData| t.state_accesses@.map_values(|e: Event| e@),
        )
    }
}

/// Makes the templates from what the adapter declares: one for each
/// transaction of each application, in order, each prepared and with the
/// keys that it reads counted.
pub fn init_sfc(apps: &AppData) -> (templates: Vec<Txn>)
    ensures
        templates@.len() == declared(apps.app@).len(),
        forall|t: int|
            0 <= t < templates@.len() ==> (#[trigger] templates@[t]).events().len() == declared(
                apps.app@,
            )[t].len(),
        forall|t: int, e: int|
            0 <= t < templates@.len() && 0 <= e < declared(apps.app@)[t].len() ==> prepared(
                declared(apps.app@)[t][e],
                #[trigger] templates@[t].events()[e],
                e,
            ),
        forall|t: int| 0 <= t < templates@.len() ==> (#[trigger] templates@[t]).counted(),
{
    let ghost all = apps.app@;
    let mut templates: Vec<Txn> = Vec::new();
    let mut a: usize = 0;
    assert(all.take(0) =~= Seq::<AppInfo>::empty());
    while a < apps.app.len()
        invariant
            a <= all.len(),
            all == apps.app@,
            made_from(templates@, declared(all.take(a as int))),
        decreases apps.app.len() - a,
    {
        let ghost head = declared(all.take(a as int));
        let transactions = &apps.app[a].transactions;
        let ghost these = transactions@.map_values(
            |t: TransactionData| t.state_accesses@.map_values(|e: Event| e@),
        );
        let mut x: usize = 0;
        assert(head + these.take(0) =~= head);
        while x < transactions.len()
            invariant
                x <= transactions@.len(),
                these == transactions@.map_values(
                    |t: TransactionData| t.state_accesses@.map_values(|e: Event| e@),
                ),
                made_from(templates@, head + these.take(x as int)),
            decreases transactions.len() - x,
        {
            let accesses = &transactions[x].state_accesses;
            let mut es: Vec<Event> = Vec::with_capacity(accesses.len());
            let mut e: usize = 0;
            while e < accesses.len()
                invariant
                    e <= accesses@.len(),
                    es@.len() == e,
                    forall|j: int| 0 <= j < e ==> (#[trigger] es@[j])@ == accesses@[j]@,
                decreases accesses.len() - e,
            {
                es.push(accesses[e].duplicate());
                e = e + 1;
            }
            let mut txn = Txn::new(es);
            assert(txn.events() =~= these[x as int]);
            txn.process_txn();
            let ghost made = templates@;
            templates.push(txn);
            proof {
                let source = head + these.take(x as int);
                let more = head + these.take(x + 1);
                assert(more =~= source.push(these[x as int]));
                assert forall|t: int| 0 <= t < templates@.len() implies (
                #[trigger] templates@[t]).events().len() == more[t].len() by {
                    if t < made.len() {
                        assert(templates@[t] == made[t]);
                    }
                }
                assert forall|t: int, e: int|
                    0 <= t < templates@.len() && 0 <= e < more[t].len() implies prepared(
                    more[t][e],
                    #[trigger] templates@[t].events()[e],
                    e,
                ) by {
                    if t < made.len() {
                        assert(templates@[t] == made[t]);
                        assert(prepared(source[t][e], made[t].events()[e], e));
                    }
                }
                assert forall|t: int| 0 <= t < templates@.len() implies (
                #[trigger] templates@[t]).counted() by {
                    if t < made.len() {
                        assert(templates@[t] == made[t]);
                    }
                }
            }
            x = x + 1;
        }
        proof {
            let upto = all.take(a + 1);
            assert(upto.drop_last() =~= all.take(a as int));
            assert(upto.last() == all[a as int]);
            assert(these.take(transactions@.len() as int) =~= these);
            assert(declared(upto) == head + these);
        }
        a = a + 1;
    }
    assert(all.take(all.len() as int) =~= all);
    templates
}

/// Whether `templates` are the transactions `source`, each prepared and
/// with its keys counted.
pub open spec fn made_from(templates: Seq<Txn>, source: Seq<Seq<EventSpec>>) -> bool {
    &&& templates.len() == source.len()
    &&& forall|t: int|
        0 <= t < templates.len() ==> (#[trigger] templates[t]).events().len() == source[t].len()
    &&& forall|t: int, e: int|
        0 <= t < templates.len() && 0 <= e < source[t].len() ==> prepared(
            source[t][e],
            #[trigger] templates[t].events()[e],
            e,
        )
    &&& forall|t: int| 0 <= t < templates.len() ==> (#[trigger] templates[t]).counted()
}

/// The keys that the accesses of a template read.
pub open spec fn reads_key(es: Seq<EventSpec>, key: Seq<char>) -> bool {
    exists|e: int, i: int|
        0 <= e < es.len() && 0 <= i < es[e].reads.len() && #[trigger] es[e].reads[i] == key
}

/// Whether `out` lists, template after template, the keys that the
/// template reads, each once and in ascending order; the list of template
/// `t` lies between the places `cuts[t]` and `cuts[t + 1]`.
pub open spec fn lists_variables(templates: Seq<Txn>, out: Seq<Seq<char>>, cuts: Seq<int>) -> bool {
    &&& cuts.len() == templates.len() + 1
    &&& cuts[0] == 0
    &&& cuts.last() == out.len()
    &&& forall|t: int|
        #![trigger cuts[t]]
        0 <= t < templates.len() ==> {
            &&& 0 <= cuts[t] <= cuts[t + 1] <= out.len()
            &&& ascending(out.subrange(cuts[t], cuts[t + 1]))
            &&& forall|k: Seq<char>|
                out.subrange(cuts[t], cuts[t + 1]).contains(k) <==> reads_key(
                    templates[t].events(),
                    k,
                )
        }
}

/// The state keys that the templates name: for each template in turn, the
/// keys that it reads, each once and in ascending order.
pub fn all_variables(templates: &Vec<Txn>) -> (ret: Vec<String>)
    ensures
        exists|cuts: Seq<int>| lists_variables(templates@, keys_of(ret@), cuts),
{
    let mut ret: Vec<String> = Vec::new();
    let mut t: usize = 0;
    let ghost mut cuts: Seq<int> = seq![0int];
    while t < templates.len()
        invariant
            t <= templates@.len(),
            lists_variables(templates@.take(t as int), keys_of(ret@), cuts),
        decreases templates.len() - t,
    {
        let txn = &templates[t];
        let ghost es = txn.events();
        let mut all_reads: Vec<String> = Vec::new();
        let mut e: usize = 0;
        while e < txn.es.len()
            invariant
                e <= txn.es@.len(),
                es == txn.events(),
                forall|k: Seq<char>|
                    keys_of(all_reads@).contains(k) <==> reads_key(es.take(e as int), k),
            decreases txn.es.len() - e,
        {
            let event = &txn.es[e];
            let ghost head = keys_of(all_reads@);
            let mut i: usize = 0;
            while i < event.reads.len()
                invariant
                    e < es.len(),
                    i <= event.reads@.len(),
                    event@ == es[e as int],
                    forall|k: Seq<char>|
                        keys_of(all_reads@).contains(k) <==> (head.contains(k)
                            || event@.reads.take(i as int).contains(k)),
                decreases event.reads.len() - i,
            {
                let ghost sofar = keys_of(all_reads@);
                all_reads.push(event.reads[i].clone());
                proof {
                    let now = keys_of(all_reads@);
                    let key = event@.reads[i as int];
                    assert(now =~= sofar.push(key));
                    let part = event@.reads.take(i as int);
                    let more = event@.reads.take(i + 1);
                    assert forall|k: Seq<char>| now.contains(k) <==> (head.contains(k)
                        || more.contains(k)) by {
                        assert(sofar.contains(k) <==> (head.contains(k) || part.contains(k)));
                        if sofar.contains(k) {
                            let j = choose|j: int| 0 <= j < sofar.len() && sofar[j] == k;
                            assert(now[j] == k);
                        }
                        if part.contains(k) {
                            let j = choose|j: int| 0 <= j < part.len() && part[j] == k;
                            assert(more[j] == k);
                        }
                        if k == key {
                            assert(now[sofar.len() as int] == k);
                            assert(more[i as int] == k);
                        }
                        if now.contains(k) {
                            let j = choose|j: int| 0 <= j < now.len() && now[j] == k;
                            if j < sofar.len() {
                                assert(sofar[j] == k);
                            }
                        }
                        if more.contains(k) {
                            let j = choose|j: int| 0 <= j < more.len() && more[j] == k;
                            if j < i {
                                assert(part[j] == k);
                            }
                        }
                    }
                }
                i = i + 1;
            }
            proof {
                assert(event@.reads.take(event@.reads.len() as int) =~= event@.reads);
                let prev = es.take(e as int);
                let upto = es.take(e + 1);
                assert forall|k: Seq<char>|
                    keys_of(all_reads@).contains(k) <==> reads_key(upto, k) by {
                    assert(head.contains(k) <==> reads_key(prev, k));
                    if reads_key(prev, k) {
                        let (x, j) = choose|x: int, j: int|
                            0 <= x < prev.len() && 0 <= j < prev[x].reads.len()
                                && #[trigger] prev[x].reads[j] == k;
                        assert(upto[x].reads[j] == k);
                    }
                    if event@.reads.contains(k) {
                        let j = choose|j: int| 0 <= j < event@.reads.len() && event@.reads[j] == k;
                        assert(upto[e as int].reads[j] == k);
                    }
                    if reads_key(upto, k) {
                        let (x, j) = choose|x: int, j: int|
                            0 <= x < upto.len() && 0 <= j < upto[x].reads.len()
                                && #[trigger] upto[x].reads[j] == k;
                        if x < e {
                            assert(prev[x].reads[j] == k);
                        } else {
                            assert(event@.reads[j] == k);
                        }
                    }
                }
            }
            e = e + 1;
        }
        assert(es.take(txn.es@.len() as int) =~= es);
        let sorted = sort_dedup(&all_reads);
        let ghost before = keys_of(ret@);
        let mut i: usize = 0;
        while i < sorted.len()
            invariant
                i <= sorted@.len(),
                keys_of(ret@) == before + keys_of(sorted@).take(i as int),
            decreases sorted.len() - i,
        {
            let ghost prev = keys_of(ret@);
            let key = sorted[i].clone();
            assert(key@ == keys_of(sorted@)[i as int]);
            ret.push(key);
            assert(keys_of(ret@) =~= prev.push(keys_of(sorted@)[i as int]));
            assert(keys_of(ret@) =~= before + keys_of(sorted@).take(i + 1));
            i = i + 1;
        }
        proof {
            let out = keys_of(ret@);
            let done = templates@.take(t as int);
            let upto = templates@.take(t + 1);
            let grown = cuts.push(out.len() as int);
            assert(keys_of(sorted@).take(sorted@.len() as int) =~= keys_of(sorted@));
            assert(out =~= before + keys_of(sorted@));
            assert forall|x: int| #![trigger grown[x]] 0 <= x < upto.len() implies {
                &&& 0 <= grown[x] <= grown[x + 1] <= out.len()
                &&& ascending(out.subrange(grown[x], grown[x + 1]))
                &&& forall|k: Seq<char>|
                    out.subrange(grown[x], grown[x + 1]).contains(k) <==> reads_key(
                        upto[x].events(),
                        k,
                    )
            } by {
                assert(cuts.len() == t + 1);
                assert(cuts.last() == before.len());
                if x < t {
                    assert(upto[x] == done[x]);
                    assert(grown[x] == cuts[x] && grown[x + 1] == cuts[x + 1]);
                    assert(0 <= cuts[x] <= cuts[x + 1] <= before.len());
                    assert(out.subrange(grown[x], grown[x + 1]) =~= before.subrange(
                        cuts[x],
                        cuts[x + 1],
                    ));
                } else {
                    assert(upto[x].events() == es);
                    assert(grown[x] == before.len());
                    assert(grown[x + 1] == out.len());
                    assert(out.subrange(grown[x], grown[x + 1]) =~= keys_of(sorted@));
                    assert forall|k: Seq<char>|
                        keys_of(sorted@).contains(k) <==> reads_key(es, k) by {
                        assert(keys_of(sorted@).contains(k) <==> keys_of(all_reads@).contains(k));
                    }
                }
            }
            cuts = grown;
        }
        t = t + 1;
    }
    assert(templates@.take(templates@.len() as int) =~= templates@);
    assert(lists_variables(templates@, keys_of(ret@), cuts));
    ret
}

} // verus!
