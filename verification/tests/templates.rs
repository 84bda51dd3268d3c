use db4nfv::ds::events::Event;
use db4nfv::ds::keys::{compare_keys, insert_key, sort_dedup, KeyOrder};
use db4nfv::ds::transactions::Txn;
use db4nfv::external::ffi::{all_variables, init_sfc, AppData, AppInfo, TransactionData};

fn strings(list: &[&str]) -> Vec<String> {
    list.iter().map(|s| String::from(*s)).collect()
}

fn access(reads: &[&str], write: &str, has_write: bool) -> Event {
    Event::new(strings(reads), String::from(write), has_write)
}

#[test]
fn keys_compare_by_their_bytes() {
    assert_eq!(compare_keys("a", "b"), KeyOrder::Before);
    assert_eq!(compare_keys("b", "a"), KeyOrder::After);
    assert_eq!(compare_keys("abc", "abc"), KeyOrder::Same);
    assert_eq!(compare_keys("", ""), KeyOrder::Same);
    assert_eq!(compare_keys("", "a"), KeyOrder::Before);
    assert_eq!(compare_keys("ab", "abc"), KeyOrder::Before);
    assert_eq!(compare_keys("abd", "abc"), KeyOrder::After);
    assert_eq!(compare_keys("Z", "a"), KeyOrder::Before);
    assert_eq!(compare_keys("a_10", "a_9"), KeyOrder::Before);
    assert_eq!(compare_keys("z", "é"), KeyOrder::Before);
    assert_eq!(compare_keys("é", "€"), KeyOrder::Before);
    for (a, b) in [("a", "b"), ("key", "key2"), ("é", "e"), ("", "x"), ("same", "same")] {
        let expected = match a.cmp(b) {
            std::cmp::Ordering::Less => KeyOrder::Before,
            std::cmp::Ordering::Equal => KeyOrder::Same,
            std::cmp::Ordering::Greater => KeyOrder::After,
        };
        assert_eq!(compare_keys(a, b), expected);
    }
}

#[test]
fn keys_are_sorted_and_kept_once() {
    assert_eq!(sort_dedup(&strings(&["b", "a", "c", "a", "b"])), strings(&["a", "b", "c"]));
    assert_eq!(sort_dedup(&strings(&[])), strings(&[]));
    assert_eq!(sort_dedup(&strings(&["x"])), strings(&["x"]));
    assert_eq!(sort_dedup(&strings(&["k10", "k2", "k1"])), strings(&["k1", "k10", "k2"]));
    let mut list = strings(&["b", "d"]);
    insert_key(&mut list, &String::from("c"));
    insert_key(&mut list, &String::from("a"));
    insert_key(&mut list, &String::from("e"));
    insert_key(&mut list, &String::from("c"));
    assert_eq!(list, strings(&["a", "b", "c", "d", "e"]));
}

#[test]
fn process_txn_adds_the_write_to_the_reads() {
    let mut txn = Txn::new(vec![
        access(&["b", "a", "b"], "c", true),
        access(&["c"], "c", true),
        access(&[], "a", false),
    ]);
    txn.process_txn();
    assert_eq!(txn.es.len(), 3);
    assert_eq!(txn.es[0].reads, strings(&["a", "b", "c"]));
    assert_eq!(txn.es[0].write, "c");
    assert!(txn.es[0].has_write);
    assert_eq!(txn.es[0].sa_idx, 0);
    assert_eq!(txn.es[1].reads, strings(&["c"]));
    assert_eq!(txn.es[1].sa_idx, 1);
    assert_eq!(txn.es[2].reads, strings(&["a"]));
    assert!(!txn.es[2].has_write);
    assert_eq!(txn.es[2].sa_idx, 2);
    // All reads are a, b, c, c, a; the repeated c counts once.
    assert_eq!(txn.all_reads_length, 4);
    assert_eq!(txn.all_reads_index_map.len(), 3);
    assert_eq!(txn.all_reads_index_map.get("a"), Some(&3));
    assert_eq!(txn.all_reads_index_map.get("b"), Some(&1));
    assert_eq!(txn.all_reads_index_map.get("c"), Some(&2));
    assert_eq!(txn.all_reads_index_map.get("d"), None);
}

#[test]
fn process_txn_of_an_empty_template() {
    let mut txn = Txn::new(Vec::new());
    txn.process_txn();
    assert!(txn.es.is_empty());
    assert_eq!(txn.all_reads_length, 0);
    assert!(txn.all_reads_index_map.is_empty());
}

fn declared() -> AppData {
    AppData {
        app: vec![
            AppInfo {
                name: String::from("SLApp"),
                transactions: vec![
                    TransactionData { state_accesses: vec![access(&["balance"], "balance", true)] },
                    TransactionData {
                        state_accesses: vec![
                            access(&["balance"], "balance", true),
                            access(&["limit", "balance"], "audit", true),
                        ],
                    },
                ],
            },
            AppInfo { name: String::from("empty"), transactions: vec![] },
            AppInfo {
                name: String::from("other"),
                transactions: vec![TransactionData {
                    state_accesses: vec![access(&[], "counter", true)],
                }],
            },
        ],
    }
}

#[test]
fn init_sfc_makes_one_template_for_each_transaction() {
    let apps = declared();
    let templates = init_sfc(&apps);
    assert_eq!(templates.len(), 3);
    assert_eq!(templates[0].es.len(), 1);
    assert_eq!(templates[0].es[0].reads, strings(&["balance"]));
    assert_eq!(templates[1].es.len(), 2);
    assert_eq!(templates[1].es[1].reads, strings(&["audit", "balance", "limit"]));
    assert_eq!(templates[1].es[1].write, "audit");
    assert_eq!(templates[1].es[1].sa_idx, 1);
    assert_eq!(templates[1].all_reads_length, 4);
    assert_eq!(templates[2].es[0].reads, strings(&["counter"]));
    assert_eq!(templates[2].es[0].sa_idx, 0);
    // What was declared is left as it was.
    assert_eq!(apps.app[0].transactions[1].state_accesses[1].reads, strings(&["limit", "balance"]));
}

#[test]
fn all_variables_lists_the_keys_of_each_template() {
    let templates = init_sfc(&declared());
    assert_eq!(
        all_variables(&templates),
        strings(&["balance", "audit", "balance", "limit", "counter"])
    );
    assert_eq!(all_variables(&Vec::new()), strings(&[]));
}

#[test]
fn an_access_is_copied_with_all_it_names() {
    let mut first = access(&["x", "y"], "z", true);
    first.sa_idx = 4;
    let copy = first.duplicate();
    assert_eq!(copy.reads, strings(&["x", "y"]));
    assert_eq!(copy.write, "z");
    assert!(copy.has_write);
    assert_eq!(copy.sa_idx, 4);
}
