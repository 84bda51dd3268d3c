use vstd::prelude::*;
use vstd::string::StringSliceAdditionalSpecFns;
use vstd::utf8::encode_utf8;

verus! {

/// How two keys compare.
#[derive(Debug, Clone, Copy, PartialEq, Eq, Structural)]
pub enum KeyOrder {
    Before,
    Same,
    After,
}

/// The order of byte strings: at the first place where they differ `a` has
/// the smaller byte, or `a` ends there and `b` goes on.
pub open spec fn bytes_lt(a: Seq<u8>, b: Seq<u8>) -> bool {
    exists|k: int| #[trigger] differ_at(a, b, k)
}

/// `a` and `b` agree before place `k`, and at `k` either `a` ends and `b`
/// does not, or `a` has the smaller byte.
pub open spec fn differ_at(a: Seq<u8>, b: Seq<u8>, k: int) -> bool {
    &&& 0 <= k <= a.len()
    &&& k <= b.len()
    &&& forall|i: int| 0 <= i < k ==> a[i] == b[i]
    &&& (k == a.len() && k < b.len()) || (k < a.len() && k < b.len() && a[k] < b[k])
}

/// The order of keys: that of their bytes.
pub open spec fn key_lt(a: Seq<char>, b: Seq<char>) -> bool {
    bytes_lt(encode_utf8(a), encode_utf8(b))
}

/// The keys stand in strictly ascending order, so that none occurs twice.
pub open spec fn ascending(s: Seq<Seq<char>>) -> bool {
    forall|i: int, j: int| 0 <= i < j < s.len() ==> key_lt(s[i], s[j])
}

/// No byte string comes before itself.
pub proof fn lemma_bytes_lt_irreflexive(a: Seq<u8>)
    ensures
        !bytes_lt(a, a),
{
    if bytes_lt(a, a) {
        let k = choose|k: int| #[trigger] differ_at(a, a, k);
        assert(false);
    }
}

/// The order of byte strings is transitive.
pub proof fn lemma_bytes_lt_transitive(a: Seq<u8>, b: Seq<u8>, c: Seq<u8>)
    requires
        bytes_lt(a, b),
        bytes_lt(b, c),
    ensures
        bytes_lt(a, c),
{
    let k1 = choose|k: int| #[trigger] differ_at(a, b, k);
    let k2 = choose|k: int| #[trigger] differ_at(b, c, k);
    if k1 <= k2 {
        assert(differ_at(a, c, k1));
    } else {
        assert(differ_at(a, c, k2));
    }
}

/// The order of keys is transitive, and no key comes before itself.
pub proof fn lemma_key_lt(a: Seq<char>, b: Seq<char>, c: Seq<char>)
    ensures
        !key_lt(a, a),
        key_lt(a, b) && key_lt(b, c) ==> key_lt(a, c),
{
    lemma_bytes_lt_irreflexive(encode_utf8(a));
    if key_lt(a, b) && key_lt(b, c) {
        lemma_bytes_lt_transitive(encode_utf8(a), encode_utf8(b), encode_utf8(c));
    }
}

/// Compares two keys.
pub fn compare_keys(a: &str, b: &str) -> (r: KeyOrder)
    ensures
        r == KeyOrder::Before ==> key_lt(a@, b@),
        r == KeyOrder::After ==> key_lt(b@, a@),
        r == KeyOrder::Same ==> a@ == b@,
{
    let x = a.as_bytes();
    let y = b.as_bytes();
    let mut i: usize = 0;
    while i < x.len() && i < y.len()
        invariant
            i <= x@.len(),
            i <= y@.len(),
            x@ == encode_utf8(a@),
            y@ == encode_utf8(b@),
            forall|j: int| 0 <= j < i ==> x@[j] == y@[j],
        decreases x.len() - i,
    {
        if x[i] < y[i] {
            assert(differ_at(x@, y@, i as int));
            return KeyOrder::Before;
        }
        if x[i] > y[i] {
            assert(differ_at(y@, x@, i as int));
            return KeyOrder::After;
        }
        i = i + 1;
    }
    if x.len() < y.len() {
        assert(differ_at(x@, y@, i as int));
        KeyOrder::Before
    } else if x.len() > y.len() {
        assert(differ_at(y@, x@, i as int));
        KeyOrder::After
    } else {
        proof {
            assert(x@ =~= y@);
            vstd::utf8::encode_utf8_decode_utf8(a@);
            vstd::utf8::encode_utf8_decode_utf8(b@);
        }
        KeyOrder::Same
    }
}

/// The views of a list of keys.
pub open spec fn keys_of(v: Seq<String>) -> Seq<Seq<char>> {
    v.map_values(|s: String| s@)
}

/// Inserts `key` into the ascending list `out` at its place, unless the
/// list has it.
pub fn insert_key(out: &mut Vec<String>, key: &String)
    requires
        ascending(keys_of(old(out)@)),
    ensures
        ascending(keys_of(final(out)@)),
        forall|k: Seq<char>|
            keys_of(final(out)@).contains(k) <==> (keys_of(old(out)@).contains(k) || k == key@),
{
    let ghost before = keys_of(out@);
    let mut p: usize = 0;
    let mut placed = false;
    while p < out.len() && !placed
        invariant
            p <= out@.len(),
            out@ == old(out)@,
            before == keys_of(out@),
            ascending(before),
            forall|i: int| 0 <= i < p ==> key_lt(before[i], key@),
            placed ==> p < out@.len() && key_lt(key@, before[p as int]),
        decreases out.len() - p, (if placed { 0int } else { 1int }),
    {
        match compare_keys(out[p].as_str(), key.as_str()) {
            KeyOrder::Before => {
                p = p + 1;
            },
            KeyOrder::Same => {
                proof {
                    assert(before[p as int] == key@);
                }
                return ;
            },
            KeyOrder::After => {
                placed = true;
            },
        }
    }
    out.insert(p, key.clone());
    proof {
        let after = keys_of(out@);
        assert(after =~= before.insert(p as int, key@));
        assert forall|i: int, j: int| 0 <= i < j < after.len() implies key_lt(
            after[i],
            after[j],
        ) by {
            if j < p {
                assert(key_lt(before[i], before[j]));
            } else if j == p {
                assert(key_lt(before[i], key@));
            } else if i == p {
                if j - 1 > p {
                    assert(key_lt(before[p as int], before[j - 1]));
                    lemma_key_lt(key@, before[p as int], before[j - 1]);
                }
            } else if i < p {
                assert(key_lt(before[i], before[j - 1]));
            } else {
                assert(key_lt(before[i - 1], before[j - 1]));
            }
        }
        assert forall|k: Seq<char>| after.contains(k) <==> (before.contains(k) || k == key@) by {
            if before.contains(k) {
                let i = choose|i: int| 0 <= i < before.len() && before[i] == k;
                if i < p {
                    assert(after[i] == k);
                } else {
                    assert(after[i + 1] == k);
                }
            }
            if k == key@ {
                assert(after[p as int] == k);
            }
            if after.contains(k) {
                let i = choose|i: int| 0 <= i < after.len() && after[i] == k;
                if i < p {
                    assert(before[i] == k);
                } else if i > p {
                    assert(before[i - 1] == k);
                }
            }
        }
    }
}

/// The keys of `v`, each once, in ascending order.
pub fn sort_dedup(v: &Vec<String>) -> (out: Vec<String>)
    ensures
        ascending(keys_of(out@)),
        forall|k: Seq<char>| keys_of(out@).contains(k) <==> keys_of(v@).contains(k),
{
    let mut out: Vec<String> = Vec::new();
    let mut i: usize = 0;
    while i < v.len()
        invariant
            i <= v@.len(),
            ascending(keys_of(out@)),
            forall|k: Seq<char>|
                keys_of(out@).contains(k) <==> keys_of(v@).take(i as int).contains(k),
        decreases v.len() - i,
    {
        let ghost sofar = keys_of(out@);
        insert_key(&mut out, &v[i]);
        proof {
            let src = keys_of(v@);
            let head = src.take(i as int);
            let more = src.take(i + 1);
            assert forall|k: Seq<char>| keys_of(out@).contains(k) <==> more.contains(k) by {
                assert(sofar.contains(k) <==> head.contains(k));
                if head.contains(k) {
                    let j = choose|j: int| 0 <= j < head.len() && head[j] == k;
                    assert(more[j] == k);
                }
                if k == v@[i as int]@ {
                    assert(more[i as int] == k);
                }
                if more.contains(k) {
                    let j = choose|j: int| 0 <= j < more.len() && more[j] == k;
                    if j < i {
                        assert(head[j] == k);
                    }
                }
            }
        }
        i = i + 1;
    }
    assert(keys_of(v@).take(v@.len() as int) =~= keys_of(v@));
    out
}

} // verus!
