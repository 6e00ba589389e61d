use crate::key::{key_lt, Key};
use crate::level::{random_level, LEVELS, MAX_LEVEL};
use vstd::prelude::*;

verus! {

/// Arena index of the head sentinel.
pub const HEAD: usize = 0;

/// Arena index of the tail sentinel.
pub const TAIL: usize = 1;

/// One tower of the skip list: its key, its value (absent for sentinels and
/// for removed nodes) and one forward link per level, as arena indices.
pub struct Node<V> {
    pub key: Key,
    pub value: Option<V>,
    pub nexts: Vec<usize>,
}

/// A single-threaded skip list mapping `u64` keys to values.
///
/// Nodes live in an arena and link to each other by index. For each level
/// `l`, the ghost sequence `chains@[l]` lists, in order, the real nodes that
/// the level-`l` links reach from the head. A removed node stays in the arena,
/// unreachable, with its value taken out.
pub struct SkipList<V> {
    nodes: Vec<Node<V>>,
    chains: Ghost<Seq<Seq<int>>>,
    contents: Ghost<Map<u64, V>>,
}

/// The node that follows position `i` of a chain (`i == -1` is the head).
pub open spec fn next_in(c: Seq<int>, i: int) -> int {
    if i + 1 < c.len() {
        c[i + 1]
    } else {
        TAIL as int
    }
}

/// The node at position `i` of a chain, or the head for `i == -1`.
pub open spec fn node_at(c: Seq<int>, i: int) -> int {
    if i == -1 {
        HEAD as int
    } else {
        c[i]
    }
}

/// The real key of a node key, `0` for sentinels.
pub open spec fn key_value(k: Key) -> u64 {
    match k {
        Key::Entry(x) => x,
        _ => 0,
    }
}

/// Level `l` of the chains agrees with the links stored in the nodes.
pub open spec fn links_ok<V>(nodes: Seq<Node<V>>, c: Seq<int>, l: int) -> bool {
    &&& nodes[HEAD as int].nexts@[l] == next_in(c, -1)
    &&& forall|i: int|
        0 <= i < c.len() ==> {
            &&& 2 <= #[trigger] c[i] < nodes.len()
            &&& nodes[c[i]].nexts@.len() > l
            &&& nodes[c[i]].nexts@[l] == next_in(c, i)
            &&& nodes[c[i]].key is Entry
        }
}

/// The keys along a chain strictly increase.
pub open spec fn chain_sorted<V>(nodes: Seq<Node<V>>, c: Seq<int>) -> bool {
    forall|i: int, j: int|
        0 <= i < j < c.len() ==> key_lt(#[trigger] nodes[c[i]].key, #[trigger] nodes[c[j]].key)
}


/// `c` with `n` placed right after position `p` (`p == -1`: at the front).
pub open spec fn insert_after(c: Seq<int>, p: int, n: int) -> Seq<int> {
    Seq::new(
        (c.len() + 1) as nat,
        |i: int|
            if i <= p {
                c[i]
            } else if i == p + 1 {
                n
            } else {
                c[i - 1]
            },
    )
}

/// `c` without its element at position `q`.
pub open spec fn remove_at(c: Seq<int>, q: int) -> Seq<int> {
    Seq::new(
        (c.len() - 1) as nat,
        |i: int|
            if i < q {
                c[i]
            } else {
                c[i + 1]
            },
    )
}

proof fn lemma_insert_contains(c: Seq<int>, p: int, n: int, x: int)
    requires
        -1 <= p < c.len(),
    ensures
        insert_after(c, p, n).contains(x) <==> (x == n || c.contains(x)),
{
    let d = insert_after(c, p, n);
    if x == n {
        assert(d[p + 1] == n);
    } else if c.contains(x) {
        let i = choose|i: int| 0 <= i < c.len() && c[i] == x;
        if i <= p {
            assert(d[i] == x);
        } else {
            assert(d[i + 1] == x);
        }
    }
    if d.contains(x) && x != n {
        let i = choose|i: int| 0 <= i < d.len() && d[i] == x;
        if i <= p {
            assert(c[i] == x);
        } else {
            assert(c[i - 1] == x);
        }
    }
}

proof fn lemma_remove_contains(c: Seq<int>, q: int, x: int)
    requires
        0 <= q < c.len(),
        forall|i: int, j: int| 0 <= i < j < c.len() ==> c[i] != c[j],
    ensures
        remove_at(c, q).contains(x) <==> (x != c[q] && c.contains(x)),
{
    let d = remove_at(c, q);
    if x != c[q] && c.contains(x) {
        let i = choose|i: int| 0 <= i < c.len() && c[i] == x;
        if i < q {
            assert(d[i] == x);
        } else {
            assert(d[i - 1] == x);
        }
    }
    if d.contains(x) {
        let i = choose|i: int| 0 <= i < d.len() && d[i] == x;
        if i < q {
            assert(c[i] == x);
        } else {
            assert(c[i + 1] == x);
        }
    }
}

/// The state right after a fresh node was spliced in after the predecessors
/// that `find` reported for `key`.
spec fn spliced<V>(
    old: SkipList<V>,
    new: SkipList<V>,
    preds: Seq<usize>,
    succs: Seq<usize>,
    pos: Seq<int>,
    key: u64,
    v: V,
    top: usize,
) -> bool {
    &&& old.wf()
    &&& top <= MAX_LEVEL
    &&& !old@.contains_key(key)
    &&& preds.len() == LEVELS
    &&& succs.len() == LEVELS
    &&& pos.len() == LEVELS
    &&& forall|l: int|
                0 <= l < LEVELS ==> {
                    let c = old.chains@[l];
                    let p = #[trigger] pos[l];
                    &&& -1 <= p < c.len()
                    &&& preds[l] == node_at(c, p)
                    &&& succs[l] == next_in(c, p)
                    &&& key_lt(old.nodes@[preds[l] as int].key, Key::Entry(key))
                    &&& !key_lt(old.nodes@[succs[l] as int].key, Key::Entry(key))
                }
    &&& new.nodes@.len() == old.nodes@.len() + 1
    &&& new.nodes@[old.nodes@.len() as int].key == Key::Entry(key)
    &&& new.nodes@[old.nodes@.len() as int].value == Some(v)
    &&& new.nodes@[old.nodes@.len() as int].nexts@ == succs.subrange(0, top + 1)
    &&& forall|m: int|
                0 <= m < old.nodes@.len() ==> {
                    &&& (#[trigger] new.nodes@[m]).key == old.nodes@[m].key
                    &&& new.nodes@[m].value == old.nodes@[m].value
                    &&& new.nodes@[m].nexts@.len() == old.nodes@[m].nexts@.len()
                }
    &&& forall|m: int, j: int|
                0 <= m < old.nodes@.len() && 0 <= j < old.nodes@[m].nexts@.len()
                    ==> #[trigger] new.nodes@[m].nexts@[j] == if j <= top && m == preds[j] {
                    old.nodes@.len() as int
                } else {
                    old.nodes@[m].nexts@[j] as int
                }
    &&& new.chains@ == Seq::new(
                LEVELS as nat,
                |j: int|
                    if j <= top {
                        insert_after(old.chains@[j], pos[j], old.nodes@.len() as int)
                    } else {
                        old.chains@[j]
                    },
            )
    &&& new.contents@ == old.contents@.insert(key, v)
}

proof fn lemma_order_at<V>(nodes: Seq<Node<V>>, c: Seq<int>, l: int, p: int, t: Key)
    requires
        chain_sorted(nodes, c),
        links_ok(nodes, c, l),
        -1 <= p < c.len(),
        key_lt(nodes[node_at(c, p)].key, t),
        !key_lt(nodes[next_in(c, p)].key, t),
        forall|i: int| 0 <= i < c.len() ==> nodes[#[trigger] c[i]].key != t,
    ensures
        forall|i: int| 0 <= i < c.len() ==> (i <= p ==> key_lt(nodes[#[trigger] c[i]].key, t))
            && (i > p ==> key_lt(t, nodes[c[i]].key)),
{
    assert forall|i: int| 0 <= i < c.len() implies (i <= p ==> key_lt(nodes[#[trigger] c[i]].key, t))
        && (i > p ==> key_lt(t, nodes[c[i]].key)) by {
        if i < p {
            assert(key_lt(nodes[c[i]].key, nodes[c[p]].key));
        }
        if i > p + 1 {
            assert(key_lt(nodes[c[p + 1]].key, nodes[c[i]].key));
        }
    }
}

#[verifier::rlimit(100)]
#[verifier::spinoff_prover]
proof fn lemma_splice_order<V>(old: SkipList<V>, pos: Seq<int>, key: u64)
    requires
        old.wf(),
        !old@.contains_key(key),
        pos.len() == LEVELS,
        forall|l: int|
            0 <= l < LEVELS ==> {
                let c = old.chains@[l];
                let p = #[trigger] pos[l];
                &&& -1 <= p < c.len()
                &&& key_lt(old.nodes@[node_at(c, p)].key, Key::Entry(key))
                &&& !key_lt(old.nodes@[next_in(c, p)].key, Key::Entry(key))
            },
    ensures
        forall|l: int, i: int| 0 <= l < LEVELS && 0 <= i < old.chains@[l].len() ==> {
            &&& (i <= pos[l] ==> key_lt(old.nodes@[#[trigger] old.chains@[l][i]].key, Key::Entry(key)))
            &&& (i > pos[l] ==> key_lt(Key::Entry(key), old.nodes@[old.chains@[l][i]].key))
        },
{
    lemma_splice_facts(old, pos, key);
    assert forall|l: int, i: int| 0 <= l < LEVELS && 0 <= i < old.chains@[l].len() implies {
        &&& (i <= pos[l] ==> key_lt(old.nodes@[#[trigger] old.chains@[l][i]].key, Key::Entry(key)))
        &&& (i > pos[l] ==> key_lt(Key::Entry(key), old.nodes@[old.chains@[l][i]].key))
    } by {
        let c = old.chains@[l];
        assert(-1 <= pos[l]);
        assert(chain_sorted(old.nodes@, c));
        assert(links_ok(old.nodes@, c, l));
        assert forall|k: int| 0 <= k < c.len() implies old.nodes@[#[trigger] c[k]].key != Key::Entry(key) by {
            assert(2 <= old.chains@[l][k]);
        }
        lemma_order_at(old.nodes@, c, l, pos[l], Key::Entry(key));
    }
}

#[verifier::rlimit(100)]
#[verifier::spinoff_prover]
proof fn lemma_splice_facts<V>(old: SkipList<V>, pos: Seq<int>, key: u64)
    requires
        old.wf(),
        !old@.contains_key(key),
        pos.len() == LEVELS,
        forall|l: int|
            0 <= l < LEVELS ==> {
                let c = old.chains@[l];
                let p = #[trigger] pos[l];
                &&& -1 <= p < c.len()
                &&& key_lt(old.nodes@[node_at(c, p)].key, Key::Entry(key))
                &&& !key_lt(old.nodes@[next_in(c, p)].key, Key::Entry(key))
            },
    ensures
        forall|l: int, i: int| 0 <= l < LEVELS && 0 <= i < old.chains@[l].len() ==> {
            &&& 2 <= #[trigger] old.chains@[l][i] < old.nodes@.len()
            &&& old.nodes@[old.chains@[l][i]].key != Key::Entry(key)
            &&& old.nodes@[old.chains@[l][i]].nexts@.len() > l
        },
{
    let on = old.nodes@;
    let n = on.len() as int;
    let och = old.chains@;
    let t = Key::Entry(key);
    // Every old chain element is a real node below `n` whose key differs from `t`.
    assert forall|l: int, i: int| 0 <= l < LEVELS && 0 <= i < och[l].len() implies {
        &&& 2 <= #[trigger] och[l][i] < n
        &&& on[och[l][i]].key != t
        &&& on[och[l][i]].nexts@.len() > l
    } by {
        assert(links_ok(on, och[l], l));
        assert(och[0].contains(och[l][i]));
        let i0 = choose|i0: int| 0 <= i0 < och[0].len() && och[0][i0] == och[l][i];
        assert(old.contents@.contains_key(key_value(on[och[0][i0]].key)));
        assert(links_ok(on, och[0], 0));
    }
}

#[verifier::rlimit(100)]
#[verifier::spinoff_prover]
proof fn lemma_splice_links_at<V>(
    old: SkipList<V>,
    new: SkipList<V>,
    preds: Seq<usize>,
    succs: Seq<usize>,
    pos: Seq<int>,
    key: u64,
    v: V,
    top: usize,
    l: int,
)
    requires
        spliced(old, new, preds, succs, pos, key, v, top),
        0 <= l < LEVELS,
    ensures
        links_ok(new.nodes@, new.chains@[l], l),
{
    let on = old.nodes@;
    let nn = new.nodes@;
    let n = on.len() as int;
    let och = old.chains@;
    let nch = new.chains@;
    let t = Key::Entry(key);
    lemma_splice_facts(old, pos, key);
    lemma_splice_order(old, pos, key);
    let c = och[l];
    let p = pos[l];
    assert(links_ok(on, c, l));
    assert(chain_sorted(on, c));
    if l <= top {
        let d = nch[l];
        assert(d == insert_after(c, p, n));
        assert forall|i: int| 0 <= i < d.len() implies {
            &&& 2 <= #[trigger] d[i] < nn.len()
            &&& nn[d[i]].nexts@.len() > l
            &&& nn[d[i]].nexts@[l] == next_in(d, i)
            &&& nn[d[i]].key is Entry
        } by {
            if i < p {
                assert(key_lt(on[c[i]].key, on[c[p]].key));
                assert(c[i] != preds[l]);
            } else if i == p {
            } else if i == p + 1 {
            } else {
                assert(key_lt(on[c[p]].key, on[c[i - 1]].key) || p == -1);
                assert(c[i - 1] != preds[l]);
            }
        }
    } else {
        assert forall|i: int| 0 <= i < c.len() implies {
            &&& 2 <= #[trigger] c[i] < nn.len()
            &&& nn[c[i]].nexts@.len() > l
            &&& nn[c[i]].nexts@[l] == next_in(c, i)
            &&& nn[c[i]].key is Entry
        } by {}
    }
}

#[verifier::rlimit(100)]
#[verifier::spinoff_prover]
proof fn lemma_splice_links<V>(
    old: SkipList<V>,
    new: SkipList<V>,
    preds: Seq<usize>,
    succs: Seq<usize>,
    pos: Seq<int>,
    key: u64,
    v: V,
    top: usize,
)
    requires
        spliced(old, new, preds, succs, pos, key, v, top),
    ensures
        forall|l: int| 0 <= l < LEVELS ==> links_ok(new.nodes@, #[trigger] new.chains@[l], l),
{
    assert forall|l: int| 0 <= l < LEVELS implies links_ok(new.nodes@, #[trigger] new.chains@[l], l) by {
        lemma_splice_links_at(old, new, preds, succs, pos, key, v, top, l);
    }
}

#[verifier::rlimit(100)]
#[verifier::spinoff_prover]
proof fn lemma_splice_sorted<V>(
    old: SkipList<V>,
    new: SkipList<V>,
    preds: Seq<usize>,
    succs: Seq<usize>,
    pos: Seq<int>,
    key: u64,
    v: V,
    top: usize,
)
    requires
        spliced(old, new, preds, succs, pos, key, v, top),
    ensures
        forall|l: int| 0 <= l < LEVELS ==> chain_sorted(new.nodes@, #[trigger] new.chains@[l]),
{
    let on = old.nodes@;
    let nn = new.nodes@;
    let n = on.len() as int;
    let och = old.chains@;
    let nch = new.chains@;
    let t = Key::Entry(key);
    lemma_splice_facts(old, pos, key);
    lemma_splice_order(old, pos, key);
    assert forall|l: int| 0 <= l < LEVELS implies chain_sorted(nn, #[trigger] nch[l]) by {
        let c = och[l];
        let p = pos[l];
        assert(chain_sorted(on, c));
        if l <= top {
            let d = nch[l];
            assert forall|i: int, j: int| 0 <= i < j < d.len() implies key_lt(
                #[trigger] nn[d[i]].key,
                #[trigger] nn[d[j]].key,
            ) by {
                if j <= p {
                } else if i <= p && j == p + 1 {
                } else if i <= p {
                    assert(key_lt(on[c[i]].key, t));
                    assert(key_lt(t, on[c[j - 1]].key));
                } else if i == p + 1 {
                    assert(key_lt(t, on[c[j - 1]].key));
                } else {
                    assert(key_lt(on[c[i - 1]].key, on[c[j - 1]].key));
                }
            }
        }
    }
}

#[verifier::rlimit(100)]
#[verifier::spinoff_prover]
proof fn lemma_splice_subset<V>(
    old: SkipList<V>,
    new: SkipList<V>,
    preds: Seq<usize>,
    succs: Seq<usize>,
    pos: Seq<int>,
    key: u64,
    v: V,
    top: usize,
)
    requires
        spliced(old, new, preds, succs, pos, key, v, top),
    ensures
        forall|l: int, i: int|
            0 <= l < LEVELS && 0 <= i < new.chains@[l].len() ==> new.chains@[0].contains(
                #[trigger] new.chains@[l][i],
            ),
{
    let on = old.nodes@;
    let nn = new.nodes@;
    let n = on.len() as int;
    let och = old.chains@;
    let nch = new.chains@;
    let t = Key::Entry(key);
    lemma_splice_facts(old, pos, key);
    lemma_splice_order(old, pos, key);
    assert forall|l: int, i: int| 0 <= l < LEVELS && 0 <= i < nch[l].len() implies nch[0].contains(
        #[trigger] nch[l][i],
    ) by {
        if l <= top {
            lemma_insert_contains(och[l], pos[l], n, nch[l][i]);
            assert(nch[l] == insert_after(och[l], pos[l], n));
        }
        lemma_insert_contains(och[0], pos[0], n, nch[l][i]);
        if nch[l][i] != n {
            if l > top {
                assert(och[0].contains(och[l][i]));
            } else {
                assert(och[l].contains(nch[l][i]));
                let k = choose|k: int| 0 <= k < och[l].len() && och[l][k] == nch[l][i];
                assert(och[0].contains(och[l][k]));
            }
        }
    }
}

#[verifier::rlimit(100)]
#[verifier::spinoff_prover]
proof fn lemma_splice_nodes<V>(
    old: SkipList<V>,
    new: SkipList<V>,
    preds: Seq<usize>,
    succs: Seq<usize>,
    pos: Seq<int>,
    key: u64,
    v: V,
    top: usize,
)
    requires
        spliced(old, new, preds, succs, pos, key, v, top),
    ensures
        forall|i: int|
            0 <= i < new.chains@[0].len() ==> {
                &&& 1 <= #[trigger] new.nodes@[new.chains@[0][i]].nexts@.len() <= LEVELS
                &&& new.nodes@[new.chains@[0][i]].value is Some
                &&& new.contents@.contains_key(key_value(new.nodes@[new.chains@[0][i]].key))
                &&& new.contents@[key_value(new.nodes@[new.chains@[0][i]].key)]
                    == new.nodes@[new.chains@[0][i]].value->0
            },
{
    let on = old.nodes@;
    let nn = new.nodes@;
    let n = on.len() as int;
    let och = old.chains@;
    let nch = new.chains@;
    let t = Key::Entry(key);
    lemma_splice_facts(old, pos, key);
    lemma_splice_order(old, pos, key);
    assert forall|i: int| 0 <= i < nch[0].len() implies {
        &&& 1 <= #[trigger] nn[nch[0][i]].nexts@.len() <= LEVELS
        &&& nn[nch[0][i]].value is Some
        &&& new.contents@.contains_key(key_value(nn[nch[0][i]].key))
        &&& new.contents@[key_value(nn[nch[0][i]].key)] == nn[nch[0][i]].value->0
    } by {
        let p = pos[0];
        if i <= p {
            assert(on[och[0][i]].key != t);
        } else if i > p + 1 {
            assert(on[och[0][i - 1]].key != t);
        }
    }
}

#[verifier::rlimit(100)]
#[verifier::spinoff_prover]
proof fn lemma_splice_tower<V>(
    old: SkipList<V>,
    new: SkipList<V>,
    preds: Seq<usize>,
    succs: Seq<usize>,
    pos: Seq<int>,
    key: u64,
    v: V,
    top: usize,
)
    requires
        spliced(old, new, preds, succs, pos, key, v, top),
    ensures
        forall|i: int, l: int|
            0 <= i < new.chains@[0].len() && 0 <= l < LEVELS ==> (
            #[trigger] new.chains@[l].contains(new.chains@[0][i]) <==> l
                < new.nodes@[new.chains@[0][i]].nexts@.len()),
{
    let on = old.nodes@;
    let nn = new.nodes@;
    let n = on.len() as int;
    let och = old.chains@;
    let nch = new.chains@;
    let t = Key::Entry(key);
    lemma_splice_facts(old, pos, key);
    lemma_splice_order(old, pos, key);
    assert forall|i: int, l: int| 0 <= i < nch[0].len() && 0 <= l < LEVELS implies (
    #[trigger] nch[l].contains(nch[0][i]) <==> l < nn[nch[0][i]].nexts@.len()) by {
        let x = nch[0][i];
        lemma_insert_contains(och[0], pos[0], n, x);
        if l <= top {
            lemma_insert_contains(och[l], pos[l], n, x);
        }
        if x != n {
            let i0 = choose|i0: int| 0 <= i0 < och[0].len() && och[0][i0] == x;
            assert(och[l].contains(och[0][i0]) <==> l < on[och[0][i0]].nexts@.len());
        } else {
            if nch[l].contains(x) && l > top {
                let k = choose|k: int| 0 <= k < och[l].len() && och[l][k] == x;
                assert(och[l][k] < n);
            }
        }
    }
}

#[verifier::rlimit(100)]
#[verifier::spinoff_prover]
proof fn lemma_splice_contents<V>(
    old: SkipList<V>,
    new: SkipList<V>,
    preds: Seq<usize>,
    succs: Seq<usize>,
    pos: Seq<int>,
    key: u64,
    v: V,
    top: usize,
)
    requires
        spliced(old, new, preds, succs, pos, key, v, top),
    ensures
        forall|k: u64|
            #[trigger] new.contents@.contains_key(k) ==> exists|i: int|
                0 <= i < new.chains@[0].len() && #[trigger] new.nodes@[new.chains@[0][i]].key
                    == Key::Entry(k),
{
    let on = old.nodes@;
    let nn = new.nodes@;
    let n = on.len() as int;
    let och = old.chains@;
    let nch = new.chains@;
    let t = Key::Entry(key);
    lemma_splice_facts(old, pos, key);
    lemma_splice_order(old, pos, key);
    assert forall|k: u64| #[trigger] new.contents@.contains_key(k) implies exists|i: int|
        0 <= i < nch[0].len() && #[trigger] nn[nch[0][i]].key == Key::Entry(k) by {
        let p = pos[0];
        if k == key {
            assert(nn[nch[0][p + 1]].key == Key::Entry(k));
        } else {
            let i = choose|i: int| 0 <= i < och[0].len() && #[trigger] on[och[0][i]].key == Key::Entry(k);
            if i <= p {
                assert(nn[nch[0][i]].key == Key::Entry(k));
            } else {
                assert(nn[nch[0][i + 1]].key == Key::Entry(k));
            }
        }
    }
}

/// Splicing a fresh node after the predecessors that `find` reported keeps
/// the structure well formed.
#[verifier::rlimit(100)]
#[verifier::spinoff_prover]
proof fn lemma_insert_wf<V>(
    old: SkipList<V>,
    new: SkipList<V>,
    preds: Seq<usize>,
    succs: Seq<usize>,
    pos: Seq<int>,
    key: u64,
    v: V,
    top: usize,
)
    requires
        spliced(old, new, preds, succs, pos, key, v, top),
    ensures
        new.wf(),
{
    lemma_splice_links(old, new, preds, succs, pos, key, v, top);
    lemma_splice_sorted(old, new, preds, succs, pos, key, v, top);
    lemma_splice_subset(old, new, preds, succs, pos, key, v, top);
    lemma_splice_nodes(old, new, preds, succs, pos, key, v, top);
    lemma_splice_tower(old, new, preds, succs, pos, key, v, top);
    lemma_splice_contents(old, new, preds, succs, pos, key, v, top);
}

/// The state right after the node `victim`, of height `h`, holding `key`,
/// was unlinked from the predecessors that `find` reported.
spec fn unspliced<V>(
    old: SkipList<V>,
    new: SkipList<V>,
    preds: Seq<usize>,
    pos: Seq<int>,
    key: u64,
    victim: int,
    h: int,
) -> bool {
    &&& old.wf()
    &&& old@.contains_key(key)
    &&& preds.len() == LEVELS
    &&& pos.len() == LEVELS
    &&& forall|l: int|
        0 <= l < LEVELS ==> {
            let c = old.chains@[l];
            let p = #[trigger] pos[l];
            &&& -1 <= p < c.len()
            &&& preds[l] == node_at(c, p)
            &&& key_lt(old.nodes@[preds[l] as int].key, Key::Entry(key))
            &&& !key_lt(old.nodes@[next_in(c, p)].key, Key::Entry(key))
        }
    &&& victim == next_in(old.chains@[0], pos[0])
    &&& old.nodes@[victim].key == Key::Entry(key)
    &&& h == old.nodes@[victim].nexts@.len()
    &&& new.nodes@.len() == old.nodes@.len()
    &&& forall|m: int|
        0 <= m < old.nodes@.len() ==> {
            &&& (#[trigger] new.nodes@[m]).key == old.nodes@[m].key
            &&& (m != victim ==> new.nodes@[m].value == old.nodes@[m].value)
            &&& new.nodes@[m].nexts@.len() == old.nodes@[m].nexts@.len()
        }
    &&& forall|m: int, j: int|
        0 <= m < old.nodes@.len() && 0 <= j < old.nodes@[m].nexts@.len()
            ==> #[trigger] new.nodes@[m].nexts@[j] == if j < h && m == preds[j] {
            old.nodes@[victim].nexts@[j] as int
        } else {
            old.nodes@[m].nexts@[j] as int
        }
    &&& new.chains@ == Seq::new(
        LEVELS as nat,
        |j: int|
            if j < h {
                remove_at(old.chains@[j], pos[j] + 1)
            } else {
                old.chains@[j]
            },
    )
    &&& new.contents@ == old.contents@.remove(key)
}

#[verifier::rlimit(100)]
#[verifier::spinoff_prover]
proof fn lemma_unsplice_facts<V>(old: SkipList<V>, pos: Seq<int>, key: u64, victim: int, h: int)
    requires
        old.wf(),
        pos.len() == LEVELS,
        forall|l: int|
            0 <= l < LEVELS ==> {
                let c = old.chains@[l];
                let p = #[trigger] pos[l];
                &&& -1 <= p < c.len()
                &&& key_lt(old.nodes@[node_at(c, p)].key, Key::Entry(key))
                &&& !key_lt(old.nodes@[next_in(c, p)].key, Key::Entry(key))
            },
        victim == next_in(old.chains@[0], pos[0]),
        old.nodes@[victim].key == Key::Entry(key),
        h == old.nodes@[victim].nexts@.len(),
    ensures
        1 <= h <= LEVELS,
        2 <= victim < old.nodes@.len(),
        forall|l: int| 0 <= l < LEVELS ==> (#[trigger] old.chains@[l].contains(victim) <==> l < h),
        forall|l: int| 0 <= l < h ==> pos[l] + 1 < (#[trigger] old.chains@[l]).len()
            && old.chains@[l][pos[l] + 1] == victim,
        forall|l: int, i: int, j: int| 0 <= l < LEVELS && 0 <= i < j < old.chains@[l].len()
            ==> #[trigger] old.chains@[l][i] != #[trigger] old.chains@[l][j],
        forall|l: int, i: int| 0 <= l < LEVELS && 0 <= i < old.chains@[l].len()
            ==> 2 <= #[trigger] old.chains@[l][i] < old.nodes@.len()
            && (old.chains@[l][i] != victim ==> old.nodes@[old.chains@[l][i]].key != Key::Entry(key)),
{
    let on = old.nodes@;
    let och = old.chains@;
    assert(-1 <= pos[0]);
    assert(links_ok(on, och[0], 0));
    assert(pos[0] + 1 < och[0].len());
    assert(och[0][pos[0] + 1] == victim);
    assert forall|l: int| 0 <= l < LEVELS implies (#[trigger] och[l].contains(victim) <==> l < h) by {
        assert(och[l].contains(och[0][pos[0] + 1]) <==> l < on[och[0][pos[0] + 1]].nexts@.len());
    }
    assert forall|l: int| 0 <= l < h implies pos[l] + 1 < (#[trigger] och[l]).len()
        && och[l][pos[l] + 1] == victim by {
        assert(och[l].contains(victim));
        let i = choose|i: int| 0 <= i < och[l].len() && och[l][i] == victim;
        assert(-1 <= pos[l]);
        old.lemma_locate(l, pos[l], Key::Entry(key), i);
    }
    assert forall|l: int, i: int, j: int| 0 <= l < LEVELS && 0 <= i < j < och[l].len()
        implies #[trigger] och[l][i] != #[trigger] och[l][j] by {
        assert(chain_sorted(on, och[l]));
        assert(key_lt(on[och[l][i]].key, on[och[l][j]].key));
    }
    assert forall|l: int, i: int| 0 <= l < LEVELS && 0 <= i < och[l].len()
        implies 2 <= #[trigger] och[l][i] < on.len()
            && (och[l][i] != victim ==> on[och[l][i]].key != Key::Entry(key)) by {
        assert(links_ok(on, och[l], l));
        assert(och[0].contains(och[l][i]));
        let i0 = choose|i0: int| 0 <= i0 < och[0].len() && och[0][i0] == och[l][i];
        assert(chain_sorted(on, och[0]));
        if och[l][i] != victim && on[och[l][i]].key == Key::Entry(key) {
            if i0 < pos[0] + 1 {
                assert(key_lt(on[och[0][i0]].key, on[och[0][pos[0] + 1]].key));
            } else {
                assert(key_lt(on[och[0][pos[0] + 1]].key, on[och[0][i0]].key));
            }
        }
    }
}

proof fn lemma_unlink_level<V>(on: Seq<Node<V>>, nn: Seq<Node<V>>, c: Seq<int>, l: int, p: int)
    requires
        links_ok(on, c, l),
        -1 <= p,
        p + 1 < c.len(),
        forall|i: int, j: int| 0 <= i < j < c.len() ==> #[trigger] c[i] != #[trigger] c[j],
        on.len() == nn.len(),
        on[HEAD as int].nexts@.len() > l,
        forall|m: int|
            0 <= m < on.len() ==> {
                &&& (#[trigger] nn[m]).key == on[m].key
                &&& nn[m].nexts@.len() == on[m].nexts@.len()
                &&& (on[m].nexts@.len() > l ==> nn[m].nexts@[l] == if m == node_at(c, p) {
                    on[c[p + 1]].nexts@[l]
                } else {
                    on[m].nexts@[l]
                })
            },
    ensures
        links_ok(nn, remove_at(c, p + 1), l),
{
    let d = remove_at(c, p + 1);
    assert(nn[HEAD as int].key == on[HEAD as int].key);
    if p >= 0 {
        assert(c[p] != HEAD);
    }
    assert forall|i: int| 0 <= i < d.len() implies {
        &&& 2 <= #[trigger] d[i] < nn.len()
        &&& nn[d[i]].nexts@.len() > l
        &&& nn[d[i]].nexts@[l] == next_in(d, i)
        &&& nn[d[i]].key is Entry
    } by {
        if i < p {
            assert(c[i] != c[p]);
        } else if i > p && p >= 0 {
            assert(c[i + 1] != c[p]);
        }
        let i1 = if i <= p { i } else { i + 1 };
        assert(nn[c[i1]].key == on[c[i1]].key);
    }
}

proof fn lemma_level_unchanged<V>(on: Seq<Node<V>>, nn: Seq<Node<V>>, c: Seq<int>, l: int)
    requires
        links_ok(on, c, l),
        on.len() == nn.len(),
        on.len() >= 2,
        on[HEAD as int].nexts@.len() > l,
        forall|m: int|
            0 <= m < on.len() ==> {
                &&& (#[trigger] nn[m]).key == on[m].key
                &&& nn[m].nexts@.len() == on[m].nexts@.len()
                &&& (on[m].nexts@.len() > l ==> nn[m].nexts@[l] == on[m].nexts@[l])
            },
    ensures
        links_ok(nn, c, l),
{
    assert(nn[HEAD as int].key == on[HEAD as int].key);
    assert forall|i: int| 0 <= i < c.len() implies {
        &&& 2 <= #[trigger] c[i] < nn.len()
        &&& nn[c[i]].nexts@.len() > l
        &&& nn[c[i]].nexts@[l] == next_in(c, i)
        &&& nn[c[i]].key is Entry
    } by {
        assert(nn[c[i]].key == on[c[i]].key);
    }
}

#[verifier::rlimit(100)]
#[verifier::spinoff_prover]
proof fn lemma_unsplice_links_at<V>(
    old: SkipList<V>,
    new: SkipList<V>,
    preds: Seq<usize>,
    pos: Seq<int>,
    key: u64,
    victim: int,
    h: int,
    l: int,
)
    requires
        unspliced(old, new, preds, pos, key, victim, h),
        0 <= l < LEVELS,
    ensures
        links_ok(new.nodes@, new.chains@[l], l),
{
    let on = old.nodes@;
    let nn = new.nodes@;
    let och = old.chains@;
    lemma_unsplice_facts(old, pos, key, victim, h);
    assert(links_ok(on, och[l], l));
    assert(-1 <= pos[l]);
    if l < h {
        assert forall|m: int| 0 <= m < on.len() implies {
            &&& (#[trigger] nn[m]).key == on[m].key
            &&& nn[m].nexts@.len() == on[m].nexts@.len()
            &&& (on[m].nexts@.len() > l ==> nn[m].nexts@[l] == if m == node_at(och[l], pos[l]) {
                on[och[l][pos[l] + 1]].nexts@[l]
            } else {
                on[m].nexts@[l]
            })
        } by {
            if on[m].nexts@.len() > l {
                assert(nn[m].nexts@[l] == on[m].nexts@[l] || m == preds[l]);
            }
        }
        lemma_unlink_level(on, nn, och[l], l, pos[l]);
    } else {
        assert forall|m: int| 0 <= m < on.len() implies {
            &&& (#[trigger] nn[m]).key == on[m].key
            &&& nn[m].nexts@.len() == on[m].nexts@.len()
            &&& (on[m].nexts@.len() > l ==> nn[m].nexts@[l] == on[m].nexts@[l])
        } by {
            if on[m].nexts@.len() > l {
                assert(nn[m].nexts@[l] == on[m].nexts@[l]);
            }
        }
        lemma_level_unchanged(on, nn, och[l], l);
    }
}


#[verifier::rlimit(100)]
#[verifier::spinoff_prover]
proof fn lemma_unsplice_links<V>(
    old: SkipList<V>,
    new: SkipList<V>,
    preds: Seq<usize>,
    pos: Seq<int>,
    key: u64,
    victim: int,
    h: int,
)
    requires
        unspliced(old, new, preds, pos, key, victim, h),
    ensures
        forall|l: int| 0 <= l < LEVELS ==> links_ok(new.nodes@, #[trigger] new.chains@[l], l),
{
    let on = old.nodes@;
    let nn = new.nodes@;
    let och = old.chains@;
    let nch = new.chains@;
    lemma_unsplice_facts(old, pos, key, victim, h);
    assert forall|l: int| 0 <= l < LEVELS implies links_ok(new.nodes@, #[trigger] new.chains@[l], l) by {
        lemma_unsplice_links_at(old, new, preds, pos, key, victim, h, l);
    }
}

#[verifier::rlimit(100)]
#[verifier::spinoff_prover]
proof fn lemma_unsplice_sorted<V>(
    old: SkipList<V>,
    new: SkipList<V>,
    preds: Seq<usize>,
    pos: Seq<int>,
    key: u64,
    victim: int,
    h: int,
)
    requires
        unspliced(old, new, preds, pos, key, victim, h),
    ensures
        forall|l: int| 0 <= l < LEVELS ==> chain_sorted(new.nodes@, #[trigger] new.chains@[l]),
{
    let on = old.nodes@;
    let nn = new.nodes@;
    let och = old.chains@;
    let nch = new.chains@;
    lemma_unsplice_facts(old, pos, key, victim, h);
    assert forall|l: int| 0 <= l < LEVELS implies chain_sorted(nn, #[trigger] nch[l]) by {
        let c = och[l];
        let q = pos[l] + 1;
        assert(chain_sorted(on, c));
        if l < h {
            let d = nch[l];
            assert forall|i: int, j: int| 0 <= i < j < d.len() implies key_lt(
                #[trigger] nn[d[i]].key,
                #[trigger] nn[d[j]].key,
            ) by {
                let i1 = if i < q { i } else { i + 1 };
                let j1 = if j < q { j } else { j + 1 };
                assert(key_lt(on[c[i1]].key, on[c[j1]].key));
            }
        }
    }
}

#[verifier::rlimit(100)]
#[verifier::spinoff_prover]
proof fn lemma_unsplice_subset<V>(
    old: SkipList<V>,
    new: SkipList<V>,
    preds: Seq<usize>,
    pos: Seq<int>,
    key: u64,
    victim: int,
    h: int,
)
    requires
        unspliced(old, new, preds, pos, key, victim, h),
    ensures
        forall|l: int, i: int|
            0 <= l < LEVELS && 0 <= i < new.chains@[l].len() ==> new.chains@[0].contains(
                #[trigger] new.chains@[l][i],
            ),
{
    let on = old.nodes@;
    let nn = new.nodes@;
    let och = old.chains@;
    let nch = new.chains@;
    lemma_unsplice_facts(old, pos, key, victim, h);
    assert forall|l: int, i: int| 0 <= l < LEVELS && 0 <= i < nch[l].len() implies nch[0].contains(
        #[trigger] nch[l][i],
    ) by {
        let x = nch[l][i];
        lemma_remove_contains(och[0], pos[0] + 1, x);
        if l < h {
            lemma_remove_contains(och[l], pos[l] + 1, x);
            assert(nch[l] == remove_at(och[l], pos[l] + 1));
            assert(och[l].contains(x));
            let k = choose|k: int| 0 <= k < och[l].len() && och[l][k] == x;
            assert(och[0].contains(och[l][k]));
        } else {
            assert(och[0].contains(och[l][i]));
            assert(!och[l].contains(victim));
        }
    }
}

#[verifier::rlimit(100)]
#[verifier::spinoff_prover]
proof fn lemma_unsplice_nodes<V>(
    old: SkipList<V>,
    new: SkipList<V>,
    preds: Seq<usize>,
    pos: Seq<int>,
    key: u64,
    victim: int,
    h: int,
)
    requires
        unspliced(old, new, preds, pos, key, victim, h),
    ensures
        forall|i: int|
            0 <= i < new.chains@[0].len() ==> {
                &&& 1 <= #[trigger] new.nodes@[new.chains@[0][i]].nexts@.len() <= LEVELS
                &&& new.nodes@[new.chains@[0][i]].value is Some
                &&& new.contents@.contains_key(key_value(new.nodes@[new.chains@[0][i]].key))
                &&& new.contents@[key_value(new.nodes@[new.chains@[0][i]].key)]
                    == new.nodes@[new.chains@[0][i]].value->0
            },
{
    let on = old.nodes@;
    let nn = new.nodes@;
    let och = old.chains@;
    let nch = new.chains@;
    lemma_unsplice_facts(old, pos, key, victim, h);
    assert forall|i: int| 0 <= i < nch[0].len() implies {
        &&& 1 <= #[trigger] nn[nch[0][i]].nexts@.len() <= LEVELS
        &&& nn[nch[0][i]].value is Some
        &&& new.contents@.contains_key(key_value(nn[nch[0][i]].key))
        &&& new.contents@[key_value(nn[nch[0][i]].key)] == nn[nch[0][i]].value->0
    } by {
        let q = pos[0] + 1;
        let i1 = if i < q { i } else { i + 1 };
        assert(och[0][i1] != och[0][q]);
        assert(on[och[0][i1]].key != Key::Entry(key));
        assert(links_ok(on, och[0], 0));
    }
}

#[verifier::rlimit(100)]
#[verifier::spinoff_prover]
proof fn lemma_unsplice_tower<V>(
    old: SkipList<V>,
    new: SkipList<V>,
    preds: Seq<usize>,
    pos: Seq<int>,
    key: u64,
    victim: int,
    h: int,
)
    requires
        unspliced(old, new, preds, pos, key, victim, h),
    ensures
        forall|i: int, l: int|
            0 <= i < new.chains@[0].len() && 0 <= l < LEVELS ==> (
            #[trigger] new.chains@[l].contains(new.chains@[0][i]) <==> l
                < new.nodes@[new.chains@[0][i]].nexts@.len()),
{
    let on = old.nodes@;
    let nn = new.nodes@;
    let och = old.chains@;
    let nch = new.chains@;
    lemma_unsplice_facts(old, pos, key, victim, h);
    assert forall|i: int, l: int| 0 <= i < nch[0].len() && 0 <= l < LEVELS implies (
    #[trigger] nch[l].contains(nch[0][i]) <==> l < nn[nch[0][i]].nexts@.len()) by {
        let q = pos[0] + 1;
        let i1 = if i < q { i } else { i + 1 };
        let x = och[0][i1];
        assert(x != och[0][q]);
        assert(nch[0][i] == x);
        if l < h {
            lemma_remove_contains(och[l], pos[l] + 1, x);
        }
        assert(och[l].contains(och[0][i1]) <==> l < on[och[0][i1]].nexts@.len());
    }
}

#[verifier::rlimit(100)]
#[verifier::spinoff_prover]
proof fn lemma_unsplice_contents<V>(
    old: SkipList<V>,
    new: SkipList<V>,
    preds: Seq<usize>,
    pos: Seq<int>,
    key: u64,
    victim: int,
    h: int,
)
    requires
        unspliced(old, new, preds, pos, key, victim, h),
    ensures
        forall|k: u64|
            #[trigger] new.contents@.contains_key(k) ==> exists|i: int|
                0 <= i < new.chains@[0].len() && #[trigger] new.nodes@[new.chains@[0][i]].key
                    == Key::Entry(k),
{
    let on = old.nodes@;
    let nn = new.nodes@;
    let och = old.chains@;
    let nch = new.chains@;
    lemma_unsplice_facts(old, pos, key, victim, h);
    assert forall|k: u64| #[trigger] new.contents@.contains_key(k) implies exists|i: int|
        0 <= i < nch[0].len() && #[trigger] nn[nch[0][i]].key == Key::Entry(k) by {
        let q = pos[0] + 1;
        let i = choose|i: int| 0 <= i < och[0].len() && #[trigger] on[och[0][i]].key == Key::Entry(k);
        assert(i != q);
        if i < q {
            assert(nn[nch[0][i]].key == Key::Entry(k));
        } else {
            assert(nn[nch[0][i - 1]].key == Key::Entry(k));
        }
    }
}

/// Unlinking the node that holds `key` from every level it stands on keeps
/// the structure well formed.
#[verifier::rlimit(100)]
#[verifier::spinoff_prover]
proof fn lemma_remove_wf<V>(
    old: SkipList<V>,
    new: SkipList<V>,
    preds: Seq<usize>,
    pos: Seq<int>,
    key: u64,
    victim: int,
    h: int,
)
    requires
        unspliced(old, new, preds, pos, key, victim, h),
    ensures
        new.wf(),
{
    lemma_unsplice_links(old, new, preds, pos, key, victim, h);
    lemma_unsplice_sorted(old, new, preds, pos, key, victim, h);
    lemma_unsplice_subset(old, new, preds, pos, key, victim, h);
    lemma_unsplice_nodes(old, new, preds, pos, key, victim, h);
    lemma_unsplice_tower(old, new, preds, pos, key, victim, h);
    lemma_unsplice_contents(old, new, preds, pos, key, victim, h);
}

/// The map after adding `k` with `v`: a held key keeps its value.
pub open spec fn after_add<V>(m: Map<u64, V>, k: u64, v: V) -> Map<u64, V> {
    if m.contains_key(k) {
        m
    } else {
        m.insert(k, v)
    }
}

/// Adding a key twice: the first add inserts, the second reports the key as
/// present and leaves the first value in place.
pub proof fn lemma_add_twice_keeps_first<V>(m: Map<u64, V>, k: u64, v1: V, v2: V)
    requires
        !m.contains_key(k),
    ensures
        after_add(m, k, v1).contains_key(k),
        after_add(after_add(m, k, v1), k, v2) == after_add(m, k, v1),
        after_add(after_add(m, k, v1), k, v2)[k] == v1,
{
}

impl<V> SkipList<V> {
    /// The map from keys to values that the list holds.
    pub closed spec fn view(&self) -> Map<u64, V> {
        self.contents@
    }

    /// The arena indices of the live nodes reached along level `l`, in order.
    pub closed spec fn level_nodes(&self, l: int) -> Seq<int> {
        self.chains@[l]
    }

    /// The keys met along level `l`, in order.
    pub closed spec fn level_keys(&self, l: int) -> Seq<Key> {
        self.chains@[l].map_values(|n: int| self.nodes@[n].key)
    }

    /// The highest level at which node `n` has a forward link.
    pub closed spec fn top_level(&self, n: int) -> int {
        self.nodes@[n].nexts@.len() - 1
    }

    /// The key stored in node `n`.
    pub closed spec fn node_key(&self, n: int) -> Key {
        self.nodes@[n].key
    }

    /// The head's link at level `l` goes straight to the tail.
    pub closed spec fn level_is_empty(&self, l: int) -> bool {
        &&& self.chains@[l].len() == 0
        &&& self.nodes@[HEAD as int].nexts@[l] == TAIL
    }

    /// The structural invariant of the list.
    pub closed spec fn wf(&self) -> bool {
        let nodes = self.nodes@;
        let ch = self.chains@;
        &&& nodes.len() >= 2
        &&& nodes[HEAD as int].key == Key::Head
        &&& nodes[HEAD as int].nexts@.len() == LEVELS
        &&& nodes[TAIL as int].key == Key::Tail
        &&& ch.len() == LEVELS
        &&& forall|l: int| 0 <= l < LEVELS ==> links_ok(nodes, #[trigger] ch[l], l)
        &&& forall|l: int| 0 <= l < LEVELS ==> chain_sorted(nodes, #[trigger] ch[l])
        &&& forall|l: int, i: int|
            0 <= l < LEVELS && 0 <= i < ch[l].len() ==> ch[0].contains(#[trigger] ch[l][i])
        &&& forall|i: int|
            0 <= i < ch[0].len() ==> {
                &&& 1 <= #[trigger] nodes[ch[0][i]].nexts@.len() <= LEVELS
                &&& nodes[ch[0][i]].value is Some
                &&& self.contents@.contains_key(key_value(nodes[ch[0][i]].key))
                &&& self.contents@[key_value(nodes[ch[0][i]].key)] == nodes[ch[0][i]].value->0
            }
        &&& forall|i: int, l: int|
            0 <= i < ch[0].len() && 0 <= l < LEVELS ==> (#[trigger] ch[l].contains(ch[0][i])
                <==> l < nodes[ch[0][i]].nexts@.len())
        &&& forall|k: u64|
            #[trigger] self.contents@.contains_key(k) ==> exists|i: int|
                0 <= i < ch[0].len() && #[trigger] nodes[ch[0][i]].key == Key::Entry(k)
    }

    /// Creates an empty list: the head links straight to the tail at every level.
    pub fn new() -> (r: Self)
        ensures
            r.wf(),
            r@ == Map::<u64, V>::empty(),
            forall|l: int| 0 <= l < LEVELS ==> #[trigger] r.level_is_empty(l),
            r.node_key(HEAD as int) == Key::Head,
            r.node_key(TAIL as int) == Key::Tail,
            r.top_level(HEAD as int) == MAX_LEVEL,
            r.top_level(TAIL as int) == MAX_LEVEL,
    {
        let mut head_nexts: Vec<usize> = Vec::new();
        let mut l: usize = 0;
        while l < LEVELS
            invariant
                l <= LEVELS,
                head_nexts@.len() == l,
                forall|j: int| 0 <= j < l ==> head_nexts@[j] == TAIL,
            decreases LEVELS - l,
        {
            head_nexts.push(TAIL);
            l = l + 1;
        }
        let mut tail_nexts: Vec<usize> = Vec::new();
        let mut l: usize = 0;
        while l < LEVELS
            invariant
                l <= LEVELS,
                tail_nexts@.len() == l,
            decreases LEVELS - l,
        {
            tail_nexts.push(TAIL);
            l = l + 1;
        }
        let mut nodes: Vec<Node<V>> = Vec::new();
        nodes.push(Node { key: Key::Head, value: None, nexts: head_nexts });
        nodes.push(Node { key: Key::Tail, value: None, nexts: tail_nexts });
        let r = SkipList {
            nodes,
            chains: Ghost(Seq::new(LEVELS as nat, |l: int| Seq::<int>::empty())),
            contents: Ghost(Map::empty()),
        };
        r
    }

    /// Walks from the top level down to level 0. At each level `l` it yields
    /// the last node whose key is below `target` (`preds[l]`, at position
    /// `pos[l]` of the chain) and the node after it (`succs[l]`), whose key is
    /// at least `target`.
    fn find(&self, target: &Key) -> (r: (Vec<usize>, Vec<usize>, Ghost<Seq<int>>))
        requires
            self.wf(),
            *target is Entry,
        ensures
            r.0@.len() == LEVELS,
            r.1@.len() == LEVELS,
            r.2@.len() == LEVELS,
            forall|l: int|
                0 <= l < LEVELS ==> {
                    let c = self.chains@[l];
                    let p = #[trigger] r.2@[l];
                    &&& -1 <= p < c.len()
                    &&& r.0@[l] == node_at(c, p)
                    &&& r.1@[l] == next_in(c, p)
                    &&& key_lt(self.nodes@[r.0@[l] as int].key, *target)
                    &&& !key_lt(self.nodes@[r.1@[l] as int].key, *target)
                    &&& r.0@[l] < self.nodes@.len()
                    &&& r.1@[l] < self.nodes@.len()
                    &&& self.nodes@[r.0@[l] as int].nexts@.len() > l
                },
    {
        let mut preds: Vec<usize> = Vec::new();
        let mut succs: Vec<usize> = Vec::new();
        let ghost mut pos: Seq<int> = Seq::empty();
        let mut l: usize = 0;
        while l < LEVELS
            invariant
                l <= LEVELS,
                preds@.len() == l,
                succs@.len() == l,
                pos.len() == l,
            decreases LEVELS - l,
        {
            preds.push(HEAD);
            succs.push(TAIL);
            proof {
                pos = pos.push(-1int);
            }
            l = l + 1;
        }
        let mut pred: usize = HEAD;
        let mut level: usize = LEVELS;
        while level > 0
            invariant
                self.wf(),
                *target is Entry,
                level <= LEVELS,
                preds@.len() == LEVELS,
                succs@.len() == LEVELS,
                pos.len() == LEVELS,
                pred == HEAD || (self.chains@[0].contains(pred as int)
                    && self.nodes@[pred as int].nexts@.len() >= level),
                key_lt(self.nodes@[pred as int].key, *target),
                forall|j: int|
                    level <= j < LEVELS ==> {
                        let c = self.chains@[j];
                        let p = #[trigger] pos[j];
                        &&& -1 <= p < c.len()
                        &&& preds@[j] == node_at(c, p)
                        &&& succs@[j] == next_in(c, p)
                        &&& key_lt(self.nodes@[preds@[j] as int].key, *target)
                        &&& !key_lt(self.nodes@[succs@[j] as int].key, *target)
                        &&& preds@[j] < self.nodes@.len()
                        &&& succs@[j] < self.nodes@.len()
                        &&& self.nodes@[preds@[j] as int].nexts@.len() > j
                    },
            decreases level,
        {
            level = level - 1;
            let ghost c = self.chains@[level as int];
            proof {
                assert(links_ok(self.nodes@, c, level as int));
            }
            let ghost mut p: int = -1;
            if pred != HEAD {
                proof {
                    let i0 = choose|i0: int| 0 <= i0 < self.chains@[0].len()
                        && self.chains@[0][i0] == pred as int;
                    assert(self.chains@[level as int].contains(self.chains@[0][i0]));
                    p = choose|i: int| 0 <= i < c.len() && c[i] == pred as int;
                }
            }
            let mut cur: usize = self.nodes[pred].nexts[level];
            while self.nodes[cur].key.less_than(target)
                invariant
                    self.wf(),
                    c == self.chains@[level as int],
                    links_ok(self.nodes@, c, level as int),
                    level < LEVELS,
                    -1 <= p < c.len(),
                    pred as int == node_at(c, p),
                    cur as int == next_in(c, p),
                    key_lt(self.nodes@[pred as int].key, *target),
                decreases c.len() - p,
            {
                proof {
                    if p + 1 >= c.len() {
                        assert(cur == TAIL);
                        assert(false);
                    }
                }
                pred = cur;
                proof {
                    p = p + 1;
                }
                cur = self.nodes[pred].nexts[level];
            }
            preds.set(level, pred);
            succs.set(level, cur);
            proof {
                pos = pos.update(level as int, p);
                if pred != HEAD {
                    assert(c.contains(c[p]));
                }
            }
        }
        (preds, succs, Ghost(pos))
    }

    /// Position lemma: on a chain whose predecessor at `p` sorts below `t`
    /// and whose successor does not, a node with key `t` can only sit right
    /// after `p`.
    proof fn lemma_locate(&self, l: int, p: int, t: Key, i: int)
        requires
            self.wf(),
            0 <= l < LEVELS,
            -1 <= p < self.chains@[l].len(),
            key_lt(self.nodes@[node_at(self.chains@[l], p)].key, t),
            !key_lt(self.nodes@[next_in(self.chains@[l], p)].key, t),
            0 <= i < self.chains@[l].len(),
            self.nodes@[self.chains@[l][i]].key == t,
        ensures
            i == p + 1,
    {
        let c = self.chains@[l];
        assert(chain_sorted(self.nodes@, c));
        assert(links_ok(self.nodes@, c, l));
        if i <= p {
            if i < p {
                assert(key_lt(self.nodes@[c[i]].key, self.nodes@[c[p]].key));
            }
            assert(false);
        } else if i > p + 1 {
            assert(key_lt(self.nodes@[c[p + 1]].key, self.nodes@[c[i]].key));
            assert(false);
        }
    }

    /// At level 0, the key is held exactly when the successor carries it.
    proof fn lemma_found(&self, k: u64, p: int)
        requires
            self.wf(),
            -1 <= p < self.chains@[0].len(),
            key_lt(self.nodes@[node_at(self.chains@[0], p)].key, Key::Entry(k)),
            !key_lt(self.nodes@[next_in(self.chains@[0], p)].key, Key::Entry(k)),
        ensures
            self@.contains_key(k) <==> self.nodes@[next_in(self.chains@[0], p)].key
                == Key::Entry(k),
    {
        let c = self.chains@[0];
        assert(links_ok(self.nodes@, c, 0));
        if self@.contains_key(k) {
            let i = choose|i: int| 0 <= i < c.len() && #[trigger] self.nodes@[c[i]].key == Key::Entry(k);
            self.lemma_locate(0, p, Key::Entry(k), i);
        }
        if self.nodes@[next_in(c, p)].key == Key::Entry(k) {
            assert(p + 1 < c.len());
            assert(self.contents@.contains_key(key_value(self.nodes@[c[p + 1]].key)));
        }
    }

    /// Inserts `key` with a tower of height `top + 1` unless the key is
    /// already held, in which case nothing changes.
    pub fn add_with_level(&mut self, key: u64, value: V, top: usize) -> (r: bool)
        requires
            old(self).wf(),
            top <= MAX_LEVEL,
        ensures
            final(self).wf(),
            r == !old(self)@.contains_key(key),
            final(self)@ == after_add(old(self)@, key, value),
            r ==> exists|n: int|
                #[trigger] final(self).level_nodes(0).contains(n) && final(self).node_key(n)
                    == Key::Entry(key) && final(self).top_level(n) == top,
            forall|n: int|
                #[trigger] old(self).level_nodes(0).contains(n) ==> {
                    &&& final(self).level_nodes(0).contains(n)
                    &&& final(self).top_level(n) == old(self).top_level(n)
                    &&& final(self).node_key(n) == old(self).node_key(n)
                },
    {
        let target = Key::Entry(key);
        let (preds, succs, Ghost(pos)) = self.find(&target);
        proof {
            assert(-1 <= pos[0]);
        }
        let found = self.nodes[succs[0]].key.same_as(&target);
        proof {
            self.lemma_found(key, pos[0]);
        }
        if found {
            return false;
        }
        let ghost old_nodes = self.nodes@;
        let ghost ch = self.chains@;
        let ghost gv = value;
        let n = self.nodes.len();
        let mut nexts: Vec<usize> = Vec::new();
        let mut l: usize = 0;
        while l <= top
            invariant
                top <= MAX_LEVEL,
                l <= top + 1,
                succs@.len() == LEVELS,
                nexts@ == succs@.subrange(0, l as int),
            decreases top + 1 - l,
        {
            nexts.push(succs[l]);
            l = l + 1;
        }
        proof {
            assert forall|j: int| 0 <= j < LEVELS implies #[trigger] preds@[j] < n
                && old_nodes[preds@[j] as int].nexts@.len() > j by {
                assert(-1 <= pos[j]);
                assert(links_ok(old_nodes, ch[j], j));
            }
        }
        self.nodes.push(Node { key: target, value: Some(value), nexts });
        let mut l: usize = 0;
        while l <= top
            invariant
                top <= MAX_LEVEL,
                l <= top + 1,
                n == old_nodes.len(),
                self.chains == old(self).chains,
                self.contents == old(self).contents,
                preds@.len() == LEVELS,
                forall|j: int| 0 <= j < LEVELS ==> #[trigger] preds@[j] < n
                    && old_nodes[preds@[j] as int].nexts@.len() > j,
                succs@.len() == LEVELS,
                self.nodes@.len() == n + 1,
                self.nodes@[n as int].key == target,
                self.nodes@[n as int].value == Some(gv),
                self.nodes@[n as int].nexts@ == succs@.subrange(0, top + 1),
                forall|m: int|
                    0 <= m < n ==> {
                        &&& (#[trigger] self.nodes@[m]).key == old_nodes[m].key
                        &&& self.nodes@[m].value == old_nodes[m].value
                        &&& self.nodes@[m].nexts@.len() == old_nodes[m].nexts@.len()
                    },
                forall|m: int, j: int|
                    0 <= m < n && 0 <= j < old_nodes[m].nexts@.len() ==> #[trigger] self.nodes@[m].nexts@[j]
                        == if j < l && m == preds@[j] {
                        n
                    } else {
                        old_nodes[m].nexts@[j]
                    },
            decreases top + 1 - l,
        {
            let p = preds[l];
            self.nodes[p].nexts.set(l, n);
            l = l + 1;
        }
        let ghost new_ch = Seq::new(
            LEVELS as nat,
            |j: int|
                if j <= top {
                    insert_after(ch[j], pos[j], n as int)
                } else {
                    ch[j]
                },
        );
        proof {
            self.chains = Ghost(new_ch);
            self.contents = Ghost(self.contents@.insert(key, gv));
            lemma_insert_wf(*old(self), *self, preds@, succs@, pos, key, gv, top);
            let nn = n as int;
            lemma_insert_contains(ch[0], pos[0], nn, nn);
            assert(self.level_nodes(0).contains(nn));
            assert forall|m: int| #[trigger] old(self).level_nodes(0).contains(m) implies {
                &&& self.level_nodes(0).contains(m)
                &&& self.top_level(m) == old(self).top_level(m)
                &&& self.node_key(m) == old(self).node_key(m)
            } by {
                lemma_insert_contains(ch[0], pos[0], nn, m);
                let k = choose|k: int| 0 <= k < ch[0].len() && ch[0][k] == m;
                assert(links_ok(old_nodes, ch[0], 0));
                assert(ch[0][k] < old_nodes.len());
            }
        }
        true
    }

    /// Removes `key` and hands back its value, or `None` when it is absent.
    pub fn remove(&mut self, key: u64) -> (r: Option<V>)
        requires
            old(self).wf(),
        ensures
            final(self).wf(),
            r == (if old(self)@.contains_key(key) { Some(old(self)@[key]) } else { None::<V> }),
            final(self)@ == old(self)@.remove(key),
    {
        let target = Key::Entry(key);
        let (preds, succs, Ghost(pos)) = self.find(&target);
        proof {
            assert(-1 <= pos[0]);
            self.lemma_found(key, pos[0]);
        }
        let victim = succs[0];
        if !self.nodes[victim].key.same_as(&target) {
            proof {
                assert(self@.remove(key) =~= self@);
            }
            return None;
        }
        let ghost old_nodes = self.nodes@;
        let h = self.nodes[victim].nexts.len();
        proof {
            lemma_unsplice_facts(*self, pos, key, victim as int, h as int);
            assert forall|j: int| 0 <= j < LEVELS implies #[trigger] preds@[j] < old_nodes.len()
                && preds@[j] != victim && (j < h ==> old_nodes[preds@[j] as int].nexts@.len() > j) by {
                assert(-1 <= pos[j]);
                assert(links_ok(old_nodes, self.chains@[j], j));
            }
        }
        let mut l: usize = 0;
        while l < h
            invariant
                h <= LEVELS,
                l <= h,
                victim < old_nodes.len(),
                h == old_nodes[victim as int].nexts@.len(),
                self.chains == old(self).chains,
                self.contents == old(self).contents,
                preds@.len() == LEVELS,
                forall|j: int| 0 <= j < LEVELS ==> #[trigger] preds@[j] < old_nodes.len()
                    && preds@[j] != victim && (j < h ==> old_nodes[preds@[j] as int].nexts@.len() > j),
                self.nodes@.len() == old_nodes.len(),
                forall|m: int|
                    0 <= m < old_nodes.len() ==> {
                        &&& (#[trigger] self.nodes@[m]).key == old_nodes[m].key
                        &&& self.nodes@[m].value == old_nodes[m].value
                        &&& self.nodes@[m].nexts@.len() == old_nodes[m].nexts@.len()
                    },
                forall|m: int, j: int|
                    0 <= m < old_nodes.len() && 0 <= j < old_nodes[m].nexts@.len() ==> #[trigger] self.nodes@[m].nexts@[j]
                        == if j < l && m == preds@[j] {
                        old_nodes[victim as int].nexts@[j]
                    } else {
                        old_nodes[m].nexts@[j]
                    },
            decreases h - l,
        {
            let nx = self.nodes[victim].nexts[l];
            let p = preds[l];
            self.nodes[p].nexts.set(l, nx);
            l = l + 1;
        }
        let value = self.nodes[victim].value.take();
        let ghost new_ch = Seq::new(
            LEVELS as nat,
            |j: int|
                if j < h {
                    remove_at(old(self).chains@[j], pos[j] + 1)
                } else {
                    old(self).chains@[j]
                },
        );
        proof {
            self.chains = Ghost(new_ch);
            self.contents = Ghost(self.contents@.remove(key));
            lemma_remove_wf(*old(self), *self, preds@, pos, key, victim as int, h as int);
            let c0 = old(self).chains@[0];
            assert(links_ok(old_nodes, c0, 0));
            assert(old(self).contents@[key_value(old_nodes[c0[pos[0] + 1]].key)]
                == old_nodes[c0[pos[0] + 1]].value->0);
        }
        value
    }

    /// Inserts `key` unless it is already held; a held key keeps its value.
    /// The new tower's height is drawn at random.
    pub fn add(&mut self, key: u64, value: V) -> (r: bool)
        requires
            old(self).wf(),
        ensures
            final(self).wf(),
            r == !old(self)@.contains_key(key),
            final(self)@ == after_add(old(self)@, key, value),
            r ==> exists|n: int|
                #[trigger] final(self).level_nodes(0).contains(n) && final(self).node_key(n)
                    == Key::Entry(key) && 0 <= final(self).top_level(n) <= MAX_LEVEL,
            forall|n: int|
                #[trigger] old(self).level_nodes(0).contains(n) ==> {
                    &&& final(self).level_nodes(0).contains(n)
                    &&& final(self).top_level(n) == old(self).top_level(n)
                    &&& final(self).node_key(n) == old(self).node_key(n)
                },
    {
        let top = random_level();
        self.add_with_level(key, value, top)
    }

    /// The value held for `key`, if any.
    pub fn get(&self, key: u64) -> (r: Option<&V>)
        requires
            self.wf(),
        ensures
            r == (if self@.contains_key(key) { Some(&self@[key]) } else { None::<&V> }),
    {
        let target = Key::Entry(key);
        let (_preds, succs, Ghost(pos)) = self.find(&target);
        proof {
            assert(-1 <= pos[0]);
            self.lemma_found(key, pos[0]);
        }
        let n = succs[0];
        if self.nodes[n].key.same_as(&target) {
            proof {
                let c0 = self.chains@[0];
                assert(links_ok(self.nodes@, c0, 0));
                assert(self.contents@[key_value(self.nodes@[c0[pos[0] + 1]].key)]
                    == self.nodes@[c0[pos[0] + 1]].value->0);
            }
            self.nodes[n].value.as_ref()
        } else {
            None
        }
    }

    /// Every level, level 0 included, lists its keys in strictly increasing
    /// order, and level 0 holds exactly the keys of the map.
    pub proof fn lemma_levels_sorted(&self)
        requires
            self.wf(),
        ensures
            forall|l: int, i: int, j: int|
                0 <= l < LEVELS && 0 <= i < j < self.level_keys(l).len() ==> key_lt(
                    #[trigger] self.level_keys(l)[i],
                    #[trigger] self.level_keys(l)[j],
                ),
            forall|k: u64| self@.contains_key(k) <==> #[trigger] self.level_keys(0).contains(Key::Entry(k)),
    {
        assert forall|l: int, i: int, j: int|
            0 <= l < LEVELS && 0 <= i < j < self.level_keys(l).len() implies key_lt(
                #[trigger] self.level_keys(l)[i],
                #[trigger] self.level_keys(l)[j],
            ) by {
            assert(chain_sorted(self.nodes@, self.chains@[l]));
        }
        assert forall|k: u64| self@.contains_key(k) <==> #[trigger] self.level_keys(0).contains(Key::Entry(k)) by {
            let ks = self.level_keys(0);
            let c0 = self.chains@[0];
            if self@.contains_key(k) {
                let i = choose|i: int| 0 <= i < c0.len() && #[trigger] self.nodes@[c0[i]].key == Key::Entry(k);
                assert(ks[i] == Key::Entry(k));
            }
            if ks.contains(Key::Entry(k)) {
                let i = choose|i: int| 0 <= i < ks.len() && ks[i] == Key::Entry(k);
                assert(self.nodes@[c0[i]].key == Key::Entry(k));
                assert(self.contents@.contains_key(key_value(self.nodes@[c0[i]].key)));
            }
        }
    }

    /// Towers have no gaps: a live node stands on level `l` exactly when `l`
    /// is at most its top level, and every node of a level is live.
    pub proof fn lemma_tower_shape(&self)
        requires
            self.wf(),
        ensures
            forall|i: int, l: int|
                0 <= i < self.level_nodes(0).len() && 0 <= l < LEVELS ==> (
                #[trigger] self.level_nodes(l).contains(self.level_nodes(0)[i]) <==> l
                    <= self.top_level(self.level_nodes(0)[i])),
            forall|i: int| 0 <= i < self.level_nodes(0).len() ==>
                0 <= #[trigger] self.top_level(self.level_nodes(0)[i]) <= MAX_LEVEL,
            forall|l: int, i: int|
                0 <= l < LEVELS && 0 <= i < self.level_nodes(l).len() ==> self.level_nodes(0).contains(
                    #[trigger] self.level_nodes(l)[i],
                ),
    {
    }
}

} // verus!
