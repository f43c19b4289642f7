//! Stable ordering of listed entries by a (rank, text) key, with text
//! compared character by character (code point order, which is also the
//! byte order of their UTF-8 encodings).
use vstd::prelude::*;

verus! {

/// Lexicographic "less than" on character sequences.
pub open spec fn lex_lt(a: Seq<char>, b: Seq<char>) -> bool
    decreases a.len(),
{
    if a.len() == 0 {
        b.len() > 0
    } else if b.len() == 0 {
        false
    } else if a[0] < b[0] {
        true
    } else if a[0] > b[0] {
        false
    } else {
        lex_lt(a.drop_first(), b.drop_first())
    }
}

/// `lex_lt` is irreflexive.
pub proof fn lemma_lex_irreflexive(a: Seq<char>)
    ensures
        !lex_lt(a, a),
    decreases a.len(),
{
    if a.len() > 0 {
        lemma_lex_irreflexive(a.drop_first());
    }
}

/// `lex_lt` is transitive.
pub proof fn lemma_lex_transitive(a: Seq<char>, b: Seq<char>, c: Seq<char>)
    requires
        lex_lt(a, b),
        lex_lt(b, c),
    ensures
        lex_lt(a, c),
    decreases a.len(),
{
    if a.len() > 0 && b.len() > 0 && c.len() > 0 && a[0] == b[0] && b[0] == c[0] {
        lemma_lex_transitive(a.drop_first(), b.drop_first(), c.drop_first());
    }
}

/// Two different sequences are ordered one way or the other.
pub proof fn lemma_lex_total(a: Seq<char>, b: Seq<char>)
    ensures
        a == b || lex_lt(a, b) || lex_lt(b, a),
    decreases a.len(),
{
    if a.len() > 0 && b.len() > 0 && a[0] == b[0] {
        lemma_lex_total(a.drop_first(), b.drop_first());
        if a.drop_first() == b.drop_first() {
            assert(a =~= seq![a[0]] + a.drop_first());
            assert(b =~= seq![b[0]] + b.drop_first());
        }
    } else if a.len() == 0 && b.len() == 0 {
        assert(a =~= b);
    }
}

/// `lex_lt` of two character sequences.
pub fn lex_less(a: &[char], b: &[char]) -> (lt: bool)
    ensures
        lt == lex_lt(a@, b@),
{
    let mut i: usize = 0;
    proof {
        assert(a@.skip(0) =~= a@);
        assert(b@.skip(0) =~= b@);
    }
    while i < a.len() && i < b.len() && a[i] == b[i]
        invariant
            0 <= i <= a@.len(),
            i <= b@.len(),
            lex_lt(a@, b@) == lex_lt(a@.skip(i as int), b@.skip(i as int)),
        decreases a@.len() - i,
    {
        assert(a@.skip(i as int).drop_first() =~= a@.skip(i + 1));
        assert(b@.skip(i as int).drop_first() =~= b@.skip(i + 1));
        i += 1;
    }
    if i == a.len() {
        i < b.len()
    } else if i == b.len() {
        false
    } else {
        a[i] < b[i]
    }
}

/// An ordering key: a rank first (smaller first), then a text.
pub open spec fn key_lt(a: (u8, Seq<char>), b: (u8, Seq<char>)) -> bool {
    a.0 < b.0 || (a.0 == b.0 && lex_lt(a.1, b.1))
}

/// Entry `i` comes before entry `j`: a smaller key, or an equal key and an
/// earlier position (a stable order).
pub open spec fn comes_before(keys: Seq<(u8, Seq<char>)>, i: int, j: int) -> bool {
    key_lt(keys[i], keys[j]) || (keys[i] == keys[j] && i < j)
}

/// `order` lists every index of `keys` once, in stable key order.
pub open spec fn is_stable_order(keys: Seq<(u8, Seq<char>)>, order: Seq<usize>) -> bool {
    &&& order.len() == keys.len()
    &&& forall|m: int| 0 <= m < order.len() ==> #[trigger] order[m] < keys.len()
    &&& forall|m: int, n: int|
        0 <= m < n < order.len() ==> comes_before(keys, #[trigger] order[m] as int, #[trigger] order[n] as int)
    &&& forall|i: int| 0 <= i < keys.len() ==> #[trigger] lists(order, i)
}

/// Whether `i` appears in `order`.
pub open spec fn lists(order: Seq<usize>, i: int) -> bool {
    exists|m: int| 0 <= m < order.len() && order[m] == i
}

proof fn lemma_before_transitive(keys: Seq<(u8, Seq<char>)>, i: int, j: int, k: int)
    requires
        comes_before(keys, i, j),
        comes_before(keys, j, k),
    ensures
        comes_before(keys, i, k),
{
    if keys[i].0 == keys[j].0 && keys[j].0 == keys[k].0 && lex_lt(keys[i].1, keys[j].1) && lex_lt(
        keys[j].1,
        keys[k].1,
    ) {
        lemma_lex_transitive(keys[i].1, keys[j].1, keys[k].1);
    }
}

fn key_less(a: &(u8, Vec<char>), b: &(u8, Vec<char>)) -> (lt: bool)
    ensures
        lt == key_lt((a.0, a.1@), (b.0, b.1@)),
{
    a.0 < b.0 || (a.0 == b.0 && lex_less(&a.1, &b.1))
}

/// The plain keys.
pub open spec fn keys_view(keys: Seq<(u8, Vec<char>)>) -> Seq<(u8, Seq<char>)> {
    keys.map_values(|k: (u8, Vec<char>)| (k.0, k.1@))
}

/// The stable order of `keys`: positions sorted by key, equal keys kept in
/// their original order.
pub fn stable_order(keys: &Vec<(u8, Vec<char>)>) -> (order: Vec<usize>)
    ensures
        is_stable_order(keys_view(keys@), order@),
{
    let ghost kv = keys_view(keys@);
    let mut order: Vec<usize> = Vec::new();
    let mut i: usize = 0;
    while i < keys.len()
        invariant
            0 <= i <= keys@.len(),
            kv == keys_view(keys@),
            order@.len() == i,
            forall|m: int| 0 <= m < order@.len() ==> #[trigger] order@[m] < i,
            forall|m: int, n: int|
                0 <= m < n < order@.len() ==> comes_before(kv, #[trigger] order@[m] as int, #[trigger] order@[n] as int),
            forall|x: int| 0 <= x < i ==> #[trigger] lists(order@, x),
        decreases keys@.len() - i,
    {
        // first position whose key is strictly greater than key i
        let mut p: usize = 0;
        while p < order.len() && !key_less(&keys[i], &keys[order[p]])
            invariant
                0 <= p <= order@.len(),
                order@.len() == i,
                i < keys@.len(),
                kv == keys_view(keys@),
                forall|m: int| 0 <= m < order@.len() ==> #[trigger] order@[m] < i,
                forall|m: int| 0 <= m < p ==> comes_before(kv, #[trigger] order@[m] as int, i as int),
            decreases order@.len() - p,
        {
            proof {
                let o = order@[p as int] as int;
                assert(kv[o] == (keys@[o].0, keys@[o].1@));
                assert(kv[i as int] == (keys@[i as int].0, keys@[i as int].1@));
                lemma_lex_total(kv[i as int].1, kv[o].1);
                assert(comes_before(kv, o, i as int));
            }
            p += 1;
        }
        proof {
            if p < order@.len() {
                let o = order@[p as int] as int;
                assert(kv[o] == (keys@[o].0, keys@[o].1@));
                assert(kv[i as int] == (keys@[i as int].0, keys@[i as int].1@));
                assert(comes_before(kv, i as int, o));
                assert forall|n: int| p <= n < order@.len() implies comes_before(
                    kv,
                    i as int,
                    #[trigger] order@[n] as int,
                ) by {
                    if n > p {
                        lemma_before_transitive(kv, i as int, o, order@[n] as int);
                    }
                }
            }
        }
        let ghost old_order = order@;
        order.insert(p, i);
        proof {
            assert(forall|k: int| 0 <= k < p ==> order@[k] == old_order[k]);
            assert(order@[p as int] == i);
            assert(forall|k: int| p < k < order@.len() ==> order@[k] == old_order[k - 1]);
            assert forall|m: int, n: int|
                0 <= m < n < order@.len() implies comes_before(
                kv,
                #[trigger] order@[m] as int,
                #[trigger] order@[n] as int,
            ) by {
                if n < p {
                    assert(order@[n] == old_order[n]);
                    assert(order@[m] == old_order[m]);
                } else if m < p && n == p {
                } else if m < p && n > p {
                    assert(order@[n] == old_order[n - 1]);
                    assert(order@[m] == old_order[m]);
                } else if m == p {
                    assert(order@[n] == old_order[n - 1]);
                } else {
                    assert(order@[n] == old_order[n - 1]);
                    assert(order@[m] == old_order[m - 1]);
                }
            }
            assert forall|x: int| 0 <= x < i + 1 implies #[trigger] lists(order@, x) by {
                if x == i {
                    assert(order@[p as int] == x);
                } else {
                    assert(lists(old_order, x));
                    let m = choose|m: int| 0 <= m < old_order.len() && old_order[m] == x;
                    if m < p {
                        assert(order@[m] == x);
                    } else {
                        assert(order@[m + 1] == x);
                    }
                }
            }
        }
        i += 1;
    }
    order
}

/// No index appears twice in a stable order.
pub proof fn lemma_stable_order_distinct(keys: Seq<(u8, Seq<char>)>, order: Seq<usize>)
    requires
        is_stable_order(keys, order),
    ensures
        forall|m: int, n: int| 0 <= m < n < order.len() ==> order[m] != order[n],
{
    assert forall|m: int, n: int| 0 <= m < n < order.len() implies order[m] != order[n] by {
        assert(comes_before(keys, order[m] as int, order[n] as int));
        if order[m] == order[n] {
            lemma_lex_irreflexive(keys[order[m] as int].1);
        }
    }
}

} // verus!
