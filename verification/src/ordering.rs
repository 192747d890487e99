//! Stable ranking: the order a stable sort by a descending key produces.

use vstd::prelude::*;

verus! {

/// A sort key: compared on the first component, then the second.
pub type RankKey = (i128, u128);

/// `a` ranks strictly above `b`.
pub open spec fn key_gt(a: RankKey, b: RankKey) -> bool {
    a.0 > b.0 || (a.0 == b.0 && a.1 > b.1)
}

/// `p` lists every index below `n` exactly once.
pub open spec fn is_permutation(p: Seq<usize>, n: nat) -> bool {
    &&& p.len() == n
    &&& forall|i: int| 0 <= i < p.len() ==> p[i] < n
    &&& forall|i: int, j: int| 0 <= i < j < p.len() ==> p[i] != p[j]
}

/// `p` lists the index `k`.
pub open spec fn lists_index(p: Seq<usize>, k: int) -> bool {
    exists|i: int| 0 <= i < p.len() && #[trigger] p[i] as int == k
}

/// A permutation lists every index below `n`.
pub proof fn lemma_every_position_listed(p: Seq<usize>, n: nat)
    requires
        is_permutation(p, n),
    ensures
        forall|k: int| 0 <= k < n ==> #[trigger] lists_index(p, k),
{
    let q = p.map_values(|x: usize| x as int);
    assert(q.no_duplicates()) by {
        assert forall|i: int, j: int| 0 <= i < q.len() && 0 <= j < q.len() && i != j implies q[i] != q[j] by {
            if i < j {
                assert(p[i] != p[j]);
            } else {
                assert(p[j] != p[i]);
            }
        }
    }
    q.unique_seq_to_set();
    let range = vstd::set_lib::set_int_range(0, n as int);
    vstd::set_lib::lemma_int_range(0, n as int);
    assert(q.to_set().subset_of(range)) by {
        assert forall|x: int| q.to_set().contains(x) implies range.contains(x) by {
            let i = choose|i: int| 0 <= i < q.len() && q[i] == x;
            assert(p[i] < n);
        }
    }
    vstd::set_lib::lemma_len_subset(q.to_set(), range);
    vstd::set_lib::lemma_subset_equality(q.to_set(), range);
    assert forall|k: int| 0 <= k < n implies #[trigger] lists_index(p, k) by {
        assert(range.contains(k));
        assert(q.to_set().contains(k));
        let i = choose|i: int| 0 <= i < q.len() && q[i] == k;
        assert(p[i] as int == k);
    }
}

/// `p` is the order a stable sort by descending key produces: a permutation
/// of the indices, no later entry ranked above an earlier one, and entries
/// with equal keys in their original order. Exactly one `p` satisfies this
/// for any `keys`.
pub open spec fn is_stable_ranking(keys: Seq<RankKey>, p: Seq<usize>) -> bool {
    &&& is_permutation(p, keys.len())
    &&& forall|i: int, j: int|
        0 <= i < j < p.len() ==> !key_gt(#[trigger] keys[p[j] as int], #[trigger] keys[p[i] as int])
    &&& forall|i: int, j: int|
        0 <= i < j < p.len() && keys[p[i] as int] == keys[p[j] as int] ==> p[i] < p[j]
}

/// The indices of `keys`, highest key first, ties in index order.
pub fn rank_desc(keys: &Vec<RankKey>) -> (p: Vec<usize>)
    ensures
        is_stable_ranking(keys@, p@),
{
    let n = keys.len();
    let mut out: Vec<usize> = Vec::new();
    let mut i: usize = 0;
    while i < n
        invariant
            n == keys@.len(),
            i <= n,
            is_stable_ranking(keys@.take(i as int), out@),
        decreases n - i,
    {
        let ki = keys[i];
        let mut pos: usize = out.len();
        while pos > 0 && (keys[out[pos - 1]].0 < ki.0 || (keys[out[pos - 1]].0 == ki.0
            && keys[out[pos - 1]].1 < ki.1))
            invariant
                n == keys@.len(),
                i < n,
                ki == keys@[i as int],
                pos <= out@.len(),
                is_stable_ranking(keys@.take(i as int), out@),
                forall|k: int| pos <= k < out@.len() ==> key_gt(ki, keys@[out@[k] as int]),
            decreases pos,
        {
            pos = pos - 1;
        }
        let ghost old_out = out@;
        proof {
            assert forall|k: int| 0 <= k < pos implies !key_gt(ki, keys@[old_out[k] as int]) by {
                if pos > 0 {
                    let last = keys@[old_out[pos - 1] as int];
                    assert(!key_gt(ki, last));
                    if k < pos - 1 {
                        assert(keys@.take(i as int)[old_out[pos - 1] as int] == last);
                        assert(keys@.take(i as int)[old_out[k] as int] == keys@[old_out[k] as int]);
                        assert(!key_gt(
                            keys@.take(i as int)[old_out[pos - 1] as int],
                            keys@.take(i as int)[old_out[k] as int],
                        ));
                    }
                }
            }
        }
        out.insert(pos, i);
        proof {
            let kt = keys@.take(i as int + 1);
            let ko = keys@.take(i as int);
            assert forall|j: int| 0 <= j < old_out.len() implies old_out[j] < i by {}
            assert forall|a: int| 0 <= a < out@.len() implies out@[a] < i + 1 by {
                if a < pos {
                } else if a > pos {
                    assert(out@[a] == old_out[a - 1]);
                }
            }
            assert forall|a: int, b: int| 0 <= a < b < out@.len() implies out@[a] != out@[b] by {
                if a < pos && b > pos {
                    assert(out@[b] == old_out[b - 1]);
                } else if a > pos {
                    assert(out@[a] == old_out[a - 1]);
                    assert(out@[b] == old_out[b - 1]);
                }
            }
            assert forall|a: int, b: int| 0 <= a < b < out@.len() implies !key_gt(
                #[trigger] kt[out@[b] as int],
                #[trigger] kt[out@[a] as int],
            ) by {
                assert(forall|x: int| 0 <= x < i ==> kt[x] == ko[x]);
                if b < pos {
                    assert(!key_gt(ko[old_out[b] as int], ko[old_out[a] as int]));
                } else if a < pos && b == pos {
                } else if a < pos && b > pos {
                    assert(out@[b] == old_out[b - 1]);
                    assert(!key_gt(ko[old_out[b - 1] as int], ko[old_out[a] as int]));
                } else if a == pos {
                    assert(out@[b] == old_out[b - 1]);
                    assert(key_gt(ki, keys@[old_out[b - 1] as int]));
                } else {
                    assert(out@[a] == old_out[a - 1]);
                    assert(out@[b] == old_out[b - 1]);
                    assert(!key_gt(ko[old_out[b - 1] as int], ko[old_out[a - 1] as int]));
                }
            }
            assert forall|a: int, b: int|
                0 <= a < b < out@.len() && kt[out@[a] as int] == kt[out@[b] as int] implies out@[a]
                < out@[b] by {
                assert(forall|x: int| 0 <= x < i ==> kt[x] == ko[x]);
                if b < pos {
                    assert(ko[old_out[a] as int] == ko[old_out[b] as int]);
                } else if a < pos && b == pos {
                } else if a < pos && b > pos {
                    assert(out@[b] == old_out[b - 1]);
                } else if a == pos {
                    assert(out@[b] == old_out[b - 1]);
                    assert(key_gt(ki, keys@[old_out[b - 1] as int]));
                } else {
                    assert(out@[a] == old_out[a - 1]);
                    assert(out@[b] == old_out[b - 1]);
                }
            }
        }
        i = i + 1;
    }
    proof {
        assert(keys@.take(n as int) =~= keys@);
    }
    out
}

/// A listing key: a rank (higher first), then a title (lexicographically
/// first), then an id (smaller first).
pub type ListKey = (int, Seq<char>, u128);

/// `a` is listed strictly before `b`.
pub open spec fn precedes(a: ListKey, b: ListKey) -> bool {
    a.0 > b.0 || (a.0 == b.0 && (crate::text::compare_spec(a.1, b.1) < 0 || (
    crate::text::compare_spec(a.1, b.1) == 0 && a.2 < b.2)))
}

/// Two keys never precede each other.
pub proof fn lemma_precedes_asymmetric(a: ListKey, b: ListKey)
    ensures
        precedes(a, b) ==> !precedes(b, a),
{
    crate::text::lemma_compare_flips(a.1, b.1);
}

/// Listing order is transitive.
pub proof fn lemma_precedes_transitive(a: ListKey, b: ListKey, c: ListKey)
    requires
        precedes(a, b),
        precedes(b, c),
    ensures
        precedes(a, c),
{
    crate::text::lemma_compare_flips(a.1, b.1);
    crate::text::lemma_compare_flips(b.1, c.1);
    crate::text::lemma_compare_flips(a.1, c.1);
    if a.0 == b.0 && b.0 == c.0 {
        if crate::text::compare_spec(a.1, b.1) < 0 && crate::text::compare_spec(b.1, c.1) < 0 {
            crate::text::lemma_compare_transitive(a.1, b.1, c.1);
        }
    }
}

/// Two keys neither of which precedes the other are the same key.
pub proof fn lemma_precedes_total(a: ListKey, b: ListKey)
    ensures
        precedes(a, b) || precedes(b, a) || a == b,
{
    crate::text::lemma_compare_flips(a.1, b.1);
}

/// "Not listed strictly before" is transitive.
pub proof fn lemma_not_precedes_transitive(a: ListKey, b: ListKey, c: ListKey)
    requires
        !precedes(b, a),
        !precedes(c, b),
    ensures
        !precedes(c, a),
{
    lemma_precedes_total(a, b);
    if precedes(c, a) && precedes(a, b) {
        lemma_precedes_transitive(c, a, b);
    }
}

/// `p` lists the indices of `keys` so that no entry is listed strictly
/// before the one in front of it.
pub open spec fn is_listing(keys: Seq<ListKey>, p: Seq<usize>) -> bool {
    &&& is_permutation(p, keys.len())
    &&& forall|k: int|
        0 <= k < p.len() - 1 ==> !precedes(keys[#[trigger] p[k + 1] as int], keys[p[k] as int])
}

/// The listing keys of parallel `ranks`, `titles` and `ids`.
pub open spec fn list_keys(ranks: Seq<u8>, titles: Seq<String>, ids: Seq<u128>) -> Seq<ListKey> {
    Seq::new(ranks.len(), |i: int| (ranks[i] as int, titles[i]@, ids[i]))
}

fn key_precedes(ranks: &Vec<u8>, titles: &Vec<String>, ids: &Vec<u128>, a: usize, b: usize) -> (r: bool)
    requires
        a < ranks@.len(),
        b < ranks@.len(),
        titles@.len() == ranks@.len(),
        ids@.len() == ranks@.len(),
    ensures
        r == precedes(list_keys(ranks@, titles@, ids@)[a as int], list_keys(ranks@, titles@, ids@)[b as int]),
{
    if ranks[a] != ranks[b] {
        return ranks[a] > ranks[b];
    }
    let c = crate::text::compare(titles[a].as_str(), titles[b].as_str());
    c < 0 || (c == 0 && ids[a] < ids[b])
}

/// The indices ordered for listing: higher rank first, then title, then
/// id, by insertion; each entry is never listed strictly before the one in
/// front of it.
pub fn listing_order(ranks: &Vec<u8>, titles: &Vec<String>, ids: &Vec<u128>) -> (p: Vec<usize>)
    requires
        titles@.len() == ranks@.len(),
        ids@.len() == ranks@.len(),
    ensures
        is_listing(list_keys(ranks@, titles@, ids@), p@),
{
    let ghost keys = list_keys(ranks@, titles@, ids@);
    let n = ranks.len();
    let mut out: Vec<usize> = Vec::new();
    let mut i: usize = 0;
    while i < n
        invariant
            n == ranks@.len(),
            titles@.len() == n,
            ids@.len() == n,
            keys == list_keys(ranks@, titles@, ids@),
            i <= n,
            out@.len() == i,
            forall|j: int| 0 <= j < out@.len() ==> out@[j] < i,
            forall|a: int, b: int| 0 <= a < b < out@.len() ==> out@[a] != out@[b],
            forall|k: int|
                0 <= k < out@.len() - 1 ==> !precedes(keys[#[trigger] out@[k + 1] as int], keys[out@[k] as int]),
        decreases n - i,
    {
        let mut pos: usize = out.len();
        while pos > 0
            invariant
                n == ranks@.len(),
                titles@.len() == n,
                ids@.len() == n,
                keys == list_keys(ranks@, titles@, ids@),
                i < n,
                pos <= out@.len(),
                forall|j: int| 0 <= j < out@.len() ==> out@[j] < i,
                pos < out@.len() ==> precedes(keys[i as int], keys[out@[pos as int] as int]),
            ensures
                pos <= out@.len(),
                pos < out@.len() ==> precedes(keys[i as int], keys[out@[pos as int] as int]),
                pos > 0 ==> !precedes(keys[i as int], keys[out@[pos - 1] as int]),
            decreases pos,
        {
            if key_precedes(ranks, titles, ids, i, out[pos - 1]) {
                pos = pos - 1;
            } else {
                break;
            }
        }
        let ghost old_out = out@;
        proof {
            assert(forall|k: int|
                0 <= k < old_out.len() - 1 ==> !precedes(keys[#[trigger] old_out[k + 1] as int], keys[old_out[k] as int]));
        }
        out.insert(pos, i);
        proof {
            assert forall|a: int| 0 <= a < out@.len() implies out@[a] < i + 1 by {
                if a > pos {
                    assert(out@[a] == old_out[a - 1]);
                }
            }
            assert forall|a: int, b: int| 0 <= a < b < out@.len() implies out@[a] != out@[b] by {
                if a < pos && b > pos {
                    assert(out@[b] == old_out[b - 1]);
                } else if a > pos {
                    assert(out@[a] == old_out[a - 1]);
                    assert(out@[b] == old_out[b - 1]);
                } else if a == pos {
                    assert(out@[b] == old_out[b - 1]);
                }
            }
            assert forall|k: int| 0 <= k < out@.len() - 1 implies !precedes(
                keys[#[trigger] out@[k + 1] as int],
                keys[out@[k] as int],
            ) by {
                if k + 1 < pos {
                    assert(out@[k + 1] == old_out[k + 1] && out@[k] == old_out[k]);
                    assert(!precedes(keys[old_out[k + 1] as int], keys[old_out[k] as int]));
                } else if k + 1 == pos {
                    assert(out@[k] == old_out[k]);
                    assert(out@[k + 1] == i);
                    assert(!precedes(keys[i as int], keys[old_out[pos - 1] as int]));
                } else if k == pos {
                    assert(out@[k + 1] == old_out[k]);
                    assert(out@[k] == i);
                    lemma_precedes_asymmetric(keys[i as int], keys[old_out[k] as int]);
                } else {
                    assert(out@[k + 1] == old_out[k] && out@[k] == old_out[k - 1]);
                    assert(!precedes(keys[old_out[(k - 1) + 1] as int], keys[old_out[k - 1] as int]));
                }
            }
        }
        i = i + 1;
    }
    out
}

} // verus!
