//! Ordering of candidates: a stable descending sort by key, and the ranking
//! of an index against a query.

use vstd::prelude::*;
use vstd::seq_lib::{lemma_multiset_commutative, to_multiset_build, to_multiset_contains};
use vstd::set_lib::{lemma_int_range, lemma_len_subset, set_int_range};
use crate::app::search::{score, score_normalized, MAX_QUERY_LEN, MIN_SCORE};
use crate::app::state::ProductIndexItem;
use crate::util::chars::{is_space, is_whitespace, to_chars};

verus! {

/// A key with the position that it was given before sorting.
pub type Keyed = (i128, usize);

/// The order of sorting: greater keys first, and among equal keys the
/// earlier position first.
pub open spec fn keyed_before(x: Keyed, y: Keyed) -> bool {
    x.0 > y.0 || (x.0 == y.0 && x.1 <= y.1)
}

/// Every item comes before all items behind it.
pub open spec fn keyed_sorted(s: Seq<Keyed>) -> bool {
    forall|i: int, j: int| 0 <= i < j < s.len() ==> keyed_before(#[trigger] s[i], #[trigger] s[j])
}

/// Among positions of `keys`: the greater key first, and of two equal keys
/// the earlier position.
pub open spec fn sorts_before(keys: Seq<i128>, x: int, y: int) -> bool {
    keys[x] > keys[y] || (keys[x] == keys[y] && x < y)
}

/// `order` lists every position of `keys` once, greater keys first and
/// equal keys in the order of their positions.
pub open spec fn is_descending_order(order: Seq<usize>, keys: Seq<i128>) -> bool {
    &&& order.len() == keys.len()
    &&& forall|k: int| 0 <= k < order.len() ==> (#[trigger] order[k]) < keys.len()
    &&& forall|p: usize| p < keys.len() ==> #[trigger] order.contains(p)
    &&& forall|a: int, b: int|
        0 <= a < b < order.len() ==> sorts_before(keys, #[trigger] order[a] as int, #[trigger] order[b] as int)
}

/// The score of entry `i` of the index for a query.
pub open spec fn score_at(query: Seq<char>, index: Seq<ProductIndexItem>, i: int) -> int {
    score(query, index[i].norm_display@)
}

/// The order of relevance: the higher score first, and of two equal scores
/// the lower index.
pub open spec fn ranks_before(query: Seq<char>, index: Seq<ProductIndexItem>, x: int, y: int) -> bool {
    score_at(query, index, x) > score_at(query, index, y) || (score_at(query, index, x)
        == score_at(query, index, y) && x < y)
}

/// `out` is the ranking of the index for the query: it holds the entries
/// that score above `MIN_SCORE`, each once and no other, in the order of relevance.
pub open spec fn is_ranking(out: Seq<usize>, query: Seq<char>, index: Seq<ProductIndexItem>) -> bool {
    &&& out.no_duplicates()
    &&& forall|k: int|
        0 <= k < out.len() ==> (#[trigger] out[k]) < index.len() && score_at(
            query,
            index,
            out[k] as int,
        ) > MIN_SCORE
    &&& forall|i: usize|
        i < index.len() && score_at(query, index, i as int) > MIN_SCORE ==> #[trigger] out.contains(i)
    &&& forall|a: int, b: int|
        0 <= a < b < out.len() ==> ranks_before(
            query,
            index,
            #[trigger] out[a] as int,
            #[trigger] out[b] as int,
        )
}

/// Every character of the text is whitespace.
pub open spec fn blank(s: Seq<char>) -> bool {
    forall|i: int| 0 <= i < s.len() ==> is_space(#[trigger] s[i])
}

/// Every item of the list comes before all items behind it.
pub open spec fn strictly_sorted(list: Seq<usize>, before: spec_fn(usize, usize) -> bool) -> bool {
    forall|a: int, b: int|
        0 <= a < b < list.len() ==> before(#[trigger] list[a], #[trigger] list[b])
}

/// Two lists that hold the same items, each sorted by an order in which no
/// two items come before each other, are the same list.
pub proof fn lemma_sorted_unique(x: Seq<usize>, y: Seq<usize>, before: spec_fn(usize, usize) -> bool)
    requires
        strictly_sorted(x, before),
        strictly_sorted(y, before),
        forall|p: usize, q: usize| !(#[trigger] before(p, q) && #[trigger] before(q, p)),
        forall|e: usize| #![trigger x.contains(e)] #![trigger y.contains(e)] x.contains(e) <==> y.contains(e),
    ensures
        x == y,
    decreases x.len(),
{
    if x.len() == 0 {
        if y.len() > 0 {
            assert(y.contains(y[0]));
            assert(x.contains(y[0]));
        }
        assert(x =~= y);
    } else {
        assert(x.contains(x[0]));
        assert(y.contains(x[0]));
        let j = choose|j: int| 0 <= j < y.len() && y[j] == x[0];
        assert(y.contains(y[0]));
        assert(x.contains(y[0]));
        let i = choose|i: int| 0 <= i < x.len() && x[i] == y[0];
        if j > 0 && i > 0 {
            assert(before(y[0], y[j]));
            assert(before(x[0], x[i]));
        }
        assert(x[0] == y[0]);
        let xt = x.drop_first();
        let yt = y.drop_first();
        assert forall|e: usize| #![trigger xt.contains(e)] #![trigger yt.contains(e)] xt.contains(e) <==> yt.contains(e) by {
            if xt.contains(e) {
                let k = choose|k: int| 0 <= k < xt.len() && xt[k] == e;
                assert(x[k + 1] == e);
                assert(before(x[0], x[k + 1]));
                assert(x.contains(e));
                assert(y.contains(e));
                let m = choose|m: int| 0 <= m < y.len() && y[m] == e;
                assert(yt[m - 1] == e);
            }
            if yt.contains(e) {
                let k = choose|k: int| 0 <= k < yt.len() && yt[k] == e;
                assert(y[k + 1] == e);
                assert(before(y[0], y[k + 1]));
                assert(y.contains(e));
                assert(x.contains(e));
                let m = choose|m: int| 0 <= m < x.len() && x[m] == e;
                assert(xt[m - 1] == e);
            }
        }
        assert forall|a: int, b: int| 0 <= a < b < xt.len() implies before(
            #[trigger] xt[a],
            #[trigger] xt[b],
        ) by {
            assert(before(x[a + 1], x[b + 1]));
        }
        assert forall|a: int, b: int| 0 <= a < b < yt.len() implies before(
            #[trigger] yt[a],
            #[trigger] yt[b],
        ) by {
            assert(before(y[a + 1], y[b + 1]));
        }
        lemma_sorted_unique(xt, yt, before);
        assert(x == seq![x[0]] + xt);
        assert(y == seq![y[0]] + yt);
    }
}

/// A list without repeats whose items all lie below `n` has at most `n` items.
pub proof fn lemma_distinct_below(list: Seq<usize>, n: nat)
    requires
        list.no_duplicates(),
        forall|k: int| 0 <= k < list.len() ==> (#[trigger] list[k]) < n,
    ensures
        list.len() <= n,
{
    let numbers = Seq::new(list.len(), |k: int| list[k] as int);
    assert(numbers.no_duplicates()) by {
        assert forall|a: int, b: int|
            0 <= a < numbers.len() && 0 <= b < numbers.len() && a != b implies numbers[a]
            != numbers[b] by {
            assert(list[a] != list[b]);
        }
    }
    numbers.unique_seq_to_set();
    lemma_int_range(0, n as int);
    assert(numbers.to_set().subset_of(set_int_range(0, n as int))) by {
        assert forall|v: int| numbers.to_set().contains(v) implies set_int_range(
            0,
            n as int,
        ).contains(v) by {
            let k = choose|k: int| 0 <= k < numbers.len() && numbers[k] == v;
            assert(list[k] < n);
        }
    }
    lemma_len_subset(numbers.to_set(), set_int_range(0, n as int));
}

/// A ranking is a selection from the index: it holds entries of the index
/// only, none twice, and so no more than the index has.
pub proof fn lemma_ranking_is_selection(out: Seq<usize>, query: Seq<char>, index: Seq<ProductIndexItem>)
    requires
        is_ranking(out, query, index),
    ensures
        out.no_duplicates(),
        forall|k: int| 0 <= k < out.len() ==> (#[trigger] out[k]) < index.len(),
        out.len() <= index.len(),
{
    lemma_distinct_below(out, index.len());
}

/// In a ranking, entries with equal scores stand in the order of the index.
pub proof fn lemma_ranking_keeps_index_order(
    out: Seq<usize>,
    query: Seq<char>,
    index: Seq<ProductIndexItem>,
    a: int,
    b: int,
)
    requires
        is_ranking(out, query, index),
        0 <= a < b < out.len(),
        score_at(query, index, out[a] as int) == score_at(query, index, out[b] as int),
    ensures
        out[a] < out[b],
{
    assert(ranks_before(query, index, out[a] as int, out[b] as int));
}

/// An index has one ranking for a query and no other.
pub proof fn lemma_ranking_unique(
    x: Seq<usize>,
    y: Seq<usize>,
    query: Seq<char>,
    index: Seq<ProductIndexItem>,
)
    requires
        is_ranking(x, query, index),
        is_ranking(y, query, index),
    ensures
        x == y,
{
    let before = |p: usize, q: usize| ranks_before(query, index, p as int, q as int);
    assert forall|e: usize| #![trigger x.contains(e)] #![trigger y.contains(e)] x.contains(e) <==> y.contains(e) by {
        if x.contains(e) {
            let k = choose|k: int| 0 <= k < x.len() && x[k] == e;
            assert(x[k] < index.len());
        }
        if y.contains(e) {
            let k = choose|k: int| 0 <= k < y.len() && y[k] == e;
            assert(y[k] < index.len());
        }
    }
    assert(strictly_sorted(x, before)) by {
        assert forall|a: int, b: int| 0 <= a < b < x.len() implies before(
            #[trigger] x[a],
            #[trigger] x[b],
        ) by {
            assert(ranks_before(query, index, x[a] as int, x[b] as int));
        }
    }
    assert(strictly_sorted(y, before)) by {
        assert forall|a: int, b: int| 0 <= a < b < y.len() implies before(
            #[trigger] y[a],
            #[trigger] y[b],
        ) by {
            assert(ranks_before(query, index, y[a] as int, y[b] as int));
        }
    }
    lemma_sorted_unique(x, y, before);
}

/// The positions of a list of keys have one descending order and no other.
pub proof fn lemma_descending_order_unique(x: Seq<usize>, y: Seq<usize>, keys: Seq<i128>)
    requires
        is_descending_order(x, keys),
        is_descending_order(y, keys),
    ensures
        x == y,
{
    let before = |p: usize, q: usize| sorts_before(keys, p as int, q as int);
    assert forall|e: usize| #![trigger x.contains(e)] #![trigger y.contains(e)] x.contains(e) <==> y.contains(e) by {
        if x.contains(e) {
            let k = choose|k: int| 0 <= k < x.len() && x[k] == e;
            assert(x[k] < keys.len());
        }
        if y.contains(e) {
            let k = choose|k: int| 0 <= k < y.len() && y[k] == e;
            assert(y[k] < keys.len());
        }
    }
    assert(strictly_sorted(x, before)) by {
        assert forall|a: int, b: int| 0 <= a < b < x.len() implies before(
            #[trigger] x[a],
            #[trigger] x[b],
        ) by {
            assert(sorts_before(keys, x[a] as int, x[b] as int));
        }
    }
    assert(strictly_sorted(y, before)) by {
        assert forall|a: int, b: int| 0 <= a < b < y.len() implies before(
            #[trigger] y[a],
            #[trigger] y[b],
        ) by {
            assert(sorts_before(keys, y[a] as int, y[b] as int));
        }
    }
    lemma_sorted_unique(x, y, before);
}

/// Whether `x` is sorted before `y`.
fn before(x: Keyed, y: Keyed) -> (b: bool)
    ensures
        b == keyed_before(x, y),
{
    x.0 > y.0 || (x.0 == y.0 && x.1 <= y.1)
}

/// Merges two sorted lists into one.
fn merge(left: &Vec<Keyed>, right: &Vec<Keyed>) -> (out: Vec<Keyed>)
    requires
        keyed_sorted(left@),
        keyed_sorted(right@),
    ensures
        keyed_sorted(out@),
        out@.to_multiset() == left@.to_multiset().add(right@.to_multiset()),
{
    let mut out: Vec<Keyed> = Vec::new();
    let mut i: usize = 0;
    let mut j: usize = 0;
    proof {
        assert(left@.take(0) == Seq::<Keyed>::empty());
        assert(right@.take(0) == Seq::<Keyed>::empty());
        lemma_multiset_commutative(left@.take(0), right@.take(0));
        assert(left@.take(0) + right@.take(0) == out@);
    }
    while i < left.len() || j < right.len()
        invariant
            i <= left.len(),
            j <= right.len(),
            keyed_sorted(left@),
            keyed_sorted(right@),
            keyed_sorted(out@),
            out@.to_multiset() == left@.take(i as int).to_multiset().add(
                right@.take(j as int).to_multiset(),
            ),
            forall|k: int|
                0 <= k < out.len() && i < left.len() ==> keyed_before(#[trigger] out@[k], left@[i as int]),
            forall|k: int|
                0 <= k < out.len() && j < right.len() ==> keyed_before(
                    #[trigger] out@[k],
                    right@[j as int],
                ),
        decreases left.len() - i + right.len() - j,
    {
        let from_left = if i < left.len() && j < right.len() {
            before(left[i], right[j])
        } else {
            i < left.len()
        };
        let ghost old_out = out@;
        if from_left {
            let x = left[i];
            proof {
                assert(left@.take(i + 1) == left@.take(i as int).push(x));
                to_multiset_build(left@.take(i as int), x);
                to_multiset_build(old_out, x);
            }
            out.push(x);
            i += 1;
        } else {
            let y = right[j];
            proof {
                assert(right@.take(j + 1) == right@.take(j as int).push(y));
                to_multiset_build(right@.take(j as int), y);
                to_multiset_build(old_out, y);
            }
            out.push(y);
            j += 1;
        }
        proof {
            assert(out@.to_multiset() =~= left@.take(i as int).to_multiset().add(
                right@.take(j as int).to_multiset(),
            ));
        }
    }
    proof {
        assert(left@.take(left.len() as int) == left@);
        assert(right@.take(right.len() as int) == right@);
    }
    out
}

/// The items from `from` up to `to`.
fn copy_range(v: &Vec<Keyed>, from: usize, to: usize) -> (out: Vec<Keyed>)
    requires
        from <= to <= v.len(),
    ensures
        out@ == v@.subrange(from as int, to as int),
{
    let mut out: Vec<Keyed> = Vec::new();
    let mut k = from;
    while k < to
        invariant
            from <= k <= to <= v.len(),
            out@ == v@.subrange(from as int, k as int),
        decreases to - k,
    {
        out.push(v[k]);
        k += 1;
    }
    out
}

/// Sorts by key, greater keys first; among equal keys the lower position
/// comes first. The result holds the same items as often as the input.
pub fn sort_keyed(v: Vec<Keyed>) -> (out: Vec<Keyed>)
    ensures
        keyed_sorted(out@),
        out@.to_multiset() == v@.to_multiset(),
    decreases v@.len(),
{
    if v.len() <= 1 {
        return v;
    }
    let mid = v.len() / 2;
    let left = sort_keyed(copy_range(&v, 0, mid));
    let right = sort_keyed(copy_range(&v, mid, v.len()));
    proof {
        let a = v@.subrange(0, mid as int);
        let b = v@.subrange(mid as int, v.len() as int);
        assert(v@ == a + b);
        lemma_multiset_commutative(a, b);
    }
    merge(&left, &right)
}

/// The positions of `keys` in descending order of key; positions with equal
/// keys keep their order.
pub fn descending_order(keys: &Vec<i128>) -> (order: Vec<usize>)
    ensures
        is_descending_order(order@, keys@),
{
    let n = keys.len();
    let mut items: Vec<Keyed> = Vec::new();
    let mut i: usize = 0;
    while i < n
        invariant
            i <= n,
            n == keys.len(),
            items@.len() == i,
            forall|k: int| 0 <= k < i ==> #[trigger] items@[k] == (keys@[k], k as usize),
        decreases n - i,
    {
        items.push((keys[i], i));
        i += 1;
    }
    let sorted = sort_keyed(items);
    proof {
        vstd::seq_lib::to_multiset_len(items@);
        vstd::seq_lib::to_multiset_len(sorted@);
        assert(items@.no_duplicates());
        items@.lemma_multiset_has_no_duplicates();
        assert forall|x: Keyed| sorted@.to_multiset().contains(x) implies sorted@.to_multiset().count(x) == 1 by {}
        sorted@.lemma_multiset_has_no_duplicates_conv();
        assert forall|k: int| 0 <= k < sorted@.len() implies (#[trigger] sorted@[k]).1 < n
            && sorted@[k].0 == keys@[sorted@[k].1 as int] by {
            let x = sorted@[k];
            assert(sorted@.contains(x));
            to_multiset_contains(sorted@, x);
            to_multiset_contains(items@, x);
            let at = choose|at: int| 0 <= at < items@.len() && items@[at] == x;
            assert(items@[at] == (keys@[at], at as usize));
        }
    }
    let mut order: Vec<usize> = Vec::new();
    let mut k: usize = 0;
    while k < sorted.len()
        invariant
            k <= sorted.len(),
            order@.len() == k,
            forall|t: int| 0 <= t < k ==> #[trigger] order@[t] == sorted@[t].1,
        decreases sorted.len() - k,
    {
        order.push(sorted[k].1);
        k += 1;
    }
    proof {
        assert forall|p: usize| p < keys@.len() implies #[trigger] order@.contains(p) by {
            let x = (keys@[p as int], p);
            assert(items@[p as int] == x);
            assert(items@.contains(x));
            to_multiset_contains(items@, x);
            to_multiset_contains(sorted@, x);
            let at = choose|at: int| 0 <= at < sorted@.len() && sorted@[at] == x;
            assert(order@[at] == p);
        }
        assert forall|a: int, b: int| 0 <= a < b < order@.len() implies sorts_before(
            keys@,
            #[trigger] order@[a] as int,
            #[trigger] order@[b] as int,
        ) by {
            assert(keyed_before(sorted@[a], sorted@[b]));
            assert(sorted@[a] != sorted@[b]);
        }
    }
    order
}

/// The indices from zero up to `n`, in order.
pub fn all_indices(n: usize) -> (out: Vec<usize>)
    ensures
        out@.len() == n,
        forall|k: int| 0 <= k < n ==> #[trigger] out@[k] == k,
{
    let mut out: Vec<usize> = Vec::new();
    let mut i: usize = 0;
    while i < n
        invariant
            i <= n,
            out@.len() == i,
            forall|k: int| 0 <= k < i ==> #[trigger] out@[k] == k,
        decreases n - i,
    {
        out.push(i);
        i += 1;
    }
    out
}

/// Whether a text holds nothing but whitespace.
pub fn is_blank(s: &str) -> (b: bool)
    ensures
        b == blank(s@),
{
    let chars = to_chars(s);
    let mut i: usize = 0;
    while i < chars.len()
        invariant
            i <= chars.len(),
            chars@ == s@,
            forall|k: int| 0 <= k < i ==> is_space(#[trigger] chars@[k]),
        decreases chars.len() - i,
    {
        if !is_whitespace(chars[i]) {
            return false;
        }
        i += 1;
    }
    true
}

/// Ranks the index for a normalized query: the entries that score above
/// `MIN_SCORE`, best score first, equal scores in index order.
pub fn rank_matches(query_norm: &str, index: &Vec<ProductIndexItem>) -> (out: Vec<usize>)
    requires
        query_norm@.len() <= MAX_QUERY_LEN,
    ensures
        is_ranking(out@, query_norm@, index@),
{
    let n = index.len();
    let mut kept: Vec<usize> = Vec::new();
    let mut keys: Vec<i128> = Vec::new();
    let mut i: usize = 0;
    let ghost q = query_norm@;
    while i < n
        invariant
            i <= n,
            n == index.len(),
            q == query_norm@,
            q.len() <= MAX_QUERY_LEN,
            kept@.len() == keys@.len(),
            forall|k: int|
                0 <= k < kept@.len() ==> (#[trigger] kept@[k]) < i && keys@[k] == score_at(
                    q,
                    index@,
                    kept@[k] as int,
                ) && keys@[k] > MIN_SCORE,
            forall|a: int, b: int|
                0 <= a < b < kept@.len() ==> (#[trigger] kept@[a]) < (#[trigger] kept@[b]),
            forall|t: usize|
                t < i && score_at(q, index@, t as int) > MIN_SCORE ==> #[trigger] kept@.contains(t),
        decreases n - i,
    {
        let s = score_normalized(query_norm, index[i].norm_display.as_str());
        if s > MIN_SCORE {
            let ghost before_kept = kept@;
            kept.push(i);
            keys.push(s as i128);
            proof {
                assert forall|t: usize|
                    t < i + 1 && score_at(q, index@, t as int) > MIN_SCORE implies #[trigger] kept@.contains(
                    t,
                ) by {
                    if t < i {
                        assert(before_kept.contains(t));
                        let at = choose|at: int| 0 <= at < before_kept.len() && before_kept[at] == t;
                        assert(kept@[at] == t);
                    } else {
                        assert(kept@[kept@.len() - 1] == i);
                    }
                }
            }
        }
        i += 1;
    }
    let order = descending_order(&keys);
    let mut out: Vec<usize> = Vec::new();
    let mut k: usize = 0;
    while k < order.len()
        invariant
            k <= order.len(),
            is_descending_order(order@, keys@),
            kept@.len() == keys@.len(),
            out@.len() == k,
            forall|t: int| 0 <= t < k ==> #[trigger] out@[t] == kept@[order@[t] as int],
        decreases order.len() - k,
    {
        out.push(kept[order[k]]);
        k += 1;
    }
    proof {
        assert forall|a: int, b: int| 0 <= a < b < out@.len() implies ranks_before(
            q,
            index@,
            #[trigger] out@[a] as int,
            #[trigger] out@[b] as int,
        ) by {
            assert(sorts_before(keys@, order@[a] as int, order@[b] as int));
        }
        assert forall|t: usize|
            t < index@.len() && score_at(q, index@, t as int) > MIN_SCORE implies #[trigger] out@.contains(
            t,
        ) by {
            assert(kept@.contains(t));
            let p = choose|p: int| 0 <= p < kept@.len() && kept@[p] == t;
            assert(order@.contains(p as usize));
            let at = choose|at: int| 0 <= at < order@.len() && order@[at] == p as usize;
            assert(out@[at] == t);
        }
        assert forall|a: int, b: int| 0 <= a < b < out@.len() implies out@[a] != out@[b] by {
            assert(ranks_before(q, index@, out@[a] as int, out@[b] as int));
        }
    }
    out
}

} // verus!
