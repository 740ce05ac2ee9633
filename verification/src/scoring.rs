//! Token pruning and top-k document selection.
//!
//! Salience and score magnitudes are taken as order-preserving unsigned
//! keys: callers map each measured value to a `u64` so that a larger key
//! means a larger measurement. All ranking decisions are made on the keys.

use vstd::prelude::*;

verus! {

/// How a token's salience is derived from its embedding.
#[derive(Clone, Copy, Debug, PartialEq, Eq, Structural)]
pub enum SalienceMethod {
    /// Squared L2 norm, a proxy for inverse document frequency.
    IdfNorm,
    /// Plain L2 norm; also the default for unrecognized method names.
    NormOnly,
}

/// Token pruning configuration, as carried by a rerank request.
#[derive(Clone, Debug)]
pub struct PruneConfig {
    /// Most query tokens kept.
    pub q_max: usize,
    /// Most document tokens kept.
    pub d_max: usize,
    /// Salience method name; unrecognized names fall back to the default.
    pub method: String,
}

/// The salience method a method name denotes.
pub open spec fn spec_resolve_method(name: Seq<char>) -> SalienceMethod {
    if name == "idf_norm"@ {
        SalienceMethod::IdfNorm
    } else {
        SalienceMethod::NormOnly
    }
}

/// Maps a salience method name to its method; an unrecognized name is not an
/// error and denotes the default.
pub fn resolve_method(name: &str) -> (m: SalienceMethod)
    ensures
        m == spec_resolve_method(name@),
{
    let key: String = "idf_norm".to_owned();
    if name.to_owned() == key {
        SalienceMethod::IdfNorm
    } else {
        SalienceMethod::NormOnly
    }
}

impl PruneConfig {
    /// The salience method this configuration selects.
    pub fn method_kind(&self) -> (m: SalienceMethod)
        ensures
            m == spec_resolve_method(self.method@),
    {
        resolve_method(self.method.as_str())
    }
}

/// Index `a` outranks index `b`: its key is strictly larger, or the keys are
/// equal and `a` is the earlier original position.
pub open spec fn precedes(keys: Seq<u64>, a: int, b: int) -> bool {
    keys[a] > keys[b] || (keys[a] == keys[b] && a < b)
}

/// No position of `s` repeats.
pub open spec fn distinct_indices(s: Seq<usize>) -> bool {
    forall|i: int, j: int| 0 <= i < j < s.len() ==> s[i] != s[j]
}

/// `order` lists every index below `n` exactly once.
pub open spec fn is_index_permutation(order: Seq<usize>, n: nat) -> bool {
    &&& order.len() == n
    &&& forall|i: int| 0 <= i < order.len() ==> (#[trigger] order[i]) < n
    &&& distinct_indices(order)
    &&& forall|v: usize| v < n ==> order.contains(v)
}

/// `order` is sorted best-first: descending key, ties broken by ascending
/// original index.
pub open spec fn sorted_by_salience(keys: Seq<u64>, order: Seq<usize>) -> bool {
    forall|i: int, j: int|
        0 <= i < j < order.len() ==> precedes(keys, #[trigger] order[i] as int, #[trigger] order[j] as int)
}

/// Ranks the positions of `keys` best-first: descending key, an equal key
/// won by the earlier position. The result lists every position exactly
/// once, so it is the (unique) stable descending sort of the key sequence.
pub fn rank_by_salience(keys: &Vec<u64>) -> (order: Vec<usize>)
    ensures
        is_index_permutation(order@, keys@.len()),
        sorted_by_salience(keys@, order@),
{
    let n = keys.len();
    let mut order: Vec<usize> = Vec::new();
    let mut i: usize = 0;
    while i < n
        invariant
            n == keys@.len(),
            i <= n,
            order@.len() == i,
            forall|j: int| 0 <= j < order@.len() ==> (#[trigger] order@[j]) < i,
            forall|j: int, k: int| 0 <= j < k < order@.len() ==> order@[j] != order@[k],
            forall|v: usize| v < i ==> order@.contains(v),
            sorted_by_salience(keys@, order@),
        decreases n - i,
    {
        let ki = keys[i];
        let mut p: usize = 0;
        while p < order.len() && keys[order[p]] >= ki
            invariant
                n == keys@.len(),
                i < n,
                order@.len() == i,
                forall|j: int| 0 <= j < order@.len() ==> (#[trigger] order@[j]) < i,
                forall|j: int, k: int| 0 <= j < k < order@.len() ==> order@[j] != order@[k],
                forall|v: usize| v < i ==> order@.contains(v),
                sorted_by_salience(keys@, order@),
                p <= order@.len(),
                forall|j: int| 0 <= j < p ==> keys@[(#[trigger] order@[j]) as int] >= ki,
            decreases order@.len() - p,
        {
            p = p + 1;
        }
        let ghost prev = order@;
        order.insert(p, i);
        proof {
            assert(order@ =~= prev.subrange(0, p as int).push(i) + prev.subrange(
                p as int,
                prev.len() as int,
            ));
            assert forall|j: int, k: int| 0 <= j < k < order@.len() implies precedes(
                keys@,
                order@[j] as int,
                order@[k] as int,
            ) by {
                if k == p {
                    // order[j] kept a key at least as large as ki and sits at
                    // an earlier original position than i
                    assert(keys@[order@[j] as int] >= ki);
                } else if j == p {
                    // every entry past the insertion point lost to ki
                    assert(keys@[prev[p as int] as int] < ki);
                    if k > p + 1 {
                        assert(precedes(keys@, prev[p as int] as int, prev[k - 1] as int));
                    }
                }
            }
            assert forall|v: usize| v < i + 1 implies order@.contains(v) by {
                if v < i {
                    assert(prev.contains(v));
                    let j = choose|j: int| 0 <= j < prev.len() && prev[j] == v;
                    assert(0 <= j < prev.len() && prev[j] == v);
                    if j < p {
                        assert(order@[j] == v);
                    } else {
                        assert(order@[j + 1] == v);
                    }
                } else {
                    assert(order@[p as int] == v);
                }
            }
        }
        i = i + 1;
    }
    order
}

/// Every index kept in `sel` outranks every index of `keys` left out of it:
/// `sel` really is a best-first selection from `keys`.
pub open spec fn selection_dominates(keys: Seq<u64>, sel: Seq<usize>) -> bool {
    forall|i: int, v: usize|
        #![trigger sel[i], sel.contains(v)]
        0 <= i < sel.len() && v < keys.len() && !sel.contains(v) ==> precedes(
            keys,
            sel[i] as int,
            v as int,
        )
}

/// Picks the `k` best-scoring documents, best first. `keys` holds one score
/// key per document, at the document's index; `k` larger than the collection
/// is clamped, never an error. The result is ordered by descending key with
/// an equal key won by the lower document index, lists no document twice,
/// and leaves out only documents that every listed one outranks.
pub fn select_topk(keys: &Vec<u64>, k: usize) -> (top: Vec<usize>)
    ensures
        top@.len() == (if k <= keys@.len() { k as int } else { keys@.len() as int }),
        forall|i: int| 0 <= i < top@.len() ==> (#[trigger] top@[i]) < keys@.len(),
        distinct_indices(top@),
        sorted_by_salience(keys@, top@),
        forall|i: int, j: int|
            0 <= i < j < top@.len() ==> keys@[(#[trigger] top@[i]) as int] >= keys@[(
            #[trigger] top@[j]) as int],
        selection_dominates(keys@, top@),
{
    let order = rank_by_salience(keys);
    let ghost whole = order@;
    let mut top = order;
    if k < top.len() {
        top.truncate(k);
    }
    proof {
        let n = keys@.len();
        assert(top@ =~= whole.subrange(0, top@.len() as int));
        assert forall|i: int, v: usize|
            0 <= i < top@.len() && v < n && !top@.contains(v) implies precedes(
            keys@,
            top@[i] as int,
            v as int,
        ) by {
            assert(whole.contains(v));
            let b = choose|b: int| 0 <= b < whole.len() && whole[b] == v;
            assert(0 <= b < whole.len() && whole[b] == v);
            // v was cut, so it sits past the cut point, after position i
            if b < top@.len() {
                assert(top@[b] == v);
                assert(top@.contains(v));
            }
            assert(b >= top@.len());
        }
    }
    top
}

proof fn lemma_ranked_selection_unique_from(keys: Seq<u64>, a: Seq<usize>, b: Seq<usize>, i: int)
    requires
        a.len() == b.len(),
        forall|j: int| 0 <= j < a.len() ==> (#[trigger] a[j]) < keys.len(),
        forall|j: int| 0 <= j < b.len() ==> (#[trigger] b[j]) < keys.len(),
        distinct_indices(a),
        distinct_indices(b),
        sorted_by_salience(keys, a),
        sorted_by_salience(keys, b),
        selection_dominates(keys, a),
        selection_dominates(keys, b),
        0 <= i <= a.len(),
        a.subrange(0, i) =~= b.subrange(0, i),
    ensures
        a =~= b,
    decreases a.len() - i,
{
    if i < a.len() {
        assert(a[i] == b[i]) by {
            if a[i] != b[i] {
                assert(precedes(keys, a[i] as int, b[i] as int)) by {
                    if a.contains(b[i] as usize) {
                        let j = choose|j: int| 0 <= j < a.len() && a[j] == b[i];
                        assert(0 <= j < a.len() && a[j] == b[i]);
                        if j < i {
                            // the common prefix would repeat b[i] inside b
                            assert(b.subrange(0, i)[j] == a[j]);
                            assert(b[j] == b[i]);
                        }
                        assert(j > i);
                    }
                }
                assert(precedes(keys, b[i] as int, a[i] as int)) by {
                    if b.contains(a[i] as usize) {
                        let j = choose|j: int| 0 <= j < b.len() && b[j] == a[i];
                        assert(0 <= j < b.len() && b[j] == a[i]);
                        if j < i {
                            assert(a.subrange(0, i)[j] == b[j]);
                            assert(a[j] == a[i]);
                        }
                        assert(j > i);
                    }
                }
            }
        }
        assert(a.subrange(0, i + 1) =~= b.subrange(0, i + 1));
        lemma_ranked_selection_unique_from(keys, a, b, i + 1);
    } else {
        assert(a =~= a.subrange(0, i));
        assert(b =~= b.subrange(0, i));
    }
}

/// The ranked output is a function of the score keys and the cut size alone:
/// any two selections of the same size that are ordered best-first, list no
/// document twice, and outrank everything they leave out, coincide. However
/// the per-document scoring work is scheduled, its completion order can
/// never show in the ranking.
pub proof fn lemma_ranked_selection_unique(keys: Seq<u64>, a: Seq<usize>, b: Seq<usize>)
    requires
        a.len() == b.len(),
        forall|j: int| 0 <= j < a.len() ==> (#[trigger] a[j]) < keys.len(),
        forall|j: int| 0 <= j < b.len() ==> (#[trigger] b[j]) < keys.len(),
        distinct_indices(a),
        distinct_indices(b),
        sorted_by_salience(keys, a),
        sorted_by_salience(keys, b),
        selection_dominates(keys, a),
        selection_dominates(keys, b),
    ensures
        a =~= b,
{
    lemma_ranked_selection_unique_from(keys, a, b, 0);
}

proof fn lemma_selected_set_pinned(keys: Seq<u64>, a: Seq<usize>, b: Seq<usize>, x: usize)
    requires
        a.len() == b.len(),
        forall|j: int| 0 <= j < a.len() ==> (#[trigger] a[j]) < keys.len(),
        forall|j: int| 0 <= j < b.len() ==> (#[trigger] b[j]) < keys.len(),
        distinct_indices(a),
        distinct_indices(b),
        selection_dominates(keys, a),
        selection_dominates(keys, b),
        a.contains(x),
    ensures
        b.contains(x),
{
    broadcast use vstd::seq_lib::seq_to_set_is_finite;
    broadcast use vstd::set::group_set_axioms;

    if !b.contains(x) {
        // every member of b also stands in a, away from x: a document outside
        // a would be outranked by x yet outrank x, which the strict ranking
        // order forbids
        assert forall|y: usize| #[trigger] b.contains(y) implies a.contains(y) && y != x by {
            if !a.contains(y) {
                let i = choose|i: int| 0 <= i < a.len() && a[i] == x;
                assert(0 <= i < a.len() && a[i] == x);
                let j = choose|j: int| 0 <= j < b.len() && b[j] == y;
                assert(0 <= j < b.len() && b[j] == y);
                assert(precedes(keys, x as int, y as int));
                assert(precedes(keys, y as int, x as int));
            }
        }
        // so b's members fit into a's with x removed, one member short
        assert(a.no_duplicates());
        assert(b.no_duplicates());
        a.unique_seq_to_set();
        b.unique_seq_to_set();
        assert(b.to_set().subset_of(a.to_set().remove(x)));
        vstd::set_lib::lemma_len_subset(b.to_set(), a.to_set().remove(x));
        assert(a.to_set().remove(x).len() == a.to_set().len() - 1);
    }
}

/// The pruned output is a function of the salience keys and the budget
/// alone: any two same-size selections that are presented in ascending
/// original order, list no position twice, and outrank every position they
/// leave out, coincide. Together with `prune_indices`'s contract this pins
/// the pruned sequence exactly, as downstream positional use requires.
pub proof fn lemma_pruned_selection_unique(keys: Seq<u64>, a: Seq<usize>, b: Seq<usize>)
    requires
        a.len() == b.len(),
        forall|j: int| 0 <= j < a.len() ==> (#[trigger] a[j]) < keys.len(),
        forall|j: int| 0 <= j < b.len() ==> (#[trigger] b[j]) < keys.len(),
        forall|i: int, j: int| 0 <= i < j < a.len() ==> a[i] < a[j],
        forall|i: int, j: int| 0 <= i < j < b.len() ==> b[i] < b[j],
        selection_dominates(keys, a),
        selection_dominates(keys, b),
    ensures
        a =~= b,
{
    broadcast use vstd::seq_lib::group_to_multiset_ensures;
    broadcast use vstd::multiset::group_multiset_axioms;

    assert forall|x: usize| a.contains(x) <==> b.contains(x) by {
        if a.contains(x) {
            lemma_selected_set_pinned(keys, a, b, x);
        }
        if b.contains(x) {
            lemma_selected_set_pinned(keys, b, a, x);
        }
    }
    a.lemma_multiset_has_no_duplicates();
    b.lemma_multiset_has_no_duplicates();
    assert(a.to_multiset() =~= b.to_multiset()) by {
        assert forall|e: usize| a.to_multiset().count(e) == b.to_multiset().count(e) by {
            if a.contains(e) {
                assert(b.contains(e));
            } else {
                assert(!b.contains(e));
                assert(a.to_multiset().count(e) == 0);
                assert(b.to_multiset().count(e) == 0);
            }
        }
    }
    let ascending = |x: usize, y: usize| x <= y;
    assert(vstd::relations::total_ordering(ascending)) by {
        assert forall|x: usize, y: usize| #[trigger] ascending(x, y) || ascending(y, x) by {}
    }
    assert(vstd::relations::sorted_by(a, ascending));
    assert(vstd::relations::sorted_by(b, ascending));
    vstd::seq_lib::lemma_sorted_unique(a, b, ascending);
}

/// Reorders a duplicate-free list of indices into ascending order. The
/// result holds exactly the same indices.
fn sort_indices_ascending(v: Vec<usize>) -> (r: Vec<usize>)
    requires
        distinct_indices(v@),
    ensures
        r@.len() == v@.len(),
        forall|i: int, j: int| 0 <= i < j < r@.len() ==> r@[i] < r@[j],
        forall|x: usize| r@.contains(x) <==> v@.contains(x),
{
    let mut r: Vec<usize> = Vec::new();
    let mut i: usize = 0;
    while i < v.len()
        invariant
            i <= v@.len(),
            distinct_indices(v@),
            r@.len() == i,
            forall|j: int, k: int| 0 <= j < k < r@.len() ==> r@[j] < r@[k],
            forall|x: usize| r@.contains(x) <==> v@.subrange(0, i as int).contains(x),
        decreases v@.len() - i,
    {
        let x = v[i];
        proof {
            assert(!r@.contains(x)) by {
                if r@.contains(x) {
                    let j = choose|j: int| 0 <= j < i && v@.subrange(0, i as int)[j] == x;
                    assert(v@[j] == v@[i as int]);
                }
            }
        }
        let mut p: usize = 0;
        while p < r.len() && r[p] < x
            invariant
                p <= r@.len(),
                forall|j: int, k: int| 0 <= j < k < r@.len() ==> r@[j] < r@[k],
                forall|j: int| 0 <= j < p ==> (#[trigger] r@[j]) < x,
            decreases r@.len() - p,
        {
            p = p + 1;
        }
        let ghost prev = r@;
        r.insert(p, x);
        proof {
            assert(r@ =~= prev.subrange(0, p as int).push(x) + prev.subrange(
                p as int,
                prev.len() as int,
            ));
            assert forall|j: int, k: int| 0 <= j < k < r@.len() implies r@[j] < r@[k] by {
                if k == p {
                    assert(prev[j] < x);
                } else if j == p {
                    // prev[p] stopped the scan and x is absent from prev
                    assert(prev[k - 1] >= x);
                    assert(prev[k - 1] != x);
                }
            }
            assert forall|y: usize| r@.contains(y) <==> v@.subrange(0, i as int + 1).contains(
                y,
            ) by {
                if r@.contains(y) {
                    let j = choose|j: int| 0 <= j < r@.len() && r@[j] == y;
                    assert(0 <= j < r@.len() && r@[j] == y);
                    if j < p {
                        assert(prev[j] == y);
                        assert(prev.contains(y));
                    } else if j > p {
                        assert(prev[j - 1] == y);
                        assert(prev.contains(y));
                    }
                    if y == x {
                        assert(v@.subrange(0, i as int + 1)[i as int] == y);
                        assert(v@.subrange(0, i as int + 1).contains(y));
                    } else {
                        assert(prev.contains(y));
                        assert(v@.subrange(0, i as int).contains(y));
                        let jj = choose|jj: int|
                            0 <= jj < i && (#[trigger] v@.subrange(0, i as int)[jj]) == y;
                        assert(v@.subrange(0, i as int + 1)[jj] == y);
                        assert(v@.subrange(0, i as int + 1).contains(y));
                    }
                }
                if v@.subrange(0, i as int + 1).contains(y) {
                    if y == x {
                        assert(r@[p as int] == y);
                        assert(r@.contains(y));
                    } else {
                        let jj = choose|jj: int|
                            0 <= jj < i + 1 && (#[trigger] v@.subrange(0, i as int + 1)[jj]) == y;
                        assert(0 <= jj < i + 1 && v@.subrange(0, i as int + 1)[jj] == y);
                        assert(jj < i);
                        assert(v@.subrange(0, i as int)[jj] == y);
                        assert(v@.subrange(0, i as int).contains(y));
                        assert(prev.contains(y));
                        let j = choose|j: int| 0 <= j < prev.len() && prev[j] == y;
                        assert(0 <= j < prev.len() && prev[j] == y);
                        if j < p {
                            assert(r@[j] == y);
                        } else {
                            assert(r@[j + 1] == y);
                        }
                        assert(r@.contains(y));
                    }
                }
            }
        }
        i = i + 1;
    }
    proof {
        assert(v@.subrange(0, i as int) =~= v@);
    }
    r
}

/// Prunes a token sequence to its `max_n` most salient members, presented by
/// index. `keys` holds one salience key per token, at the token's original
/// position. A sequence already within the budget is kept whole, in order;
/// otherwise the `max_n` best positions survive — descending key, an equal
/// key won by the earlier position — and the survivors are listed in their
/// original relative order.
pub fn prune_indices(keys: &Vec<u64>, max_n: usize) -> (kept: Vec<usize>)
    ensures
        kept@.len() == (if keys@.len() <= max_n { keys@.len() as int } else { max_n as int }),
        keys@.len() <= max_n ==> forall|i: int| 0 <= i < kept@.len() ==> (#[trigger] kept@[i]) == i,
        forall|i: int| 0 <= i < kept@.len() ==> (#[trigger] kept@[i]) < keys@.len(),
        forall|i: int, j: int| 0 <= i < j < kept@.len() ==> kept@[i] < kept@[j],
        selection_dominates(keys@, kept@),
{
    let n = keys.len();
    if n <= max_n {
        // within budget: the whole sequence survives, in order
        let mut kept: Vec<usize> = Vec::new();
        let mut i: usize = 0;
        while i < n
            invariant
                i <= n,
                kept@.len() == i,
                forall|j: int| 0 <= j < kept@.len() ==> (#[trigger] kept@[j]) == j,
            decreases n - i,
        {
            kept.push(i);
            i = i + 1;
        }
        proof {
            assert forall|i2: int, v: usize|
                0 <= i2 < kept@.len() && v < keys@.len() && !kept@.contains(v) implies precedes(
                keys@,
                kept@[i2] as int,
                v as int,
            ) by {
                assert(kept@[v as int] == v);
            }
        }
        kept
    } else {
        let top = select_topk(keys, max_n);
        let ghost chosen = top@;
        let kept = sort_indices_ascending(top);
        proof {
            assert forall|i: int| 0 <= i < kept@.len() implies (#[trigger] kept@[i])
                < keys@.len() by {
                assert(kept@.contains(kept@[i]));
                let b = choose|b: int| 0 <= b < chosen.len() && chosen[b] == kept@[i];
                assert(0 <= b < chosen.len() && chosen[b] == kept@[i]);
            }
            assert forall|i: int, v: usize|
                0 <= i < kept@.len() && v < keys@.len() && !kept@.contains(v) implies precedes(
                keys@,
                kept@[i] as int,
                v as int,
            ) by {
                assert(kept@.contains(kept@[i]));
                let a = choose|a: int| 0 <= a < chosen.len() && chosen[a] == kept@[i];
                assert(0 <= a < chosen.len() && chosen[a] == kept@[i]);
                assert(!chosen.contains(v));
                assert(precedes(keys@, chosen[a] as int, v as int));
            }
        }
        kept
    }
}

} // verus!
