//! The global properties of the design: the singleton bound never
//! undercounts what a candidate list can still contribute, a larger budget
//! never shrinks the optimal selection size, and every selection the search
//! describes is bounded by the optimum.

use vstd::prelude::*;
use vstd::relations::injective_on;
use vstd::set_lib::lemma_len_subset;
use vstd::set_lib::lemma_map_size;
use crate::engine::count_singular;
use crate::engine::selection_describes;
use crate::engine::singleton_bound_value;
use crate::model::Item;
use crate::model::feasible_selection;
use crate::model::is_best;
use crate::model::item_singular;
use crate::model::lemma_card_one_private;
use crate::model::lemma_idx_set;
use crate::model::lemma_union_req;
use crate::model::lists_of;
use crate::model::req_set;
use crate::model::resource_card;
use crate::model::union_req;

verus! {

/// Splitting a finite set by a predicate splits its cardinality.
proof fn lemma_filter_partition<A>(s: Set<A>, f: spec_fn(A) -> bool)
    requires
        s.finite(),
    ensures
        s.filter(f).len() + s.filter(|x: A| !f(x)).len() == s.len(),
    decreases s.len(),
{
    if s.is_empty() {
        assert(s.filter(f) =~= Set::<A>::empty());
        assert(s.filter(|x: A| !f(x)) =~= Set::<A>::empty());
    } else {
        let a = s.choose();
        let rest = s.remove(a);
        lemma_filter_partition(rest, f);
        if f(a) {
            assert(s.filter(f) =~= rest.filter(f).insert(a));
            assert(s.filter(|x: A| !f(x)) =~= rest.filter(|x: A| !f(x)));
        } else {
            assert(s.filter(f) =~= rest.filter(f));
            assert(s.filter(|x: A| !f(x)) =~= rest.filter(|x: A| !f(x)).insert(a));
        }
    }
}

/// The singular count of a duplicate-free candidate list is the cardinality
/// of its set of singular-flagged entries.
proof fn lemma_count_singular_as_set(items: Seq<Item>, cands: Seq<usize>)
    requires
        cands.no_duplicates(),
    ensures
        count_singular(items, cands) == cands.to_set().filter(
            |x: usize| items[x as int].singular,
        ).len(),
        cands.to_set().filter(|x: usize| items[x as int].singular).finite(),
    decreases cands.len(),
{
    broadcast use vstd::seq_lib::group_seq_properties;

    let f = |x: usize| items[x as int].singular;
    if cands.len() == 0 {
        assert(cands.to_set().filter(f) =~= Set::<usize>::empty());
    } else {
        let dl = cands.drop_last();
        let last = cands.last();
        lemma_count_singular_as_set(items, dl);
        assert(!dl.contains(last));
        assert(cands.to_set() =~= dl.to_set().insert(last));
        if f(last) {
            assert(cands.to_set().filter(f) =~= dl.to_set().filter(f).insert(last));
            assert(!dl.to_set().filter(f).contains(last));
        } else {
            assert(cands.to_set().filter(f) =~= dl.to_set().filter(f));
        }
    }
}

/// The singleton bound is admissible even part-way through a search: with a
/// load already committed — a load that uses none of the candidates' private
/// resources — no duplicate-free sub-selection of the candidates that still
/// fits beside the load can hold more items than the bound computed with the
/// remaining budget. Singular candidates each consume a resource of
/// cardinality one, so at most the remaining budget of them fit; the rest
/// are counted outright.
pub proof fn lemma_singleton_bound_admissible_loaded(
    items: Seq<Item>,
    cands: Seq<usize>,
    load: Set<int>,
    budget: nat,
    t: Seq<usize>,
)
    requires
        cands.no_duplicates(),
        forall|k: int| 0 <= k < cands.len() ==> (#[trigger] cands[k] as int) < items.len(),
        forall|i: int|
            0 <= i < items.len() && (#[trigger] items[i]).singular
                ==> item_singular(lists_of(items), items[i].req_indices@),
        load.finite(),
        load.len() <= budget,
        // every loaded resource is required by some non-candidate item
        forall|j: int| #[trigger] load.contains(j)
            ==> exists|i: usize|
                (i as int) < items.len() && req_set(items[i as int]).contains(j)
                    && !cands.contains(i),
        t.no_duplicates(),
        forall|k: int| 0 <= k < t.len() ==> cands.contains(#[trigger] t[k]),
        union_req(items, t).union(load).len() <= budget,
    ensures
        t.len() <= singleton_bound_value(items, cands, (budget - load.len()) as nat),
{
    broadcast use vstd::seq_lib::group_seq_properties;
    broadcast use vstd::set_lib::group_set_properties;

    let lists = lists_of(items);
    let sing = |x: usize| items[x as int].singular;
    let not_sing = |x: usize| !sing(x);
    let a = t.to_set();
    let cset = cands.to_set();
    t.unique_seq_to_set();
    cands.unique_seq_to_set();
    assert(a.subset_of(cset));
    assert forall|k: int| 0 <= k < t.len() implies (#[trigger] t[k] as int) < items.len() by {
        let q = choose|q: int| 0 <= q < cands.len() && cands[q] == t[k];
    }
    lemma_union_req(items, t);
    let uni = union_req(items, t);
    let w = uni.union(load);

    let a_sing = a.filter(sing);
    let a_non = a.filter(not_sing);
    lemma_filter_partition(a, sing);
    assert(a_non =~= a.filter(|x: usize| !sing(x)));

    let c_sing = cset.filter(sing);
    let c_non = cset.filter(not_sing);
    lemma_filter_partition(cset, sing);
    assert(c_non =~= cset.filter(|x: usize| !sing(x)));
    lemma_count_singular_as_set(items, cands);
    let s = count_singular(items, cands);
    assert(c_sing.len() == s);

    assert(a_sing.subset_of(c_sing));
    lemma_len_subset(a_sing, c_sing);
    assert(a_non.subset_of(c_non));
    lemma_len_subset(a_non, c_non);
    assert(c_non.len() == cands.len() - s);

    // every singular selected item owns a private resource inside the union
    let pick = |x: usize|
        choose|j: int|
            req_set(items[x as int]).contains(j) && resource_card(lists, j) == 1;
    assert forall|x: usize| #[trigger] a_sing.contains(x) implies req_set(
        items[x as int],
    ).contains(pick(x)) && resource_card(lists, pick(x)) == 1 by {
        assert(items[x as int].singular);
        assert(item_singular(lists, items[x as int].req_indices@));
        let k = choose|k: int|
            0 <= k < items[x as int].req_indices@.len() && resource_card(
                lists,
                items[x as int].req_indices@[k] as int,
            ) == 1;
        lemma_idx_set(items[x as int].req_indices@);
        assert(req_set(items[x as int]).contains(items[x as int].req_indices@[k] as int));
    }
    assert(injective_on(pick, a_sing)) by {
        assert forall|x1: usize, x2: usize|
            a_sing.contains(x1) && a_sing.contains(x2) && x1 != x2 implies #[trigger] pick(x1)
            != #[trigger] pick(x2) by {
            if pick(x1) == pick(x2) {
                assert(lists[x1 as int] == items[x1 as int].req_indices@);
                assert(lists[x2 as int] == items[x2 as int].req_indices@);
                lemma_card_one_private(lists, pick(x1), x1 as int, x2 as int);
            }
        }
    }
    // a private resource of a candidate cannot already be loaded
    assert forall|x: usize| #[trigger] a_sing.contains(x) implies !load.contains(pick(x)) by {
        if load.contains(pick(x)) {
            let i = choose|i: usize|
                (i as int) < items.len() && req_set(items[i as int]).contains(pick(x))
                    && !cands.contains(i);
            assert(cset.contains(x));
            assert(i != x);
            assert(lists[x as int] == items[x as int].req_indices@);
            assert(lists[i as int] == items[i as int].req_indices@);
            lemma_card_one_private(lists, pick(x), x as int, i as int);
        }
    }
    let b = a_sing.map(pick);
    lemma_map_size(a_sing, b, pick);
    let w_free = w.filter(|j: int| !load.contains(j));
    assert(b.subset_of(w_free)) by {
        assert forall|j: int| #[trigger] b.contains(j) implies w_free.contains(j) by {
            let x = choose|x: usize| a_sing.contains(x) && j == pick(x);
            let k = choose|k: int| 0 <= k < t.len() && t[k] == x;
            assert(req_set(items[t[k] as int]).contains(j));
            assert(uni.contains(j));
            assert(!load.contains(j));
        }
    }
    lemma_filter_partition(w, |j: int| load.contains(j));
    assert(w.filter(|j: int| load.contains(j)) =~= load);
    assert(w_free =~= w.filter(|j: int| !(|j2: int| load.contains(j2))(j)));
    lemma_len_subset(b, w_free);
    assert(a_sing.len() <= budget - load.len());
    assert(t.len() == a_sing.len() + a_non.len());
}

/// The singleton bound is admissible: however the requirement sets interact,
/// no duplicate-free sub-selection of the candidates whose combined
/// requirements fit the budget can hold more items than the bound.
pub proof fn lemma_singleton_bound_admissible(
    items: Seq<Item>,
    cands: Seq<usize>,
    budget: nat,
    t: Seq<usize>,
)
    requires
        cands.no_duplicates(),
        forall|k: int| 0 <= k < cands.len() ==> (#[trigger] cands[k] as int) < items.len(),
        forall|i: int|
            0 <= i < items.len() && (#[trigger] items[i]).singular
                ==> item_singular(lists_of(items), items[i].req_indices@),
        t.no_duplicates(),
        forall|k: int| 0 <= k < t.len() ==> cands.contains(#[trigger] t[k]),
        union_req(items, t).len() <= budget,
    ensures
        t.len() <= singleton_bound_value(items, cands, budget),
{
    lemma_union_req(items, t);
    assert forall|k: int| 0 <= k < t.len() implies (#[trigger] t[k] as int) < items.len() by {
        let q = choose|q: int| 0 <= q < cands.len() && cands[q] == t[k];
    }
    assert(union_req(items, t).union(Set::<int>::empty()) =~= union_req(items, t));
    lemma_singleton_bound_admissible_loaded(items, cands, Set::<int>::empty(), budget, t);
}

/// Any selection that is feasible under one budget stays feasible under a
/// larger budget.
pub proof fn lemma_feasible_budget_monotone(
    pairs: Seq<(Vec<String>, String)>,
    b1: nat,
    b2: nat,
    sel: Seq<int>,
)
    requires
        b1 <= b2,
        feasible_selection(pairs, b1, sel),
    ensures
        feasible_selection(pairs, b2, sel),
{
}

/// Raising the budget never shrinks the optimal selection size.
pub proof fn lemma_optimum_budget_monotone(
    pairs: Seq<(Vec<String>, String)>,
    b1: nat,
    b2: nat,
    n1: nat,
    n2: nat,
)
    requires
        b1 <= b2,
        is_best(pairs, b1, n1),
        is_best(pairs, b2, n2),
    ensures
        n1 <= n2,
{
    let sel = choose|sel: Seq<int>| feasible_selection(pairs, b1, sel) && sel.len() == n1;
    lemma_feasible_budget_monotone(pairs, b1, b2, sel);
}

/// What the search returns is the optimum: its result is itself a feasible
/// selection, and — by the search's own guarantee — no feasible selection is
/// larger, so its size equals the optimal selection size exactly.
pub proof fn lemma_search_result_is_optimum(
    pairs: Seq<(Vec<String>, String)>,
    budget: nat,
    sel: Seq<int>,
    out: Seq<Item>,
    n: nat,
)
    requires
        selection_describes(pairs, budget, sel, out),
        forall|s2: Seq<int>|
            #[trigger] feasible_selection(pairs, budget, s2) ==> s2.len() <= out.len(),
        is_best(pairs, budget, n),
    ensures
        out.len() == n,
{
    let witness = choose|s2: Seq<int>| feasible_selection(pairs, budget, s2) && s2.len() == n;
    assert(witness.len() <= out.len());
}

} // verus!

verus! {

/// Filtering a duplicate-free sequence keeps it duplicate-free, splits its
/// length with the complementary filter, and keeps exactly the matching
/// entries.
pub proof fn lemma_filter_props<A>(s: Seq<A>, p: spec_fn(A) -> bool, q: spec_fn(A) -> bool)
    requires
        s.no_duplicates(),
        forall|x: A| #[trigger] q(x) <==> !p(x),
    ensures
        s.filter(p).no_duplicates(),
        s.filter(q).no_duplicates(),
        s.filter(p).len() + s.filter(q).len() == s.len(),
        forall|x: A| #[trigger] s.filter(p).contains(x) <==> s.contains(x) && p(x),
        forall|x: A| #[trigger] s.filter(q).contains(x) <==> s.contains(x) && !p(x),
    decreases s.len(),
{
    reveal(Seq::filter);
    if s.len() == 0 {
    } else {
        let dl = s.drop_last();
        let last = s.last();
        lemma_filter_props(dl, p, q);
        assert forall|x: A| #[trigger] s.contains(x) implies dl.contains(x) || x == last by {
            let i = choose|i: int| 0 <= i < s.len() && s[i] == x;
            if i < s.len() - 1 {
                assert(dl[i] == x);
            }
        }
        assert(forall|x: A| dl.contains(x) ==> #[trigger] s.contains(x));
        assert(s.contains(last));
        if p(last) {
            assert(s.filter(p) == dl.filter(p).push(last));
            assert(s.filter(q) == dl.filter(q));
            assert forall|x: A| #[trigger] s.filter(q).contains(x)
                implies s.contains(x) && !p(x) by {
                assert(dl.filter(q).contains(x));
            }
            assert forall|x: A| s.contains(x) && !p(x)
                implies #[trigger] s.filter(q).contains(x) by {
                assert(x != last);
                assert(dl.contains(x));
            }
            assert(!dl.filter(p).contains(last)) by {
                if dl.filter(p).contains(last) {
                    assert(dl.contains(last));
                    let i = choose|i: int| 0 <= i < dl.len() && dl[i] == last;
                    assert(s[i] == s[s.len() - 1]);
                }
            }
            assert forall|x: A| #[trigger] s.filter(p).contains(x)
                implies s.contains(x) && p(x) by {
                let i = choose|i: int| 0 <= i < s.filter(p).len() && s.filter(p)[i] == x;
                if i < dl.filter(p).len() {
                    assert(dl.filter(p)[i] == x);
                    assert(dl.filter(p).contains(x));
                }
            }
            assert forall|x: A| s.contains(x) && p(x)
                implies #[trigger] s.filter(p).contains(x) by {
                if x == last {
                    assert(s.filter(p)[s.filter(p).len() - 1] == x);
                } else {
                    assert(dl.filter(p).contains(x));
                    let i = choose|i: int|
                        0 <= i < dl.filter(p).len() && dl.filter(p)[i] == x;
                    assert(s.filter(p)[i] == x);
                }
            }
        } else {
            assert(s.filter(p) == dl.filter(p));
            assert(s.filter(q) == dl.filter(q).push(last));
            assert(!dl.filter(q).contains(last)) by {
                if dl.filter(q).contains(last) {
                    assert(dl.contains(last));
                    let i = choose|i: int| 0 <= i < dl.len() && dl[i] == last;
                    assert(s[i] == s[s.len() - 1]);
                }
            }
            assert forall|x: A| #[trigger] s.filter(q).contains(x)
                implies s.contains(x) && !p(x) by {
                let i = choose|i: int| 0 <= i < s.filter(q).len() && s.filter(q)[i] == x;
                if i < dl.filter(q).len() {
                    assert(dl.filter(q)[i] == x);
                    assert(dl.filter(q).contains(x));
                }
            }
            assert forall|x: A| s.contains(x) && !p(x)
                implies #[trigger] s.filter(q).contains(x) by {
                if x == last {
                    assert(s.filter(q)[s.filter(q).len() - 1] == x);
                } else {
                    assert(dl.filter(q).contains(x));
                    let i = choose|i: int|
                        0 <= i < dl.filter(q).len() && dl.filter(q)[i] == x;
                    assert(s.filter(q)[i] == x);
                }
            }
            assert forall|x: A| #[trigger] s.filter(p).contains(x)
                implies s.contains(x) && p(x) by {
                assert(dl.filter(p).contains(x));
            }
            assert forall|x: A| s.contains(x) && p(x)
                implies #[trigger] s.filter(p).contains(x) by {
                assert(x != last);
                assert(dl.contains(x));
            }
        }
    }
}

} // verus!

verus! {

/// The size of the result is deterministic: any two runs of the search on
/// the same input and budget — each returning a feasible selection that no
/// feasible selection beats — return selections of one size.
pub proof fn lemma_result_size_deterministic(
    pairs: Seq<(Vec<String>, String)>,
    budget: nat,
    sel1: Seq<int>,
    out1: Seq<Item>,
    sel2: Seq<int>,
    out2: Seq<Item>,
)
    requires
        selection_describes(pairs, budget, sel1, out1),
        forall|s2: Seq<int>|
            #[trigger] feasible_selection(pairs, budget, s2) ==> s2.len() <= out1.len(),
        selection_describes(pairs, budget, sel2, out2),
        forall|s2: Seq<int>|
            #[trigger] feasible_selection(pairs, budget, s2) ==> s2.len() <= out2.len(),
    ensures
        out1.len() == out2.len(),
{
}

/// Raising the budget never shrinks what the search returns: a result under
/// the smaller budget is feasible under the larger one, which the larger
/// run's result dominates.
pub proof fn lemma_result_budget_monotone(
    pairs: Seq<(Vec<String>, String)>,
    b1: nat,
    b2: nat,
    sel1: Seq<int>,
    out1: Seq<Item>,
    out2: Seq<Item>,
)
    requires
        b1 <= b2,
        selection_describes(pairs, b1, sel1, out1),
        forall|s2: Seq<int>|
            #[trigger] feasible_selection(pairs, b2, s2) ==> s2.len() <= out2.len(),
    ensures
        out1.len() <= out2.len(),
{
    lemma_feasible_budget_monotone(pairs, b1, b2, sel1);
}

} // verus!
