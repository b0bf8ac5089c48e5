//! The search engine: an explicit-stack depth-first branch-and-bound over
//! item subsets. A popped state is pruned when a forbidden item already fits
//! inside the load, or when the singleton bound shows it can no longer beat
//! the best solution found; otherwise it forks into a branch that takes the
//! costliest candidate and one that leaves it out.

use vstd::prelude::*;
use crate::bits::ResourceBits;
use crate::bits::bits_clone;
use crate::bits::bits_count_ones;
use crate::bits::bits_get;
use crate::bits::bits_new;
use crate::bits::bits_of;
use crate::bits::bits_or_assign;
use crate::bits::lemma_ones_blank;
use crate::bits::lemma_ones_or;
use crate::bits::ones;
use crate::laws::lemma_filter_props;
use crate::laws::lemma_singleton_bound_admissible_loaded;
use vstd::set_lib::lemma_len_subset;
use crate::cost::amortized_cost;
use crate::model::Item;
use crate::model::eligible;
use crate::model::feasible_selection;
use crate::model::feasible_items;
use crate::model::is_optimal_items;
use crate::model::item_singular;
use crate::model::item_wf;
use crate::model::lemma_optimal_exists;
use crate::model::lemma_union_req_submono;
use crate::model::lists_of;
use crate::model::lemma_idx_set;
use crate::model::lemma_item_ones;
use crate::model::lemma_union_req;
use crate::model::lemma_union_req_push;
use crate::model::lemma_union_strs;
use crate::model::pair_strs;
use crate::model::req_set;
use crate::model::union_req;
use crate::model::union_strs;

verus! {

/// How many of the listed candidates carry the singular flag.
pub open spec fn count_singular(items: Seq<Item>, cands: Seq<usize>) -> int
    decreases cands.len(),
{
    if cands.len() == 0 {
        0
    } else {
        count_singular(items, cands.drop_last()) + if items[cands.last() as int].singular {
            1int
        } else {
            0int
        }
    }
}

/// The singleton bound: every non-singular candidate is optimistically
/// counted, while singular candidates — each consuming a resource no other
/// item shares — are capped by the remaining budget.
pub open spec fn singleton_bound_value(items: Seq<Item>, cands: Seq<usize>, left: nat) -> int {
    let s = count_singular(items, cands);
    (cands.len() - s) + if s <= left { s } else { left as int }
}

pub proof fn lemma_count_singular_bounds(items: Seq<Item>, cands: Seq<usize>)
    ensures
        0 <= count_singular(items, cands) <= cands.len(),
    decreases cands.len(),
{
    if cands.len() > 0 {
        lemma_count_singular_bounds(items, cands.drop_last());
    }
}

/// A positive singular count names a singular candidate.
pub proof fn lemma_count_singular_pos(items: Seq<Item>, cands: Seq<usize>)
    requires
        count_singular(items, cands) >= 1,
    ensures
        exists|k: int| 0 <= k < cands.len() && items[#[trigger] cands[k] as int].singular,
    decreases cands.len(),
{
    if items[cands.last() as int].singular {
        assert(items[cands[cands.len() - 1] as int].singular);
    } else {
        lemma_count_singular_pos(items, cands.drop_last());
        let k = choose|k: int|
            0 <= k < cands.drop_last().len() && items[
                #[trigger] cands.drop_last()[k] as int
            ].singular;
        assert(items[cands[k] as int].singular);
    }
}

/// Upper-bounds how many more of the remaining candidates could still be
/// added with `ingredient_budget` resources left.
pub fn singleton_bound(
    items: &Vec<Item>,
    candidates: &Vec<usize>,
    ingredient_budget: usize,
) -> (r: usize)
    requires
        forall|k: int|
            0 <= k < candidates@.len() ==> (#[trigger] candidates@[k] as int) < items@.len(),
    ensures
        r == singleton_bound_value(items@, candidates@, ingredient_budget as nat),
{
    let mut n_singular: usize = 0;
    let mut k: usize = 0;
    while k < candidates.len()
        invariant
            k <= candidates@.len(),
            forall|kk: int|
                0 <= kk < candidates@.len()
                    ==> (#[trigger] candidates@[kk] as int) < items@.len(),
            n_singular == count_singular(items@, candidates@.take(k as int)),
            n_singular <= k,
        decreases candidates@.len() - k,
    {
        proof {
            assert(candidates@.take(k + 1).drop_last() =~= candidates@.take(k as int));
            assert(candidates@.take(k + 1).last() == candidates@[k as int]);
        }
        if items[candidates[k]].singular {
            n_singular = n_singular + 1;
        }
        k = k + 1;
    }
    proof {
        assert(candidates@.take(candidates@.len() as int) =~= candidates@);
    }
    let rest = candidates.len() - n_singular;
    if n_singular <= ingredient_budget {
        rest + n_singular
    } else {
        rest + ingredient_budget
    }
}

/// Whether an item's requirements are already wholly inside the load.
fn req_within_load(it: &Item, load: &ResourceBits, Ghost(m): Ghost<nat>) -> (r: bool)
    requires
        forall|k: int|
            0 <= k < it.req_indices@.len() ==> (#[trigger] it.req_indices@[k] as nat) < m,
        bits_of(*load).len() == m,
    ensures
        r == req_set(*it).subset_of(ones(bits_of(*load))),
{
    let mut k: usize = 0;
    while k < it.req_indices.len()
        invariant
            k <= it.req_indices@.len(),
            forall|kk: int|
                0 <= kk < it.req_indices@.len()
                    ==> (#[trigger] it.req_indices@[kk] as nat) < m,
            bits_of(*load).len() == m,
            forall|kk: int|
                0 <= kk < k ==> bits_of(*load)[#[trigger] it.req_indices@[kk] as int],
        decreases it.req_indices@.len() - k,
    {
        if !bits_get(load, it.req_indices[k]) {
            proof {
                lemma_idx_set(it.req_indices@);
                let j = it.req_indices@[k as int] as int;
                assert(req_set(*it).contains(j));
                assert(!ones(bits_of(*load)).contains(j));
            }
            return false;
        }
        k = k + 1;
    }
    proof {
        lemma_idx_set(it.req_indices@);
        assert forall|j: int| req_set(*it).contains(j)
            implies ones(bits_of(*load)).contains(j) by {
            let kk = choose|kk: int|
                0 <= kk < it.req_indices@.len() && it.req_indices@[kk] as int == j;
            assert(bits_of(*load)[j]);
        }
    }
    true
}

/// Whether the state must be abandoned: some forbidden item's requirements
/// are already fully satisfied by the load, so every completion of this
/// branch is also reachable from the sibling branch that included the item.
fn forbidden_check(
    items: &Vec<Item>,
    forbidden: &Vec<usize>,
    load: &ResourceBits,
    Ghost(m): Ghost<nat>,
) -> (r: bool)
    requires
        forall|k: int|
            0 <= k < forbidden@.len() ==> (#[trigger] forbidden@[k] as int) < items@.len(),
        forall|i: int| 0 <= i < items@.len() ==> item_wf(#[trigger] items@[i], m),
        bits_of(*load).len() == m,
    ensures
        r == exists|k: int|
            0 <= k < forbidden@.len() && req_set(
                items@[#[trigger] forbidden@[k] as int],
            ).subset_of(ones(bits_of(*load))),
{
    let mut k: usize = 0;
    while k < forbidden.len()
        invariant
            k <= forbidden@.len(),
            forall|kk: int|
                0 <= kk < forbidden@.len() ==> (#[trigger] forbidden@[kk] as int) < items@.len(),
            forall|i: int| 0 <= i < items@.len() ==> item_wf(#[trigger] items@[i], m),
            bits_of(*load).len() == m,
            forall|kk: int|
                0 <= kk < k ==> !req_set(items@[#[trigger] forbidden@[kk] as int]).subset_of(
                    ones(bits_of(*load)),
                ),
        decreases forbidden@.len() - k,
    {
        if req_within_load(&items[forbidden[k]], load, Ghost(m)) {
            return true;
        }
        k = k + 1;
    }
    false
}

} // verus!

verus! {

/// One pending search state: the candidates still undecided, the items
/// already selected, the items excluded along this path, and the union of
/// the selected items' requirements.
pub struct SearchState {
    pub candidates: Vec<usize>,
    pub partial: Vec<usize>,
    pub forbidden: Vec<usize>,
    pub load: ResourceBits,
}

/// Well-formedness of a search state over the prepared items: all index
/// lists are in range, candidates and partial selection are disjoint and
/// duplicate-free, the load is exactly the union of the partial selection's
/// requirements and fits the budget, and every remaining candidate still
/// fits on top of the load.
pub open spec fn state_wf(s: SearchState, items: Seq<Item>, m: nat, budget: nat) -> bool {
    &&& s.candidates@.no_duplicates()
    &&& forall|k: int|
        0 <= k < s.candidates@.len() ==> (#[trigger] s.candidates@[k] as int) < items.len()
    &&& s.partial@.no_duplicates()
    &&& forall|k: int|
        0 <= k < s.partial@.len() ==> (#[trigger] s.partial@[k] as int) < items.len()
    &&& forall|k: int|
        0 <= k < s.forbidden@.len() ==> (#[trigger] s.forbidden@[k] as int) < items.len()
    &&& forall|k1: int, k2: int|
        0 <= k1 < s.candidates@.len() && 0 <= k2 < s.partial@.len()
            ==> #[trigger] s.candidates@[k1] != #[trigger] s.partial@[k2]
    &&& bits_of(s.load).len() == m
    &&& ones(bits_of(s.load)) == union_req(items, s.partial@)
    &&& union_req(items, s.partial@).len() <= budget
    &&& forall|k: int|
        0 <= k < s.candidates@.len() ==> union_req(items, s.partial@).union(
            req_set(items[#[trigger] s.candidates@[k] as int]),
        ).len() <= budget
}

/// Powers of three: the weight of a state in the termination measure.
pub open spec fn pow3(n: nat) -> nat
    decreases n,
{
    if n == 0 {
        1
    } else {
        3 * pow3((n - 1) as nat)
    }
}

pub proof fn lemma_pow3_pos(n: nat)
    ensures
        pow3(n) >= 1,
    decreases n,
{
    if n > 0 {
        lemma_pow3_pos((n - 1) as nat);
    }
}

pub proof fn lemma_pow3_mono(a: nat, b: nat)
    requires
        a <= b,
    ensures
        pow3(a) <= pow3(b),
    decreases b,
{
    if a < b {
        lemma_pow3_mono(a, (b - 1) as nat);
        lemma_pow3_pos((b - 1) as nat);
    }
}

/// The termination measure of the frontier: expanding a state of `c`
/// candidates replaces weight `3^c` by at most `2 * 3^(c-1)`.
pub open spec fn stack_measure(st: Seq<SearchState>) -> nat
    decreases st.len(),
{
    if st.len() == 0 {
        0
    } else {
        stack_measure(st.drop_last()) + pow3(st.last().candidates@.len())
    }
}

pub proof fn lemma_stack_measure_push(st: Seq<SearchState>, s: SearchState)
    ensures
        stack_measure(st.push(s)) == stack_measure(st) + pow3(s.candidates@.len()),
{
    assert(st.push(s).drop_last() =~= st);
    assert(st.push(s).last() == s);
}

} // verus!

verus! {

/// A search state through which a given selection is still reachable: the
/// state has selected only items of the selection, has forbidden none of
/// them, and still offers every remaining one as a candidate.
pub open spec fn opt_witness(st: SearchState, sopt: Seq<usize>) -> bool {
    &&& forall|k: int| 0 <= k < st.partial@.len() ==> sopt.contains(#[trigger] st.partial@[k])
    &&& forall|k: int| 0 <= k < st.forbidden@.len() ==> !sopt.contains(#[trigger] st.forbidden@[k])
    &&& forall|x: usize|
        #[trigger] sopt.contains(x) && !st.partial@.contains(x) ==> st.candidates@.contains(x)
}

/// A duplicate-free sequence drawing its entries from another sequence is no
/// longer than it.
proof fn lemma_nodup_seq_len_le(a: Seq<usize>, b: Seq<usize>)
    requires
        a.no_duplicates(),
        forall|k: int| 0 <= k < a.len() ==> b.contains(#[trigger] a[k]),
    ensures
        a.len() <= b.len(),
{
    broadcast use vstd::seq_lib::group_seq_properties;

    a.unique_seq_to_set();
    b.lemma_cardinality_of_set();
    assert forall|x: usize| a.to_set().contains(x) implies b.to_set().contains(x) by {
        let k = choose|k: int| 0 <= k < a.len() && a[k] == x;
    }
    vstd::set_lib::lemma_len_subset(a.to_set(), b.to_set());
}

/// The branch-and-bound loop over the prepared items: pops states from the
/// frontier, prunes with the forbidden check and the singleton bound, and
/// returns the largest duplicate-free selection found, whose combined
/// requirements provably fit the budget. When any item survived the
/// eligibility filter, the selection is never empty.
#[verifier::loop_isolation(false)]
#[verifier::rlimit(100)]
pub fn run_search(items: &Vec<Item>, order: &Vec<usize>, m: usize, budget: usize) -> (best: Vec<
    usize,
>)
    requires
        forall|i: int| 0 <= i < items@.len() ==> item_wf(#[trigger] items@[i], m as nat),
        forall|i: int| 0 <= i < items@.len() ==> req_set(#[trigger] items@[i]).len() <= budget,
        forall|i: int|
            0 <= i < items@.len()
                ==> ((#[trigger] items@[i]).singular ==> items@[i].req_indices@.len() >= 1),
        forall|i: int|
            0 <= i < items@.len()
                ==> ((#[trigger] items@[i]).singular ==> item_singular(
                    lists_of(items@),
                    items@[i].req_indices@,
                )),
        order@.no_duplicates(),
        order@.len() == items@.len(),
        forall|k: int| 0 <= k < order@.len() ==> (#[trigger] order@[k] as int) < items@.len(),
        forall|i: int| 0 <= i < items@.len() ==> #[trigger] order@.contains(i as usize),
    ensures
        best@.no_duplicates(),
        forall|k: int| 0 <= k < best@.len() ==> (#[trigger] best@[k] as int) < items@.len(),
        union_req(items@, best@).len() <= budget,
        items@.len() >= 1 ==> best@.len() >= 1,
        forall|sel: Seq<usize>|
            #[trigger] feasible_items(items@, budget as nat, sel) ==> sel.len() <= best@.len(),
{
    let mut highest: Vec<usize> = Vec::new();
    let mut highest_score: usize = 0;
    let base = bits_new(m);
    let first_cands = crate::cost::clone_usizes(order);
    let mut stack: Vec<SearchState> = Vec::new();
    let st0 = SearchState {
        candidates: first_cands,
        partial: Vec::new(),
        forbidden: Vec::new(),
        load: base,
    };
    proof {
        lemma_ones_blank(m as nat);
        assert(union_req(items@, st0.partial@) =~= Set::<int>::empty());
        assert forall|k: int| 0 <= k < st0.candidates@.len() implies union_req(
            items@,
            st0.partial@,
        ).union(req_set(items@[#[trigger] st0.candidates@[k] as int])).len() <= budget by {
            assert(union_req(items@, st0.partial@).union(
                req_set(items@[st0.candidates@[k] as int]),
            ) =~= req_set(items@[st0.candidates@[k] as int]));
        }
        assert(state_wf(st0, items@, m as nat, budget as nat));
        assert(union_req(items@, highest@) =~= Set::<int>::empty());
    }
    stack.push(st0);
    proof {
        if items@.len() >= 1 {
            assert(stack@[0] == st0);
            assert(st0.candidates@.len() >= 1);
        }
        assert forall|sopt: Seq<usize>| #[trigger] is_optimal_items(items@, budget as nat, sopt)
            implies sopt.len() <= highest_score || exists|si: int|
            0 <= si < stack@.len() && opt_witness(#[trigger] stack@[si], sopt) by {
            assert forall|x: usize| #[trigger] sopt.contains(x) && !st0.partial@.contains(x)
                implies st0.candidates@.contains(x) by {
                let k = choose|k: int| 0 <= k < sopt.len() && sopt[k] == x;
                assert((sopt[k] as int) < items@.len());
                assert(0 <= (x as int) < items@.len());
                assert(order@.contains(((x as int) as usize)));
                assert(((x as int) as usize) == x);
            }
            assert(opt_witness(st0, sopt));
            assert(stack@[0] == st0);
        }
    }
    while stack.len() > 0
        invariant
            forall|si: int|
                0 <= si < stack@.len() ==> state_wf(
                    #[trigger] stack@[si],
                    items@,
                    m as nat,
                    budget as nat,
                ),
            highest@.no_duplicates(),
            forall|k: int| 0 <= k < highest@.len() ==> (#[trigger] highest@[k] as int)
                < items@.len(),
            union_req(items@, highest@).len() <= budget,
            highest_score == highest@.len(),
            items@.len() == 0 || highest_score >= 1 || exists|si: int|
                0 <= si < stack@.len() && (#[trigger] stack@[si]).forbidden@.len() == 0 && stack@[
                    si
                ].partial@.len() + stack@[si].candidates@.len() >= 1,
            forall|sopt: Seq<usize>|
                #[trigger] is_optimal_items(items@, budget as nat, sopt) ==> sopt.len()
                    <= highest_score || exists|si: int|
                    0 <= si < stack@.len() && opt_witness(#[trigger] stack@[si], sopt),
        decreases stack_measure(stack@),
    {
        let ghost pre_stack = stack@;
        let ghost pre_score = highest_score;
        let st = stack.pop().unwrap();
        let ghost gst = st;
        proof {
            assert(pre_stack =~= stack@.push(gst));
            lemma_stack_measure_push(stack@, gst);
            lemma_pow3_pos(gst.candidates@.len());
            assert(state_wf(gst, items@, m as nat, budget as nat));
            assert(forall|si: int| 0 <= si < stack@.len() ==> stack@[si] == pre_stack[si]);
        }
        let SearchState { candidates: mut cands, partial, forbidden, load } = st;
        let pruned = forbidden_check(items, &forbidden, &load, Ghost(m as nat));
        if pruned {
            proof {
                if items@.len() >= 1 && highest_score == 0 {
                    let wi = choose|si: int|
                        0 <= si < pre_stack.len() && (#[trigger] pre_stack[si]).forbidden@.len()
                            == 0 && pre_stack[si].partial@.len() + pre_stack[
                            si
                        ].candidates@.len() >= 1;
                    assert(gst.forbidden@.len() >= 1);
                    assert(wi < stack@.len());
                    assert(stack@[wi] == pre_stack[wi]);
                }
                // a state that an optimal selection runs through is never cut
                // off by the forbidden check: the forbidden item that fits the
                // load could extend that optimal selection, a contradiction
                assert forall|sopt: Seq<usize>|
                    #[trigger] is_optimal_items(items@, budget as nat, sopt)
                    implies sopt.len() <= highest_score || exists|si: int|
                    0 <= si < stack@.len() && opt_witness(#[trigger] stack@[si], sopt) by {
                    if sopt.len() > highest_score {
                        let wi = choose|si: int|
                            0 <= si < pre_stack.len() && opt_witness(
                                #[trigger] pre_stack[si],
                                sopt,
                            );
                        if wi == pre_stack.len() - 1 {
                            let k0 = choose|kk: int|
                                0 <= kk < forbidden@.len() && req_set(
                                    items@[forbidden@[kk] as int],
                                ).subset_of(ones(bits_of(load)));
                            let f = forbidden@[k0];
                            lemma_union_req_submono(items@, partial@, sopt);
                            lemma_union_req(items@, sopt);
                            lemma_union_req_push(items@, sopt, f);
                            assert(union_req(items@, sopt.push(f)) =~= union_req(
                                items@,
                                sopt,
                            ));
                            assert(!sopt.contains(f));
                            assert forall|i1: int, i2: int|
                                0 <= i1 < i2 < sopt.push(f).len()
                                implies sopt.push(f)[i1] != sopt.push(f)[i2] by {
                                if i2 == sopt.len() {
                                    assert(sopt[i1] != f);
                                }
                            }
                            assert(feasible_items(items@, budget as nat, sopt.push(f)));
                            assert(sopt.push(f).len() <= sopt.len());
                            assert(false);
                        } else {
                            assert(stack@[wi] == pre_stack[wi]);
                        }
                    }
                }
            }
            continue ;
        }
        let score = partial.len();
        if score > highest_score {
            highest = crate::cost::clone_usizes(&partial);
            highest_score = score;
        }
        let threshold = highest_score - score;
        if cands.len() > threshold {
            let load_count = bits_count_ones(&load);
            let budget_left = budget - load_count;
            let sb = singleton_bound(items, &cands, budget_left);
            proof {
                lemma_count_singular_bounds(items@, cands@);
            }
            if sb > threshold {
                let ghost pre_cands = cands@;
                let best_i = cands.pop().unwrap();
                proof {
                    assert(cands@ =~= pre_cands.drop_last());
                    assert(best_i == pre_cands.last());
                    assert((best_i as int) < items@.len());
                }
                let mut new_load = bits_clone(&load);
                bits_or_assign(&mut new_load, &items[best_i].reqs);
                proof {
                    lemma_item_ones(items@[best_i as int], m as nat);
                    lemma_ones_or(bits_of(load), bits_of(items@[best_i as int].reqs));
                    lemma_union_req_push(items@, partial@, best_i);
                }
                let ghost new_union = union_req(items@, partial@.push(best_i));
                proof {
                    assert(ones(bits_of(new_load)) == new_union);
                    assert(new_union.len() <= budget);
                }
                let mut feas: Vec<usize> = Vec::new();
                let mut k: usize = 0;
                while k < cands.len()
                    invariant
                        k <= cands@.len(),
                        feas@.no_duplicates(),
                        feas@.len() <= k,
                        forall|x: usize| #[trigger]
                            feas@.contains(x) ==> cands@.take(k as int).contains(x),
                        forall|kk: int|
                            0 <= kk < feas@.len() ==> (#[trigger] feas@[kk] as int)
                                < items@.len(),
                        forall|kk: int|
                            0 <= kk < feas@.len() ==> new_union.union(
                                req_set(items@[(#[trigger] feas@[kk]) as int]),
                            ).len() <= budget,
                        forall|t: int|
                            0 <= t < k && new_union.union(
                                req_set(items@[(#[trigger] cands@[t]) as int]),
                            ).len() <= budget ==> feas@.contains(cands@[t]),
                    decreases cands@.len() - k,
                {
                    let c = cands[k];
                    let mut u = bits_clone(&new_load);
                    bits_or_assign(&mut u, &items[c].reqs);
                    let uc = bits_count_ones(&u);
                    proof {
                        lemma_item_ones(items@[c as int], m as nat);
                        lemma_ones_or(bits_of(new_load), bits_of(items@[c as int].reqs));
                        assert(ones(bits_of(u)) == new_union.union(req_set(items@[c as int])));
                    }
                    if uc <= budget {
                        proof {
                            if feas@.contains(c) {
                                assert(cands@.take(k as int).contains(c));
                                let q = choose|q: int|
                                    0 <= q < k && cands@.take(k as int)[q] == c;
                                assert(cands@[q] == cands@[k as int]);
                            }
                        }
                        let ghost pre_feas = feas@;
                        feas.push(c);
                        proof {
                            assert forall|x: usize| #[trigger] feas@.contains(x)
                                implies cands@.take(k + 1).contains(x) by {
                                let q = choose|q: int| 0 <= q < feas@.len() && feas@[q] == x;
                                if q < pre_feas.len() {
                                    assert(pre_feas.contains(x));
                                    let t = choose|t: int|
                                        0 <= t < k && cands@.take(k as int)[t] == x;
                                    assert(cands@.take(k + 1)[t] == x);
                                } else {
                                    assert(cands@.take(k + 1)[k as int] == c);
                                }
                            }
                            assert forall|t: int|
                                0 <= t < k + 1 && new_union.union(
                                    req_set(items@[(#[trigger] cands@[t]) as int]),
                                ).len() <= budget implies feas@.contains(cands@[t]) by {
                                if t < k {
                                    assert(pre_feas.contains(cands@[t]));
                                    let q = choose|q: int|
                                        0 <= q < pre_feas.len() && pre_feas[q] == cands@[t];
                                    assert(feas@[q] == cands@[t]);
                                } else {
                                    assert(feas@[feas@.len() - 1] == c);
                                }
                            }
                        }
                    } else {
                        proof {
                            assert forall|x: usize| #[trigger] feas@.contains(x)
                                implies cands@.take(k + 1).contains(x) by {
                                let t = choose|t: int|
                                    0 <= t < k && cands@.take(k as int)[t] == x;
                                assert(cands@.take(k + 1)[t] == x);
                            }
                        }
                    }
                    k = k + 1;
                }
                proof {
                    assert(cands@.take(cands@.len() as int) =~= cands@);
                }
                let mut new_partial = crate::cost::clone_usizes(&partial);
                new_partial.push(best_i);
                let mut new_forbidden = crate::cost::clone_usizes(&forbidden);
                new_forbidden.push(best_i);
                proof {
                    assert forall|k1: int, k2: int|
                        0 <= k1 < cands@.len() && 0 <= k2 < partial@.len()
                        implies #[trigger] cands@[k1] != #[trigger] partial@[k2] by {
                        assert(cands@[k1] == pre_cands[k1]);
                    }
                }
                let exclude = SearchState {
                    candidates: cands,
                    partial,
                    forbidden: new_forbidden,
                    load,
                };
                let ghost gex = exclude;
                proof {
                    assert(state_wf(gex, items@, m as nat, budget as nat));
                }
                stack.push(exclude);
                let taken = SearchState {
                    candidates: feas,
                    partial: new_partial,
                    forbidden,
                    load: new_load,
                };
                let ghost ginc = taken;
                proof {
                    // the included item was a candidate, so it is not yet selected
                    assert forall|k2: int| 0 <= k2 < partial@.len()
                        implies best_i != #[trigger] partial@[k2] by {
                        assert(pre_cands[pre_cands.len() - 1] != partial@[k2]);
                    }
                    assert(ginc.partial@ =~= gst.partial@.push(best_i));
                    assert(ginc.partial@.no_duplicates());
                    assert forall|k1: int, k2: int|
                        0 <= k1 < ginc.candidates@.len() && 0 <= k2 < ginc.partial@.len()
                        implies #[trigger] ginc.candidates@[k1] != #[trigger] ginc.partial@[k2]
                        by {
                        let x = ginc.candidates@[k1];
                        assert(feas@.contains(x));
                        let t = choose|t: int| 0 <= t < cands@.len() && cands@[t] == x;
                        assert(pre_cands[t] == x);
                        if k2 < partial@.len() {
                            assert(x != partial@[k2]);
                        } else {
                            assert(ginc.partial@[k2] == best_i);
                            assert(pre_cands[pre_cands.len() - 1] == best_i);
                        }
                    }
                    assert(ones(bits_of(ginc.load)) == union_req(items@, ginc.partial@));
                    assert(state_wf(ginc, items@, m as nat, budget as nat));
                }
                stack.push(taken);
                proof {
                    let mid = stack_measure(pre_stack.drop_last());
                    lemma_stack_measure_push(pre_stack.drop_last(), gex);
                    lemma_stack_measure_push(pre_stack.drop_last().push(gex), ginc);
                    assert(stack@ =~= pre_stack.drop_last().push(gex).push(ginc));
                    let c = pre_cands.len();
                    assert(c >= 1);
                    assert(pow3(c as nat) == 3 * pow3((c - 1) as nat));
                    lemma_pow3_mono(feas@.len(), (c - 1) as nat);
                    lemma_pow3_pos((c - 1) as nat);
                    assert(stack_measure(stack@) < stack_measure(pre_stack));
                    // a first selection always survives to the frontier
                    if items@.len() >= 1 && highest_score == 0 {
                        assert(pre_score == 0);
                        let wi = choose|si: int|
                            0 <= si < pre_stack.len() && (#[trigger] pre_stack[
                                si
                            ]).forbidden@.len() == 0 && pre_stack[si].partial@.len() + pre_stack[
                                si
                            ].candidates@.len() >= 1;
                        if wi == pre_stack.len() - 1 {
                            assert(gst.forbidden@.len() == 0);
                            assert(ginc.forbidden@.len() == 0);
                            assert(ginc.partial@.len() >= 1);
                            assert(stack@[stack@.len() - 1] == ginc);
                        } else {
                            assert(stack@[wi] == pre_stack[wi]);
                        }
                    }
                    // an optimal selection through the popped state runs on
                    // through one of its two children: the branch that takes
                    // the popped candidate when the selection holds it, the
                    // branch that forbids it when it does not
                    assert(forall|si: int|
                        0 <= si < pre_stack.len() - 1 ==> stack@[si] == pre_stack[si]);
                    assert(stack@[stack@.len() - 2] == gex);
                    assert(stack@[stack@.len() - 1] == ginc);
                    assert forall|sopt: Seq<usize>|
                        #[trigger] is_optimal_items(items@, budget as nat, sopt)
                        implies sopt.len() <= highest_score || exists|si: int|
                        0 <= si < stack@.len() && opt_witness(#[trigger] stack@[si], sopt) by {
                        if sopt.len() > highest_score {
                            let wi = choose|si: int|
                                0 <= si < pre_stack.len() && opt_witness(
                                    #[trigger] pre_stack[si],
                                    sopt,
                                );
                            if wi == pre_stack.len() - 1 {
                                if sopt.contains(best_i) {
                                    assert forall|k2: int| 0 <= k2 < ginc.partial@.len()
                                        implies sopt.contains(
                                        #[trigger] ginc.partial@[k2],
                                    ) by {
                                        if k2 < partial@.len() {
                                            assert(ginc.partial@[k2] == partial@[k2]);
                                        } else {
                                            assert(ginc.partial@[k2] == best_i);
                                        }
                                    }
                                    assert forall|x: usize|
                                        #[trigger] sopt.contains(x) && !ginc.partial@.contains(
                                            x,
                                        ) implies ginc.candidates@.contains(x) by {
                                        assert(!partial@.contains(x)) by {
                                            if partial@.contains(x) {
                                                let q = choose|q: int|
                                                    0 <= q < partial@.len() && partial@[q] == x;
                                                assert(ginc.partial@[q] == x);
                                            }
                                        }
                                        assert(x != best_i) by {
                                            if x == best_i {
                                                assert(ginc.partial@[ginc.partial@.len() - 1]
                                                    == x);
                                            }
                                        }
                                        assert(pre_cands.contains(x));
                                        let q = choose|q: int|
                                            0 <= q < pre_cands.len() && pre_cands[q] == x;
                                        assert(q != pre_cands.len() - 1);
                                        assert(cands@[q] == x);
                                        lemma_union_req_push(items@, partial@.push(best_i), x);
                                        lemma_union_req_submono(
                                            items@,
                                            partial@.push(best_i).push(x),
                                            sopt,
                                        );
                                        lemma_union_req(items@, sopt);
                                        lemma_len_subset(
                                            union_req(items@, partial@.push(best_i).push(x)),
                                            union_req(items@, sopt),
                                        );
                                        assert(new_union.union(
                                            req_set(items@[cands@[q] as int]),
                                        ).len() <= budget);
                                        assert(feas@.contains(cands@[q]));
                                    }
                                    assert(opt_witness(ginc, sopt));
                                } else {
                                    assert forall|k2: int| 0 <= k2 < gex.forbidden@.len()
                                        implies !sopt.contains(
                                        #[trigger] gex.forbidden@[k2],
                                    ) by {
                                        if k2 < forbidden@.len() {
                                            assert(gex.forbidden@[k2] == forbidden@[k2]);
                                        } else {
                                            assert(gex.forbidden@[k2] == best_i);
                                        }
                                    }
                                    assert forall|x: usize|
                                        #[trigger] sopt.contains(x) && !gex.partial@.contains(x)
                                        implies gex.candidates@.contains(x) by {
                                        assert(pre_cands.contains(x));
                                        let q = choose|q: int|
                                            0 <= q < pre_cands.len() && pre_cands[q] == x;
                                        assert(x != best_i);
                                        assert(q != pre_cands.len() - 1);
                                        assert(cands@[q] == x);
                                    }
                                    assert(opt_witness(gex, sopt));
                                }
                            } else {
                                assert(stack@[wi] == pre_stack[wi]);
                            }
                        }
                    }
                }
            } else {
                proof {
                    if items@.len() >= 1 && highest_score == 0 {
                        let wi = choose|si: int|
                            0 <= si < pre_stack.len() && (#[trigger] pre_stack[
                                si
                            ]).forbidden@.len() == 0 && pre_stack[si].partial@.len() + pre_stack[
                                si
                            ].candidates@.len() >= 1;
                        if wi == pre_stack.len() - 1 {
                            // the popped state itself: show it could not have been
                            // cut off by the singleton bound
                            assert(gst.partial@.len() == 0);
                            assert(union_req(items@, partial@) =~= Set::<int>::empty());
                            assert(load_count == 0);
                            assert(budget_left == budget);
                            assert(threshold == 0);
                            let s = count_singular(items@, cands@);
                            if s >= 1 {
                                lemma_count_singular_pos(items@, cands@);
                                let ci = choose|ck: int|
                                    0 <= ck < cands@.len() && items@[
                                        #[trigger] cands@[ck] as int
                                    ].singular;
                                lemma_idx_set(items@[cands@[ci] as int].req_indices@);
                                assert(req_set(items@[cands@[ci] as int]).len() >= 1);
                                assert(union_req(items@, partial@).union(
                                    req_set(items@[cands@[ci] as int]),
                                ) =~= req_set(items@[cands@[ci] as int]));
                                assert(budget >= 1);
                                assert(sb >= 1);
                            } else {
                                assert(sb == cands@.len());
                            }
                            assert(false);
                        }
                        assert(stack@[wi] == pre_stack[wi]);
                    }
                    // the singleton bound cut this state off: by its
                    // admissibility no optimal selection through it can beat
                    // the best already found
                    assert forall|sopt: Seq<usize>|
                        #[trigger] is_optimal_items(items@, budget as nat, sopt)
                        implies sopt.len() <= highest_score || exists|si: int|
                        0 <= si < stack@.len() && opt_witness(#[trigger] stack@[si], sopt) by {
                        if sopt.len() > highest_score {
                            let wi = choose|si: int|
                                0 <= si < pre_stack.len() && opt_witness(
                                    #[trigger] pre_stack[si],
                                    sopt,
                                );
                            if wi == pre_stack.len() - 1 {
                                let inp = |x: usize| partial@.contains(x);
                                let outp = |x: usize| !partial@.contains(x);
                                lemma_filter_props(sopt, inp, outp);
                                let pp = sopt.filter(inp);
                                let e = sopt.filter(outp);
                                assert forall|kk: int| 0 <= kk < pp.len()
                                    implies partial@.contains(#[trigger] pp[kk]) by {
                                    assert(pp.contains(pp[kk]));
                                }
                                lemma_nodup_seq_len_le(pp, partial@);
                                assert forall|kk: int| 0 <= kk < e.len()
                                    implies cands@.contains(#[trigger] e[kk]) by {
                                    assert(e.contains(e[kk]));
                                    assert(sopt.contains(e[kk]) && !partial@.contains(e[kk]));
                                }
                                assert forall|kk: int| 0 <= kk < e.len()
                                    implies sopt.contains(#[trigger] e[kk]) by {
                                    assert(e.contains(e[kk]));
                                }
                                assert forall|kk: int| 0 <= kk < e.len()
                                    implies (#[trigger] e[kk] as int) < items@.len() by {
                                    assert(e.contains(e[kk]));
                                    let q = choose|q: int|
                                        0 <= q < sopt.len() && sopt[q] == e[kk];
                                }
                                let lset = ones(bits_of(load));
                                lemma_union_req(items@, partial@);
                                assert forall|j: int| #[trigger] lset.contains(j)
                                    implies exists|i2: usize|
                                    (i2 as int) < items@.len() && req_set(
                                        items@[i2 as int],
                                    ).contains(j) && !cands@.contains(i2) by {
                                    let kq = choose|kq: int|
                                        0 <= kq < partial@.len() && req_set(
                                            items@[partial@[kq] as int],
                                        ).contains(j);
                                    let i2 = partial@[kq];
                                    assert(!cands@.contains(i2)) by {
                                        if cands@.contains(i2) {
                                            let q = choose|q: int|
                                                0 <= q < cands@.len() && cands@[q] == i2;
                                            assert(cands@[q] != partial@[kq]);
                                        }
                                    }
                                    assert((i2 as int) < items@.len() && req_set(
                                        items@[i2 as int],
                                    ).contains(j) && !cands@.contains(i2));
                                }
                                lemma_union_req_submono(items@, e, sopt);
                                lemma_union_req_submono(items@, partial@, sopt);
                                lemma_union_req(items@, sopt);
                                assert(union_req(items@, e).union(lset).subset_of(
                                    union_req(items@, sopt),
                                ));
                                lemma_len_subset(
                                    union_req(items@, e).union(lset),
                                    union_req(items@, sopt),
                                );
                                lemma_singleton_bound_admissible_loaded(
                                    items@,
                                    cands@,
                                    lset,
                                    budget as nat,
                                    e,
                                );
                                assert(e.len() <= sb);
                                assert(sopt.len() <= score + sb);
                                assert(false);
                            } else {
                                assert(stack@[wi] == pre_stack[wi]);
                            }
                        }
                    }
                }
            }
        } else {
            proof {
                if items@.len() >= 1 && highest_score == 0 {
                    let wi = choose|si: int|
                        0 <= si < pre_stack.len() && (#[trigger] pre_stack[si]).forbidden@.len()
                            == 0 && pre_stack[si].partial@.len() + pre_stack[
                            si
                        ].candidates@.len() >= 1;
                    if wi == pre_stack.len() - 1 {
                        assert(gst.partial@.len() == 0);
                        assert(threshold == 0);
                        assert(gst.candidates@.len() >= 1);
                        assert(false);
                    }
                    assert(stack@[wi] == pre_stack[wi]);
                }
                // too few candidates remain: an optimal selection through
                // this state cannot beat the best already found
                assert forall|sopt: Seq<usize>|
                    #[trigger] is_optimal_items(items@, budget as nat, sopt)
                    implies sopt.len() <= highest_score || exists|si: int|
                    0 <= si < stack@.len() && opt_witness(#[trigger] stack@[si], sopt) by {
                    if sopt.len() > highest_score {
                        let wi = choose|si: int|
                            0 <= si < pre_stack.len() && opt_witness(
                                #[trigger] pre_stack[si],
                                sopt,
                            );
                        if wi == pre_stack.len() - 1 {
                            let inp = |x: usize| partial@.contains(x);
                            let outp = |x: usize| !partial@.contains(x);
                            lemma_filter_props(sopt, inp, outp);
                            let pp = sopt.filter(inp);
                            let e = sopt.filter(outp);
                            assert forall|kk: int| 0 <= kk < pp.len()
                                implies partial@.contains(#[trigger] pp[kk]) by {
                                assert(pp.contains(pp[kk]));
                            }
                            lemma_nodup_seq_len_le(pp, partial@);
                            assert forall|kk: int| 0 <= kk < e.len()
                                implies cands@.contains(#[trigger] e[kk]) by {
                                assert(e.contains(e[kk]));
                                assert(sopt.contains(e[kk]) && !partial@.contains(e[kk]));
                            }
                            lemma_nodup_seq_len_le(e, cands@);
                            assert(sopt.len() <= score + threshold);
                            assert(false);
                        } else {
                            assert(stack@[wi] == pre_stack[wi]);
                        }
                    }
                }
            }
        }
    }
    proof {
        if items@.len() >= 1 {
            assert(highest_score >= 1);
        }
        lemma_optimal_exists(items@, budget as nat);
        let sopt = choose|sopt2: Seq<usize>| is_optimal_items(items@, budget as nat, sopt2);
        assert(is_optimal_items(items@, budget as nat, sopt));
        assert(sopt.len() <= highest_score);
        assert forall|sel: Seq<usize>| #[trigger] feasible_items(items@, budget as nat, sel)
            implies sel.len() <= highest@.len() by {
            assert(sel.len() <= sopt.len());
        }
    }
    highest
}

} // verus!

verus! {

/// What the search returns: a feasible selection of distinct eligible input
/// pairs — their combined requirement strings fit the budget — with one
/// output item per selected pair, carrying its name.
pub open spec fn selection_describes(
    pairs: Seq<(Vec<String>, String)>,
    budget: nat,
    sel: Seq<int>,
    out: Seq<Item>,
) -> bool {
    &&& feasible_selection(pairs, budget, sel)
    &&& out.len() == sel.len()
    &&& forall|k: int| 0 <= k < out.len() ==> (#[trigger] out[k]).name@ == pairs[sel[k]].1@
    &&& forall|k: int| 0 <= k < sel.len() ==> eligible(pairs[#[trigger] sel[k]], budget)
}

/// Copies one item.
fn clone_item(it: &Item) -> (r: Item)
    ensures
        r.name@ == it.name@,
        r.req_indices@ == it.req_indices@,
        bits_of(r.reqs) == bits_of(it.reqs),
        r.cost == it.cost,
        r.singular == it.singular,
{
    Item {
        name: it.name.clone(),
        req_indices: crate::cost::clone_usizes(&it.req_indices),
        reqs: bits_clone(&it.reqs),
        cost: it.cost,
        singular: it.singular,
    }
}

/// Finds a maximum-effort selection of the input pairs whose combined
/// requirement strings stay within the budget: indexes and annotates the
/// eligible pairs, then runs the branch-and-bound search over them. The
/// result is always a feasible selection of distinct eligible pairs, and it
/// is non-empty whenever any pair is eligible.
#[verifier::loop_isolation(false)]
pub fn search(pairs: &Vec<(Vec<String>, String)>, budget: usize) -> (r: Vec<Item>)
    ensures
        exists|sel: Seq<int>| selection_describes(pairs@, budget as nat, sel, r@),
        forall|sel: Seq<int>|
            #[trigger] feasible_selection(pairs@, budget as nat, sel) ==> sel.len() <= r@.len(),
        (exists|q: int| 0 <= q < pairs@.len() && eligible(#[trigger] pairs@[q], budget as nat))
            ==> r@.len() >= 1,
{
    let prep = amortized_cost(pairs, budget);
    let m = prep.domain.len();
    proof {
        assert forall|i: int| 0 <= i < prep.items@.len()
            implies ((#[trigger] prep.items@[i]).singular
                ==> prep.items@[i].req_indices@.len() >= 1) by {
            if prep.items@[i].singular {
                let k = choose|k: int|
                    0 <= k < prep.items@[i].req_indices@.len()
                        && crate::model::resource_card(
                        crate::model::lists_of(prep.items@),
                        prep.items@[i].req_indices@[k] as int,
                    ) == 1;
            }
        }
    }
    let n_items = prep.items.len();
    let best_idx = run_search(&prep.items, &prep.order, m, budget);
    let mut out: Vec<Item> = Vec::new();
    let mut k: usize = 0;
    while k < best_idx.len()
        invariant
            k <= best_idx@.len(),
            out@.len() == k,
            forall|kk: int|
                0 <= kk < k ==> (#[trigger] out@[kk]).name@ == prep.items@[
                    best_idx@[kk] as int
                ].name@,
        decreases best_idx@.len() - k,
    {
        let it = clone_item(&prep.items[best_idx[k]]);
        out.push(it);
        k = k + 1;
    }
    proof {
        let picks = prep.picks@;
        let itemsv = prep.items@;
        let dom = prep.domain.deep_view();
        let sel = Seq::new(best_idx@.len() as nat, |kk: int| picks[best_idx@[kk] as int]);
        lemma_union_req(itemsv, best_idx@);
        lemma_union_strs(pairs@, sel);
        let uni = union_req(itemsv, best_idx@);
        // selected pairs are distinct and in range
        assert forall|k1: int, k2: int| 0 <= k1 < k2 < sel.len()
            implies sel[k1] != sel[k2] by {
            assert(best_idx@[k1] != best_idx@[k2]);
            let b1 = best_idx@[k1] as int;
            let b2 = best_idx@[k2] as int;
            if b1 < b2 {
                assert(picks[b1] < picks[b2]);
            } else {
                assert(picks[b2] < picks[b1]);
            }
        }
        // the selected pairs' strings are the domain image of the union of
        // the selected items' resource indices
        assert forall|x: Seq<char>| #[trigger] union_strs(pairs@, sel).contains(x)
            implies crate::model::dom_image(dom, uni).contains(x) by {
            let kk = choose|kk: int| 0 <= kk < sel.len() && pair_strs(pairs@[sel[kk]]).contains(x);
            let i = best_idx@[kk] as int;
            assert(crate::model::dom_image(dom, req_set(itemsv[i])) == pair_strs(
                pairs@[picks[i]],
            ));
            let j = choose|j: int| req_set(itemsv[i]).contains(j) && x == dom[j];
            assert(uni.contains(j));
        }
        assert forall|x: Seq<char>| #[trigger] crate::model::dom_image(dom, uni).contains(x)
            implies union_strs(pairs@, sel).contains(x) by {
            let j = choose|j: int| uni.contains(j) && x == dom[j];
            let kk = choose|kk: int|
                0 <= kk < best_idx@.len() && req_set(itemsv[best_idx@[kk] as int]).contains(j);
            let i = best_idx@[kk] as int;
            assert(crate::model::dom_image(dom, req_set(itemsv[i])).contains(x));
            assert(pair_strs(pairs@[sel[kk]]).contains(x));
        }
        assert(union_strs(pairs@, sel) =~= crate::model::dom_image(dom, uni));
        vstd::set_lib::lemma_map_size_bound(uni, crate::model::dom_image(dom, uni), |j: int| dom[j]);
        assert(union_strs(pairs@, sel).len() <= budget);
        // each selected pair is eligible, and names carry over
        assert forall|kk: int| 0 <= kk < sel.len()
            implies eligible(pairs@[#[trigger] sel[kk]], budget as nat) by {
            let i = best_idx@[kk] as int;
            assert(picks[i] == sel[kk]);
            assert(picks.contains(sel[kk]));
        }
        assert forall|kk: int| 0 <= kk < out@.len()
            implies (#[trigger] out@[kk]).name@ == pairs@[sel[kk]].1@ by {
            let i = best_idx@[kk] as int;
            assert(out@[kk].name@ == itemsv[i].name@);
        }
        assert(selection_describes(pairs@, budget as nat, sel, out@));
        // when an eligible pair exists, the selection is not empty
        if exists|q: int| 0 <= q < pairs@.len() && eligible(#[trigger] pairs@[q], budget as nat) {
            let q = choose|q: int|
                0 <= q < pairs@.len() && eligible(#[trigger] pairs@[q], budget as nat);
            assert(picks.contains(q));
            assert(picks.len() >= 1);
            assert(itemsv.len() >= 1);
        }
        // no feasible selection of input pairs beats the result: it maps to
        // a feasible selection of items, and the search maximises over those
        assert forall|sel2: Seq<int>|
            #[trigger] feasible_selection(pairs@, budget as nat, sel2)
            implies sel2.len() <= out@.len() by {
            lemma_union_strs(pairs@, sel2);
            assert forall|kk: int| 0 <= kk < sel2.len() implies picks.contains(
                #[trigger] sel2[kk],
            ) by {
                assert forall|x: Seq<char>| pair_strs(pairs@[sel2[kk]]).contains(x)
                    implies union_strs(pairs@, sel2).contains(x) by {
                    assert(0 <= kk < sel2.len() && pair_strs(pairs@[sel2[kk]]).contains(x));
                }
                vstd::set_lib::lemma_len_subset(
                    pair_strs(pairs@[sel2[kk]]),
                    union_strs(pairs@, sel2),
                );
                assert(eligible(pairs@[sel2[kk]], budget as nat));
            }
            let isel = Seq::new(
                sel2.len() as nat,
                |kk: int| (choose|i: int| 0 <= i < picks.len() && picks[i] == sel2[kk]) as usize,
            );
            assert(picks.len() == n_items as int);
            assert forall|kk: int| 0 <= kk < isel.len() implies 0 <= (#[trigger] isel[kk] as int)
                < picks.len() && picks[isel[kk] as int] == sel2[kk] by {
                assert(picks.contains(sel2[kk]));
                let i = choose|i: int| 0 <= i < picks.len() && picks[i] == sel2[kk];
                assert(0 <= i < n_items as int);
                assert((i as usize) as int == i);
                assert(isel[kk] == i as usize);
            }
            assert forall|k1: int, k2: int| 0 <= k1 < k2 < isel.len()
                implies isel[k1] != isel[k2] by {
                assert(picks[isel[k1] as int] == sel2[k1]);
                assert(picks[isel[k2] as int] == sel2[k2]);
            }
            lemma_union_req(itemsv, isel);
            let uni2 = union_req(itemsv, isel);
            assert forall|j: int| #[trigger] uni2.contains(j) implies 0 <= j < dom.len() by {
                let kk = choose|kk: int|
                    0 <= kk < isel.len() && req_set(itemsv[isel[kk] as int]).contains(j);
                crate::model::lemma_idx_set(itemsv[isel[kk] as int].req_indices@);
                let q = choose|q: int|
                    0 <= q < itemsv[isel[kk] as int].req_indices@.len() && itemsv[
                        isel[kk] as int
                    ].req_indices@[q] as int == j;
            }
            assert forall|x: Seq<char>| #[trigger] crate::model::dom_image(dom, uni2).contains(x)
                implies union_strs(pairs@, sel2).contains(x) by {
                let j = choose|j: int| uni2.contains(j) && x == dom[j];
                let kk = choose|kk: int|
                    0 <= kk < isel.len() && req_set(itemsv[isel[kk] as int]).contains(j);
                let i = isel[kk] as int;
                assert(crate::model::dom_image(dom, req_set(itemsv[i])).contains(x));
                assert(pair_strs(pairs@[sel2[kk]]).contains(x));
            }
            assert forall|x: Seq<char>| #[trigger] union_strs(pairs@, sel2).contains(x)
                implies crate::model::dom_image(dom, uni2).contains(x) by {
                let kk = choose|kk: int|
                    0 <= kk < sel2.len() && pair_strs(pairs@[sel2[kk]]).contains(x);
                let i = isel[kk] as int;
                assert(crate::model::dom_image(dom, req_set(itemsv[i])) == pair_strs(
                    pairs@[sel2[kk]],
                ));
                let j = choose|j: int| req_set(itemsv[i]).contains(j) && x == dom[j];
                assert(uni2.contains(j));
            }
            assert(crate::model::dom_image(dom, uni2) =~= union_strs(pairs@, sel2));
            let f = |j: int| dom[j];
            assert(vstd::relations::injective_on(f, uni2)) by {
                assert forall|j1: int, j2: int|
                    uni2.contains(j1) && uni2.contains(j2) && j1 != j2 implies #[trigger] f(j1)
                    != #[trigger] f(j2) by {
                    assert(0 <= j1 < dom.len());
                    assert(0 <= j2 < dom.len());
                }
            }
            vstd::set_lib::lemma_map_size(uni2, crate::model::dom_image(dom, uni2), f);
            assert(uni2.len() <= budget);
            assert(crate::model::feasible_items(itemsv, budget as nat, isel));
            assert(isel.len() <= best_idx@.len());
        }
    }
    out
}

} // verus!
