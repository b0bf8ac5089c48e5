//! The mathematical model: items over an indexed resource universe, the cost
//! model's cardinality and scarcity-cost functions, and what it means for a
//! selection of input pairs to be feasible or optimal under a budget.

use vstd::prelude::*;
use vstd::seq_lib::group_seq_properties;
use vstd::set_lib::group_set_properties;
use crate::bits::ResourceBits;
use crate::bits::bits_of;
use crate::bits::ones;

verus! {

/// Scale applied to the fractional scarcity cost so that it can be carried in
/// an integer: a resource shared by `c` eligible items contributes
/// `COST_SCALE / c` to the cost of each of them.
pub const COST_SCALE: u64 = 1000000;

/// One candidate: a named entity requiring a set of resources, annotated by
/// the cost model. `req_indices` lists the distinct indices of its required
/// resources in the universe; `reqs` holds the same set as a bit vector.
pub struct Item {
    pub name: String,
    pub req_indices: Vec<usize>,
    pub reqs: ResourceBits,
    pub cost: u64,
    pub singular: bool,
}

/// An index sequence, as mathematical integers.
pub open spec fn idx_seq(s: Seq<usize>) -> Seq<int> {
    s.map_values(|u: usize| u as int)
}

/// The set of indices an index sequence holds.
pub open spec fn idx_set(s: Seq<usize>) -> Set<int> {
    idx_seq(s).to_set()
}

/// The set of resource indices an item requires.
pub open spec fn req_set(it: Item) -> Set<int> {
    idx_set(it.req_indices@)
}

pub proof fn lemma_idx_set(s: Seq<usize>)
    ensures
        idx_set(s).finite(),
        forall|j: int| #[trigger] idx_set(s).contains(j)
            <==> exists|k: int| 0 <= k < s.len() && s[k] as int == j,
        idx_set(s).len() <= s.len(),
        s.no_duplicates() ==> idx_set(s).len() == s.len(),
{
    broadcast use group_seq_properties;
    assert forall|j: int| #[trigger] idx_set(s).contains(j)
        implies exists|k: int| 0 <= k < s.len() && s[k] as int == j by {
        let k = choose|k: int| 0 <= k < idx_seq(s).len() && idx_seq(s)[k] == j;
        assert(s[k] as int == j);
    }
    assert forall|j: int| (exists|k: int| 0 <= k < s.len() && s[k] as int == j)
        implies #[trigger] idx_set(s).contains(j) by {
        let k = choose|k: int| 0 <= k < s.len() && s[k] as int == j;
        assert(idx_seq(s)[k] == j);
    }
    idx_seq(s).lemma_cardinality_of_set();
    if s.no_duplicates() {
        assert(idx_seq(s).no_duplicates());
        idx_seq(s).unique_seq_to_set();
    }
}

/// The indices of a well-formed item are exactly the set bits of its vector.
pub open spec fn item_wf(it: Item, m: nat) -> bool {
    &&& it.req_indices@.no_duplicates()
    &&& forall|k: int| 0 <= k < it.req_indices@.len() ==> (it.req_indices@[k] as nat) < m
    &&& bits_of(it.reqs).len() == m
    &&& forall|j: int|
        0 <= j < m ==> (bits_of(it.reqs)[j] <==> idx_set(it.req_indices@).contains(j))
}

/// For a well-formed item, the set bits of the vector are its index set.
pub proof fn lemma_item_ones(it: Item, m: nat)
    requires
        item_wf(it, m),
    ensures
        ones(bits_of(it.reqs)) == req_set(it),
{
    lemma_idx_set(it.req_indices@);
    assert forall|j: int| req_set(it).contains(j) implies 0 <= j < m by {
        let k = choose|k: int| 0 <= k < it.req_indices@.len() && it.req_indices@[k] as int == j;
    }
    assert(ones(bits_of(it.reqs)) =~= req_set(it));
}

/// The union of the requirement sets of the selected items.
pub open spec fn union_req(items: Seq<Item>, sel: Seq<usize>) -> Set<int>
    decreases sel.len(),
{
    if sel.len() == 0 {
        Set::empty()
    } else {
        union_req(items, sel.drop_last()).union(req_set(items[sel.last() as int]))
    }
}

pub proof fn lemma_union_req(items: Seq<Item>, sel: Seq<usize>)
    requires
        forall|k: int| 0 <= k < sel.len() ==> (sel[k] as int) < items.len(),
    ensures
        union_req(items, sel).finite(),
        forall|j: int| #[trigger] union_req(items, sel).contains(j)
            <==> exists|k: int| 0 <= k < sel.len() && req_set(items[sel[k] as int]).contains(j),
    decreases sel.len(),
{
    broadcast use group_set_properties;
    if sel.len() == 0 {
    } else {
        lemma_union_req(items, sel.drop_last());
        lemma_idx_set(items[sel.last() as int].req_indices@);
        assert forall|j: int| #[trigger] union_req(items, sel).contains(j)
            implies exists|k: int| 0 <= k < sel.len() && req_set(items[sel[k] as int]).contains(j) by {
            if union_req(items, sel.drop_last()).contains(j) {
                let k = choose|k: int|
                    0 <= k < sel.drop_last().len()
                        && req_set(items[sel.drop_last()[k] as int]).contains(j);
                assert(sel[k] == sel.drop_last()[k]);
            } else {
                assert(req_set(items[sel[sel.len() - 1] as int]).contains(j));
            }
        }
        assert forall|j: int|
            (exists|k: int| 0 <= k < sel.len() && req_set(items[sel[k] as int]).contains(j))
            implies #[trigger] union_req(items, sel).contains(j) by {
            let k = choose|k: int| 0 <= k < sel.len() && req_set(items[sel[k] as int]).contains(j);
            if k < sel.len() - 1 {
                assert(sel.drop_last()[k] == sel[k]);
                assert(union_req(items, sel.drop_last()).contains(j));
            }
        }
    }
}

/// Appending one selected item unions in that item's requirements.
pub proof fn lemma_union_req_push(items: Seq<Item>, sel: Seq<usize>, i: usize)
    ensures
        union_req(items, sel.push(i)) == union_req(items, sel).union(req_set(items[i as int])),
{
    assert(sel.push(i).drop_last() =~= sel);
    assert(sel.push(i).last() == i);
}

/// The number of the first `n` requirement lists that hold resource `j`.
pub open spec fn card_upto(lists: Seq<Seq<usize>>, j: int, n: int) -> int
    decreases n,
{
    if n <= 0 {
        0
    } else {
        card_upto(lists, j, n - 1) + if idx_set(lists[n - 1]).contains(j) {
            1int
        } else {
            0int
        }
    }
}

/// The cardinality of resource `j`: how many of the eligible items require it.
pub open spec fn resource_card(lists: Seq<Seq<usize>>, j: int) -> int {
    card_upto(lists, j, lists.len() as int)
}

/// The requirement lists of a sequence of items.
pub open spec fn lists_of(items: Seq<Item>) -> Seq<Seq<usize>> {
    items.map_values(|it: Item| it.req_indices@)
}

pub proof fn lemma_card_upto_bounds(lists: Seq<Seq<usize>>, j: int, n: int)
    ensures
        0 <= card_upto(lists, j, n),
        card_upto(lists, j, n) <= if n <= 0 { 0int } else { n },
    decreases n,
{
    if n > 0 {
        lemma_card_upto_bounds(lists, j, n - 1);
    }
}

/// If some list among the first `n` holds `j`, the count is at least one.
pub proof fn lemma_card_upto_contains(lists: Seq<Seq<usize>>, j: int, n: int, i: int)
    requires
        0 <= i < n,
        idx_set(lists[i]).contains(j),
    ensures
        card_upto(lists, j, n) >= 1,
    decreases n,
{
    lemma_card_upto_bounds(lists, j, n - 1);
    if i < n - 1 {
        lemma_card_upto_contains(lists, j, n - 1, i);
    }
}

/// If two distinct lists among the first `n` hold `j`, the count is at least
/// two.
pub proof fn lemma_card_upto_two(lists: Seq<Seq<usize>>, j: int, n: int, i1: int, i2: int)
    requires
        0 <= i1 < i2 < n,
        idx_set(lists[i1]).contains(j),
        idx_set(lists[i2]).contains(j),
    ensures
        card_upto(lists, j, n) >= 2,
    decreases n,
{
    if i2 < n - 1 {
        lemma_card_upto_two(lists, j, n - 1, i1, i2);
        lemma_card_upto_bounds(lists, j, n);
    } else {
        lemma_card_upto_contains(lists, j, n - 1, i1);
    }
}

/// A resource of cardinality one is private: only its one holder requires it.
pub proof fn lemma_card_one_private(lists: Seq<Seq<usize>>, j: int, i: int, other: int)
    requires
        resource_card(lists, j) == 1,
        0 <= i < lists.len(),
        0 <= other < lists.len(),
        other != i,
        idx_set(lists[i]).contains(j),
    ensures
        !idx_set(lists[other]).contains(j),
{
    if idx_set(lists[other]).contains(j) {
        if i < other {
            lemma_card_upto_two(lists, j, lists.len() as int, i, other);
        } else {
            lemma_card_upto_two(lists, j, lists.len() as int, other, i);
        }
    }
}

/// One scarcity-cost term: the scaled reciprocal of a resource's cardinality.
pub open spec fn cost_term(c: int) -> int {
    if c <= 0 {
        0
    } else {
        COST_SCALE as int / c
    }
}

/// The sum of the scarcity costs of the first `n` required resources.
pub open spec fn cost_upto(lists: Seq<Seq<usize>>, idxs: Seq<usize>, n: int) -> int
    decreases n,
{
    if n <= 0 {
        0
    } else {
        cost_upto(lists, idxs, n - 1) + cost_term(resource_card(lists, idxs[n - 1] as int))
    }
}

/// An item's cost: the scarcity-cost sum of its requirements, saturated at
/// the largest representable value.
pub open spec fn item_cost(lists: Seq<Seq<usize>>, idxs: Seq<usize>) -> int {
    if cost_upto(lists, idxs, idxs.len() as int) <= u64::MAX as int {
        cost_upto(lists, idxs, idxs.len() as int)
    } else {
        u64::MAX as int
    }
}

pub proof fn lemma_cost_upto_nonneg(lists: Seq<Seq<usize>>, idxs: Seq<usize>, n: int)
    ensures
        0 <= cost_upto(lists, idxs, n),
    decreases n,
{
    if n > 0 {
        lemma_cost_upto_nonneg(lists, idxs, n - 1);
    }
}

/// An item is singular when some resource it requires has cardinality one.
pub open spec fn item_singular(lists: Seq<Seq<usize>>, idxs: Seq<usize>) -> bool {
    exists|k: int| 0 <= k < idxs.len() && resource_card(lists, idxs[k] as int) == 1
}

/// The requirement strings a domain assigns to a set of resource indices.
pub open spec fn dom_image(dom: Seq<Seq<char>>, s: Set<int>) -> Set<Seq<char>> {
    s.map(|j: int| dom[j])
}

/// Extending the domain does not change the image of an index set that the
/// old domain already covers.
pub proof fn lemma_dom_image_stable(dom1: Seq<Seq<char>>, dom2: Seq<Seq<char>>, s: Set<int>)
    requires
        dom1.len() <= dom2.len(),
        forall|i: int| 0 <= i < dom1.len() ==> dom2[i] == dom1[i],
        forall|j: int| #[trigger] s.contains(j) ==> 0 <= j < dom1.len(),
    ensures
        dom_image(dom2, s) == dom_image(dom1, s),
{
    assert forall|x: Seq<char>| #[trigger] dom_image(dom2, s).contains(x)
        implies dom_image(dom1, s).contains(x) by {
        let j = choose|j: int| s.contains(j) && dom2[j] == x;
        assert(dom1[j] == x);
    }
    assert forall|x: Seq<char>| #[trigger] dom_image(dom1, s).contains(x)
        implies dom_image(dom2, s).contains(x) by {
        let j = choose|j: int| s.contains(j) && dom1[j] == x;
        assert(dom2[j] == x);
    }
    assert(dom_image(dom2, s) =~= dom_image(dom1, s));
}

/// When a domain maps an index list pointwise onto a string list, the image
/// of the index set is the set of those strings.
pub proof fn lemma_dom_image_of_idxs(dom: Seq<Seq<char>>, idxs: Seq<usize>, strs: Seq<Seq<char>>)
    requires
        idxs.len() == strs.len(),
        forall|k: int| 0 <= k < idxs.len() ==> (idxs[k] as int) < dom.len(),
        forall|k: int| 0 <= k < idxs.len() ==> dom[idxs[k] as int] == strs[k],
    ensures
        dom_image(dom, idx_set(idxs)) == strs.to_set(),
{
    lemma_idx_set(idxs);
    assert forall|x: Seq<char>| #[trigger] dom_image(dom, idx_set(idxs)).contains(x)
        implies strs.to_set().contains(x) by {
        let j = choose|j: int| idx_set(idxs).contains(j) && dom[j] == x;
        let k = choose|k: int| 0 <= k < idxs.len() && idxs[k] as int == j;
        assert(strs[k] == x);
    }
    assert forall|x: Seq<char>| #[trigger] strs.to_set().contains(x)
        implies dom_image(dom, idx_set(idxs)).contains(x) by {
        let k = choose|k: int| 0 <= k < strs.len() && strs[k] == x;
        assert(idx_set(idxs).contains(idxs[k] as int));
        assert(dom[idxs[k] as int] == x);
    }
    assert(dom_image(dom, idx_set(idxs)) =~= strs.to_set());
}

/// The distinct requirement strings of one input pair.
pub open spec fn pair_strs(p: (Vec<String>, String)) -> Set<Seq<char>> {
    p.0.deep_view().to_set()
}

/// A pair is eligible when its distinct requirements alone fit the budget.
pub open spec fn eligible(p: (Vec<String>, String), budget: nat) -> bool {
    pair_strs(p).len() <= budget
}

/// The union of the requirement strings of the selected input pairs.
pub open spec fn union_strs(pairs: Seq<(Vec<String>, String)>, sel: Seq<int>) -> Set<Seq<char>>
    decreases sel.len(),
{
    if sel.len() == 0 {
        Set::empty()
    } else {
        union_strs(pairs, sel.drop_last()).union(pair_strs(pairs[sel.last()]))
    }
}

pub proof fn lemma_union_strs(pairs: Seq<(Vec<String>, String)>, sel: Seq<int>)
    requires
        forall|k: int| 0 <= k < sel.len() ==> 0 <= #[trigger] sel[k] < pairs.len(),
    ensures
        union_strs(pairs, sel).finite(),
        forall|s: Seq<char>| #[trigger] union_strs(pairs, sel).contains(s)
            <==> exists|k: int| 0 <= k < sel.len() && pair_strs(pairs[sel[k]]).contains(s),
    decreases sel.len(),
{
    broadcast use group_set_properties;
    if sel.len() == 0 {
    } else {
        lemma_union_strs(pairs, sel.drop_last());
        assert forall|s: Seq<char>| #[trigger] union_strs(pairs, sel).contains(s)
            implies exists|k: int| 0 <= k < sel.len() && pair_strs(pairs[sel[k]]).contains(s) by {
            if union_strs(pairs, sel.drop_last()).contains(s) {
                let k = choose|k: int|
                    0 <= k < sel.drop_last().len()
                        && pair_strs(pairs[sel.drop_last()[k]]).contains(s);
                assert(sel[k] == sel.drop_last()[k]);
            } else {
                assert(pair_strs(pairs[sel[sel.len() - 1]]).contains(s));
            }
        }
        assert forall|s: Seq<char>|
            (exists|k: int| 0 <= k < sel.len() && pair_strs(pairs[sel[k]]).contains(s))
            implies #[trigger] union_strs(pairs, sel).contains(s) by {
            let k = choose|k: int| 0 <= k < sel.len() && pair_strs(pairs[sel[k]]).contains(s);
            if k < sel.len() - 1 {
                assert(sel.drop_last()[k] == sel[k]);
                assert(union_strs(pairs, sel.drop_last()).contains(s));
            }
        }
    }
}

/// A feasible selection: distinct input pairs whose combined requirement
/// strings fit the budget.
pub open spec fn feasible_selection(
    pairs: Seq<(Vec<String>, String)>,
    budget: nat,
    sel: Seq<int>,
) -> bool {
    &&& sel.no_duplicates()
    &&& forall|k: int| 0 <= k < sel.len() ==> 0 <= #[trigger] sel[k] < pairs.len()
    &&& union_strs(pairs, sel).len() <= budget
}

/// `n` is the optimal selection size: some feasible selection reaches it and
/// none exceeds it.
pub open spec fn is_best(pairs: Seq<(Vec<String>, String)>, budget: nat, n: nat) -> bool {
    &&& exists|sel: Seq<int>| feasible_selection(pairs, budget, sel) && sel.len() == n
    &&& forall|sel: Seq<int>| feasible_selection(pairs, budget, sel) ==> sel.len() <= n
}

} // verus!

verus! {

/// A feasible selection of items: distinct in-range indices whose combined
/// requirements fit the budget.
pub open spec fn feasible_items(items: Seq<Item>, budget: nat, sel: Seq<usize>) -> bool {
    &&& sel.no_duplicates()
    &&& forall|k: int| 0 <= k < sel.len() ==> (#[trigger] sel[k] as int) < items.len()
    &&& union_req(items, sel).len() <= budget
}

/// An optimal selection of items: feasible, and no feasible selection is
/// larger.
pub open spec fn is_optimal_items(items: Seq<Item>, budget: nat, sopt: Seq<usize>) -> bool {
    &&& feasible_items(items, budget, sopt)
    &&& forall|sel: Seq<usize>| feasible_items(items, budget, sel) ==> sel.len() <= sopt.len()
}

/// If every entry of one selection occurs in another, so does every resource
/// of its union.
pub proof fn lemma_union_req_submono(items: Seq<Item>, t1: Seq<usize>, t2: Seq<usize>)
    requires
        forall|k: int| 0 <= k < t1.len() ==> t2.contains(#[trigger] t1[k]),
        forall|k: int| 0 <= k < t1.len() ==> (#[trigger] t1[k] as int) < items.len(),
        forall|k: int| 0 <= k < t2.len() ==> (#[trigger] t2[k] as int) < items.len(),
    ensures
        union_req(items, t1).subset_of(union_req(items, t2)),
{
    lemma_union_req(items, t1);
    lemma_union_req(items, t2);
    assert forall|j: int| union_req(items, t1).contains(j) implies union_req(
        items,
        t2,
    ).contains(j) by {
        let k = choose|k: int| 0 <= k < t1.len() && req_set(items[t1[k] as int]).contains(j);
        let q = choose|q: int| 0 <= q < t2.len() && t2[q] == t1[k];
        assert(req_set(items[t2[q] as int]).contains(j));
    }
}

/// A duplicate-free selection cannot hold more entries than there are items.
pub proof fn lemma_sel_len_bound(items: Seq<Item>, sel: Seq<usize>)
    requires
        sel.no_duplicates(),
        forall|k: int| 0 <= k < sel.len() ==> (#[trigger] sel[k] as int) < items.len(),
    ensures
        sel.len() <= items.len(),
{
    broadcast use vstd::seq_lib::group_seq_properties;
    sel.unique_seq_to_set();
    let idxs = idx_set(sel);
    lemma_idx_set(sel);
    vstd::set_lib::lemma_int_range(0, items.len() as int);
    assert forall|j: int| idxs.contains(j) implies vstd::set_lib::set_int_range(
        0,
        items.len() as int,
    ).contains(j) by {
        let k = choose|k: int| 0 <= k < sel.len() && sel[k] as int == j;
    }
    vstd::set_lib::lemma_len_subset(idxs, vstd::set_lib::set_int_range(0, items.len() as int));
}

/// Some optimal selection exists: grow any feasible selection until nothing
/// feasible is larger.
pub proof fn lemma_optimal_exists(items: Seq<Item>, budget: nat)
    ensures
        exists|sopt: Seq<usize>| is_optimal_items(items, budget, sopt),
{
    let empty = Seq::<usize>::empty();
    assert(union_req(items, empty) =~= Set::<int>::empty());
    assert(feasible_items(items, budget, empty));
    lemma_optimal_grow(items, budget, empty);
}

proof fn lemma_optimal_grow(items: Seq<Item>, budget: nat, sel: Seq<usize>)
    requires
        feasible_items(items, budget, sel),
    ensures
        exists|sopt: Seq<usize>| is_optimal_items(items, budget, sopt),
    decreases items.len() - sel.len(),
{
    lemma_sel_len_bound(items, sel);
    if exists|bigger: Seq<usize>|
        feasible_items(items, budget, bigger) && bigger.len() > sel.len() {
        let bigger = choose|bigger: Seq<usize>|
            feasible_items(items, budget, bigger) && bigger.len() > sel.len();
        lemma_sel_len_bound(items, bigger);
        lemma_optimal_grow(items, budget, bigger);
    } else {
        assert(is_optimal_items(items, budget, sel));
    }
}

} // verus!
