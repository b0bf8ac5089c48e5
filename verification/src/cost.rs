//! The resource indexer and the cost model: assigns every distinct resource
//! of the eligible items a stable index in the universe, and annotates each
//! item with its scarcity cost and its singular flag, together with a
//! cost-sorted candidate order for the search engine.

use vstd::prelude::*;
use crate::bits::ResourceBits;
use crate::bits::bits_of;
use crate::bits::bits_new;
use crate::bits::bits_set;
use crate::model::COST_SCALE;
use crate::model::Item;
use crate::model::card_upto;
use crate::model::cost_term;
use crate::model::cost_upto;
use crate::model::dom_image;
use crate::model::eligible;
use crate::model::idx_set;
use crate::model::item_cost;
use crate::model::item_singular;
use crate::model::item_wf;
use crate::model::lemma_card_upto_bounds;
use crate::model::lemma_card_upto_contains;
use crate::model::lemma_dom_image_of_idxs;
use crate::model::lemma_dom_image_stable;
use crate::model::lemma_idx_set;
use crate::model::lists_of;
use crate::model::pair_strs;
use crate::model::req_set;
use crate::model::resource_card;

verus! {

/// Looks a string up in a list of strings.
fn find_str(v: &Vec<String>, s: &String) -> (r: Option<usize>)
    ensures
        match r {
            Some(j) => j < v@.len() && v@[j as int]@ == s@,
            None => forall|k: int| 0 <= k < v@.len() ==> v@[k]@ != s@,
        },
{
    let mut k: usize = 0;
    while k < v.len()
        invariant
            k <= v@.len(),
            forall|i: int| 0 <= i < k ==> v@[i]@ != s@,
        decreases v@.len() - k,
    {
        if v[k].eq(s) {
            return Some(k);
        }
        k = k + 1;
    }
    None
}

/// Collects the distinct strings of a list, in first-seen order.
fn dedup_strs(src: &Vec<String>) -> (d: Vec<String>)
    ensures
        d.deep_view().no_duplicates(),
        d.deep_view().to_set() == src.deep_view().to_set(),
{
    let mut d: Vec<String> = Vec::new();
    let mut k: usize = 0;
    while k < src.len()
        invariant
            k <= src@.len(),
            d.deep_view().no_duplicates(),
            forall|x: Seq<char>| #[trigger] d.deep_view().contains(x)
                <==> exists|i: int| 0 <= i < k && src.deep_view()[i] == x,
        decreases src@.len() - k,
    {
        let ghost pre = d.deep_view();
        let found = find_str(&d, &src[k]);
        if found.is_none() {
            d.push(src[k].clone());
            proof {
                assert(d.deep_view() =~= pre.push(src@[k as int]@));
                assert(forall|i: int| 0 <= i < pre.len()
                    ==> #[trigger] pre[i] == d.deep_view()[i]);
                assert forall|x: Seq<char>| #[trigger] d.deep_view().contains(x)
                    implies exists|i: int| 0 <= i < k + 1 && src.deep_view()[i] == x by {
                    let i = choose|i: int| 0 <= i < d.deep_view().len() && d.deep_view()[i] == x;
                    if i < pre.len() {
                        assert(pre.contains(x));
                    } else {
                        assert(src.deep_view()[k as int] == x);
                    }
                }
                assert forall|x: Seq<char>|
                    (exists|i: int| 0 <= i < k + 1 && src.deep_view()[i] == x)
                    implies #[trigger] d.deep_view().contains(x) by {
                    let i = choose|i: int| 0 <= i < k + 1 && src.deep_view()[i] == x;
                    if i < k {
                        assert(pre.contains(x));
                        let p = choose|p: int| 0 <= p < pre.len() && pre[p] == x;
                        assert(d.deep_view()[p] == x);
                    } else {
                        assert(d.deep_view()[pre.len() as int] == x);
                    }
                }
            }
        } else {
            proof {
                let j = found.unwrap();
                assert(d.deep_view()[j as int] == d@[j as int]@);
                assert(src.deep_view()[k as int] == src@[k as int]@);
                assert(d.deep_view().contains(src.deep_view()[k as int]));
            }
        }
        k = k + 1;
    }
    proof {
        assert forall|x: Seq<char>| #[trigger] d.deep_view().to_set().contains(x)
            implies src.deep_view().to_set().contains(x) by {
            let i = choose|i: int| 0 <= i < src@.len() && src.deep_view()[i] == x;
        }
        assert(d.deep_view().to_set() =~= src.deep_view().to_set());
    }
    d
}

/// Finds a string's index in the universe, appending it when it is new.
fn push_index(domain: &mut Vec<String>, s: &String) -> (j: usize)
    requires
        old(domain).deep_view().no_duplicates(),
    ensures
        final(domain).deep_view().no_duplicates(),
        old(domain)@.len() <= final(domain)@.len(),
        forall|i: int| 0 <= i < old(domain)@.len()
            ==> #[trigger] final(domain).deep_view()[i] == old(domain).deep_view()[i],
        j < final(domain)@.len(),
        final(domain).deep_view()[j as int] == s@,
{
    let found = find_str(domain, s);
    match found {
        Some(j) => j,
        None => {
            let ghost pre = domain.deep_view();
            let j = domain.len();
            domain.push(s.clone());
            proof {
                assert(domain.deep_view() =~= pre.push(s@));
                assert forall|i1: int, i2: int|
                    0 <= i1 < i2 < domain.deep_view().len()
                    implies domain.deep_view()[i1] != domain.deep_view()[i2] by {
                    if i2 < pre.len() {
                    } else {
                        assert(domain.deep_view()[i2] == s@);
                        assert(pre[i1] != s@);
                    }
                }
            }
            j
        },
    }
}

/// Indexes one deduplicated requirement list into the universe, extending the
/// universe with any resource not seen before.
fn index_pair(domain: &mut Vec<String>, strs: &Vec<String>) -> (idxs: Vec<usize>)
    requires
        old(domain).deep_view().no_duplicates(),
        strs.deep_view().no_duplicates(),
    ensures
        final(domain).deep_view().no_duplicates(),
        old(domain)@.len() <= final(domain)@.len(),
        forall|i: int| 0 <= i < old(domain)@.len()
            ==> #[trigger] final(domain).deep_view()[i] == old(domain).deep_view()[i],
        idxs@.len() == strs@.len(),
        idxs@.no_duplicates(),
        forall|k: int| 0 <= k < idxs@.len()
            ==> (#[trigger] idxs@[k] as int) < final(domain)@.len(),
        forall|k: int| 0 <= k < idxs@.len()
            ==> final(domain).deep_view()[#[trigger] idxs@[k] as int] == strs.deep_view()[k],
{
    let mut idxs: Vec<usize> = Vec::new();
    let mut k: usize = 0;
    while k < strs.len()
        invariant
            k <= strs@.len(),
            strs.deep_view().no_duplicates(),
            domain.deep_view().no_duplicates(),
            old(domain)@.len() <= domain@.len(),
            forall|i: int| 0 <= i < old(domain)@.len()
                ==> #[trigger] domain.deep_view()[i] == old(domain).deep_view()[i],
            idxs@.len() == k,
            forall|kk: int| 0 <= kk < k ==> (#[trigger] idxs@[kk] as int) < domain@.len(),
            forall|kk: int| 0 <= kk < k
                ==> domain.deep_view()[#[trigger] idxs@[kk] as int] == strs.deep_view()[kk],
        decreases strs@.len() - k,
    {
        let ghost mid = domain.deep_view();
        let j = push_index(domain, &strs[k]);
        proof {
            assert(strs.deep_view()[k as int] == strs@[k as int]@);
        }
        idxs.push(j);
        k = k + 1;
    }
    proof {
        assert forall|k1: int, k2: int| 0 <= k1 < k2 < idxs@.len()
            implies idxs@[k1] != idxs@[k2] by {
            assert(domain.deep_view()[idxs@[k1] as int] == strs.deep_view()[k1]);
            assert(domain.deep_view()[idxs@[k2] as int] == strs.deep_view()[k2]);
        }
    }
    idxs
}

/// Builds the bit-vector form of one requirement list over a universe of
/// `m` resources.
fn build_bits(idxs: &Vec<usize>, m: usize) -> (b: ResourceBits)
    requires
        forall|k: int| 0 <= k < idxs@.len() ==> (#[trigger] idxs@[k] as int) < m,
    ensures
        bits_of(b).len() == m,
        forall|j: int| 0 <= j < m ==> (bits_of(b)[j] <==> idx_set(idxs@).contains(j)),
{
    let mut b = bits_new(m);
    let mut k: usize = 0;
    while k < idxs.len()
        invariant
            k <= idxs@.len(),
            forall|kk: int| 0 <= kk < idxs@.len() ==> (#[trigger] idxs@[kk] as int) < m,
            bits_of(b).len() == m,
            forall|j: int| 0 <= j < m
                ==> (bits_of(b)[j] <==> exists|kk: int| 0 <= kk < k && idxs@[kk] as int == j),
        decreases idxs@.len() - k,
    {
        let ghost pre = bits_of(b);
        bits_set(&mut b, idxs[k]);
        proof {
            assert forall|j: int| 0 <= j < m
                implies (bits_of(b)[j] <==> exists|kk: int| 0 <= kk < k + 1 && idxs@[kk] as int
                    == j) by {
                if j == idxs@[k as int] as int {
                    assert(idxs@[k as int] as int == j);
                } else {
                    assert(bits_of(b)[j] == pre[j]);
                }
            }
        }
        k = k + 1;
    }
    proof {
        lemma_idx_set(idxs@);
    }
    b
}

} // verus!

verus! {

/// Copies a list of indices.
pub(crate) fn clone_usizes(v: &Vec<usize>) -> (r: Vec<usize>)
    ensures
        r@ == v@,
{
    let mut r: Vec<usize> = Vec::new();
    let mut k: usize = 0;
    while k < v.len()
        invariant
            k <= v@.len(),
            r@ == v@.take(k as int),
        decreases v@.len() - k,
    {
        r.push(v[k]);
        proof {
            assert(v@.take(k + 1) =~= v@.take(k as int).push(v@[k as int]));
        }
        k = k + 1;
    }
    proof {
        assert(v@.take(v@.len() as int) =~= v@);
    }
    r
}

/// Counts, for every resource of the universe, how many requirement lists
/// hold it: the cardinality table of the cost model.
fn tally(lists: &Vec<Vec<usize>>, m: usize) -> (counts: Vec<usize>)
    requires
        forall|i: int| 0 <= i < lists@.len() ==> (#[trigger] lists@[i])@.no_duplicates(),
        forall|i: int, k: int|
            0 <= i < lists@.len() && 0 <= k < lists@[i]@.len()
                ==> (#[trigger] lists@[i]@[k] as int) < m,
    ensures
        counts@.len() == m,
        forall|j: int| 0 <= j < m
            ==> #[trigger] counts@[j] == resource_card(lists.deep_view(), j),
{
    let ghost ldv = lists.deep_view();
    proof {
        assert forall|i: int| 0 <= i < lists@.len()
            implies #[trigger] ldv[i] == lists@[i]@ by {
            assert(ldv[i] =~= lists@[i]@);
        }
    }
    let mut counts: Vec<usize> = Vec::new();
    while counts.len() < m
        invariant
            counts@.len() <= m,
            forall|j: int| 0 <= j < counts@.len() ==> #[trigger] counts@[j] == 0,
        decreases m - counts@.len(),
    {
        counts.push(0);
    }
    let mut i: usize = 0;
    while i < lists.len()
        invariant
            i <= lists@.len(),
            ldv == lists.deep_view(),
            ldv.len() == lists@.len(),
            forall|ii: int| 0 <= ii < lists@.len() ==> #[trigger] ldv[ii] == lists@[ii]@,
            forall|ii: int| 0 <= ii < lists@.len()
                ==> (#[trigger] lists@[ii])@.no_duplicates(),
            forall|ii: int, k: int|
                0 <= ii < lists@.len() && 0 <= k < lists@[ii]@.len()
                    ==> (#[trigger] lists@[ii]@[k] as int) < m,
            counts@.len() == m,
            forall|j: int| 0 <= j < m ==> #[trigger] counts@[j] == card_upto(ldv, j, i as int),
        decreases lists@.len() - i,
    {
        let inner_len = lists[i].len();
        let mut k: usize = 0;
        while k < inner_len
            invariant
                0 <= i < lists@.len(),
                lists@.len() <= usize::MAX,
                k <= inner_len,
                inner_len == lists@[i as int]@.len(),
                ldv.len() == lists@.len(),
                forall|ii: int| 0 <= ii < lists@.len() ==> #[trigger] ldv[ii] == lists@[ii]@,
                forall|ii: int| 0 <= ii < lists@.len()
                    ==> (#[trigger] lists@[ii])@.no_duplicates(),
                forall|ii: int, kk: int|
                    0 <= ii < lists@.len() && 0 <= kk < lists@[ii]@.len()
                        ==> (#[trigger] lists@[ii]@[kk] as int) < m,
                counts@.len() == m,
                forall|j: int| 0 <= j < m
                    ==> #[trigger] counts@[j] == card_upto(ldv, j, i as int) + (
                    if (exists|kk: int| 0 <= kk < k && lists@[i as int]@[kk] as int == j) {
                        1int
                    } else {
                        0int
                    }),
            decreases inner_len - k,
        {
            let jj = lists[i][k];
            proof {
                lemma_card_upto_bounds(ldv, jj as int, i as int);
                assert(!(exists|kk: int|
                    0 <= kk < k && lists@[i as int]@[kk] as int == jj as int));
            }
            let c = counts[jj];
            proof {
                assert(c == card_upto(ldv, jj as int, i as int));
                lemma_card_upto_bounds(ldv, jj as int, i as int);
            }
            counts[jj] = c + 1;
            proof {
                assert forall|j: int| 0 <= j < m
                    implies #[trigger] counts@[j] == card_upto(ldv, j, i as int) + (
                    if (exists|kk: int| 0 <= kk < k + 1 && lists@[i as int]@[kk] as int == j) {
                        1int
                    } else {
                        0int
                    }) by {
                    if j == jj as int {
                        assert(lists@[i as int]@[k as int] as int == j);
                    } else {
                        assert((exists|kk: int|
                            0 <= kk < k + 1 && lists@[i as int]@[kk] as int == j)
                            == (exists|kk: int|
                            0 <= kk < k && lists@[i as int]@[kk] as int == j));
                    }
                }
            }
            k = k + 1;
        }
        proof {
            lemma_idx_set(lists@[i as int]@);
            assert forall|j: int| 0 <= j < m
                implies #[trigger] counts@[j] == card_upto(ldv, j, i + 1) by {
                assert(idx_set(ldv[i as int]).contains(j)
                    == (exists|kk: int|
                    0 <= kk < inner_len && lists@[i as int]@[kk] as int == j));
            }
        }
        i = i + 1;
    }
    counts
}

} // verus!

verus! {

/// Computes one item's scarcity cost (saturated at `u64::MAX`) and its
/// singular flag from the cardinality table.
fn score_item(
    idxs: &Vec<usize>,
    counts: &Vec<usize>,
    Ghost(ldv): Ghost<Seq<Seq<usize>>>,
    m: usize,
) -> (r: (u64, bool))
    requires
        counts@.len() == m,
        forall|k: int| 0 <= k < idxs@.len() ==> (#[trigger] idxs@[k] as int) < m,
        forall|j: int| 0 <= j < m ==> #[trigger] counts@[j] == resource_card(ldv, j),
        forall|k: int| 0 <= k < idxs@.len()
            ==> resource_card(ldv, #[trigger] idxs@[k] as int) >= 1,
    ensures
        r.0 == item_cost(ldv, idxs@),
        r.1 == item_singular(ldv, idxs@),
{
    let mut cost: u64 = 0;
    let mut singular = false;
    let mut k: usize = 0;
    while k < idxs.len()
        invariant
            k <= idxs@.len(),
            counts@.len() == m,
            forall|kk: int| 0 <= kk < idxs@.len() ==> (#[trigger] idxs@[kk] as int) < m,
            forall|j: int| 0 <= j < m ==> #[trigger] counts@[j] == resource_card(ldv, j),
            forall|kk: int| 0 <= kk < idxs@.len()
                ==> resource_card(ldv, #[trigger] idxs@[kk] as int) >= 1,
            cost == if cost_upto(ldv, idxs@, k as int) <= u64::MAX as int {
                cost_upto(ldv, idxs@, k as int)
            } else {
                u64::MAX as int
            },
            singular == exists|kk: int|
                0 <= kk < k && resource_card(ldv, idxs@[kk] as int) == 1,
        decreases idxs@.len() - k,
    {
        let c = counts[idxs[k]];
        let t: u64 = COST_SCALE / (c as u64);
        proof {
            assert(c as int == resource_card(ldv, idxs@[k as int] as int));
            assert(t as int == cost_term(resource_card(ldv, idxs@[k as int] as int)));
            crate::model::lemma_cost_upto_nonneg(ldv, idxs@, k as int);
        }
        cost = cost.saturating_add(t);
        if c == 1 {
            singular = true;
            proof {
                assert(resource_card(ldv, idxs@[k as int] as int) == 1);
            }
        }
        proof {
            assert((exists|kk: int|
                0 <= kk < k + 1 && resource_card(ldv, idxs@[kk] as int) == 1)
                == (singular || exists|kk: int|
                0 <= kk < k && resource_card(ldv, idxs@[kk] as int) == 1)) by {
                if singular && !(exists|kk: int|
                    0 <= kk < k && resource_card(ldv, idxs@[kk] as int) == 1) {
                    assert(resource_card(ldv, idxs@[k as int] as int) == 1);
                }
            }
        }
        k = k + 1;
    }
    (cost, singular)
}

/// Builds the annotated item list from the indexed names and requirement
/// lists and the cardinality table.
fn annotate(
    names: &Vec<String>,
    lists: &Vec<Vec<usize>>,
    counts: &Vec<usize>,
    m: usize,
) -> (items: Vec<Item>)
    requires
        names@.len() == lists@.len(),
        counts@.len() == m,
        forall|i: int| 0 <= i < lists@.len() ==> (#[trigger] lists@[i])@.no_duplicates(),
        forall|i: int, k: int|
            0 <= i < lists@.len() && 0 <= k < lists@[i]@.len()
                ==> (#[trigger] lists@[i]@[k] as int) < m,
        forall|j: int| 0 <= j < m
            ==> #[trigger] counts@[j] == resource_card(lists.deep_view(), j),
    ensures
        items@.len() == lists@.len(),
        forall|i: int| 0 <= i < items@.len()
            ==> (#[trigger] items@[i]).name@ == names.deep_view()[i],
        forall|i: int| 0 <= i < items@.len()
            ==> (#[trigger] items@[i]).req_indices@ == lists@[i]@,
        forall|i: int| 0 <= i < items@.len() ==> item_wf(#[trigger] items@[i], m as nat),
        forall|i: int| 0 <= i < items@.len()
            ==> (#[trigger] items@[i]).cost == item_cost(lists.deep_view(), items@[i].req_indices@),
        forall|i: int| 0 <= i < items@.len()
            ==> ((#[trigger] items@[i]).singular
                <==> item_singular(lists.deep_view(), items@[i].req_indices@)),
{
    let ghost ldv = lists.deep_view();
    proof {
        assert forall|i: int| 0 <= i < lists@.len()
            implies #[trigger] ldv[i] == lists@[i]@ by {
            assert(ldv[i] =~= lists@[i]@);
        }
    }
    let mut items: Vec<Item> = Vec::new();
    let mut i: usize = 0;
    while i < lists.len()
        invariant
            i <= lists@.len(),
            names@.len() == lists@.len(),
            counts@.len() == m,
            ldv == lists.deep_view(),
            ldv.len() == lists@.len(),
            forall|ii: int| 0 <= ii < lists@.len() ==> #[trigger] ldv[ii] == lists@[ii]@,
            forall|ii: int| 0 <= ii < lists@.len()
                ==> (#[trigger] lists@[ii])@.no_duplicates(),
            forall|ii: int, k: int|
                0 <= ii < lists@.len() && 0 <= k < lists@[ii]@.len()
                    ==> (#[trigger] lists@[ii]@[k] as int) < m,
            forall|j: int| 0 <= j < m ==> #[trigger] counts@[j] == resource_card(ldv, j),
            items@.len() == i,
            forall|ii: int| 0 <= ii < i
                ==> (#[trigger] items@[ii]).name@ == names.deep_view()[ii],
            forall|ii: int| 0 <= ii < i
                ==> (#[trigger] items@[ii]).req_indices@ == lists@[ii]@,
            forall|ii: int| 0 <= ii < i ==> item_wf(#[trigger] items@[ii], m as nat),
            forall|ii: int| 0 <= ii < i
                ==> (#[trigger] items@[ii]).cost == item_cost(ldv, items@[ii].req_indices@),
            forall|ii: int| 0 <= ii < i
                ==> ((#[trigger] items@[ii]).singular
                    <==> item_singular(ldv, items@[ii].req_indices@)),
        decreases lists@.len() - i,
    {
        proof {
            assert forall|k: int| 0 <= k < lists@[i as int]@.len()
                implies resource_card(ldv, #[trigger] lists@[i as int]@[k] as int) >= 1 by {
                lemma_idx_set(ldv[i as int]);
                assert(idx_set(ldv[i as int]).contains(lists@[i as int]@[k] as int));
                lemma_card_upto_contains(
                    ldv,
                    lists@[i as int]@[k] as int,
                    ldv.len() as int,
                    i as int,
                );
            }
        }
        let (cost, singular) = score_item(&lists[i], counts, Ghost(ldv), m);
        let req_indices = clone_usizes(&lists[i]);
        let reqs = build_bits(&lists[i], m);
        let name = names[i].clone();
        let it = Item { name, req_indices, reqs, cost, singular };
        proof {
            lemma_idx_set(it.req_indices@);
            assert(names.deep_view()[i as int] == names@[i as int]@);
            assert(item_wf(it, m as nat));
        }
        items.push(it);
        i = i + 1;
    }
    items
}

/// Orders the items ascending by cost: the search pops the highest-cost
/// candidate from the tail of this order.
fn sort_by_cost(items: &Vec<Item>) -> (order: Vec<usize>)
    ensures
        order@.len() == items@.len(),
        order@.no_duplicates(),
        forall|k: int| 0 <= k < order@.len() ==> (#[trigger] order@[k] as int) < items@.len(),
        forall|a: int, b: int|
            0 <= a <= b < order@.len()
                ==> items@[order@[a] as int].cost <= items@[order@[b] as int].cost,
        forall|i: int| 0 <= i < items@.len() ==> #[trigger] order@.contains(i as usize),
{
    let mut order: Vec<usize> = Vec::new();
    let mut i: usize = 0;
    while i < items.len()
        invariant
            i <= items@.len(),
            order@.len() == i,
            forall|k: int| 0 <= k < order@.len() ==> (#[trigger] order@[k] as int) < i,
            order@.no_duplicates(),
            forall|a: int, b: int|
                0 <= a <= b < order@.len()
                    ==> items@[order@[a] as int].cost <= items@[order@[b] as int].cost,
        decreases items@.len() - i,
    {
        let ci = items[i].cost;
        let mut p: usize = 0;
        while p < order.len() && items[order[p]].cost <= ci
            invariant
                p <= order@.len(),
                order@.len() == i,
                i < items@.len(),
                ci == items@[i as int].cost,
                forall|k: int| 0 <= k < order@.len()
                    ==> (#[trigger] order@[k] as int) < i,
                forall|a: int, b: int|
                    0 <= a <= b < order@.len()
                        ==> items@[order@[a] as int].cost <= items@[order@[b] as int].cost,
                forall|q: int| 0 <= q < p ==> items@[order@[q] as int].cost <= ci,
            decreases order@.len() - p,
        {
            p = p + 1;
        }
        let ghost pre = order@;
        order.insert(p, i);
        proof {
            assert(order@ == pre.insert(p as int, i as usize));
            assert forall|k: int| 0 <= k < order@.len()
                implies (#[trigger] order@[k] as int) < i + 1 by {
                if k < p {
                    assert(order@[k] == pre[k]);
                } else if k > p {
                    assert(order@[k] == pre[k - 1]);
                }
            }
            assert forall|a: int, b: int| 0 <= a < b < order@.len()
                implies order@[a] != order@[b] by {
                if a != p && b != p {
                    let pa = if a < p { a } else { a - 1 };
                    let pb = if b < p { b } else { b - 1 };
                    assert(order@[a] == pre[pa]);
                    assert(order@[b] == pre[pb]);
                } else if a == p {
                    assert(order@[b] == pre[b - 1]);
                    assert((pre[b - 1] as int) < i);
                } else {
                    assert(order@[a] == pre[a]);
                    assert((pre[a] as int) < i);
                }
            }
            assert forall|a: int, b: int| 0 <= a <= b < order@.len()
                implies items@[order@[a] as int].cost <= items@[order@[b] as int].cost by {
                let pa = if a < p { a } else { a - 1 };
                let pb = if b < p { b } else { b - 1 };
                if a == p && b == p {
                } else if a == p {
                    assert(order@[b] == pre[pb]);
                    assert(p < pre.len() + 1);
                    if p < pre.len() {
                        assert(items@[pre[p as int] as int].cost > ci || p == pre.len());
                    }
                    assert(p <= pb < pre.len());
                    assert(items@[pre[p as int] as int].cost <= items@[pre[pb] as int].cost);
                } else if b == p {
                    assert(order@[a] == pre[pa]);
                    assert(pa < p);
                    assert(items@[pre[pa] as int].cost <= ci);
                } else {
                    assert(order@[a] == pre[pa]);
                    assert(order@[b] == pre[pb]);
                    if a < p && b > p {
                        assert(pa <= pb);
                    }
                }
            }
        }
        i = i + 1;
    }
    proof {
        broadcast use vstd::seq_lib::group_seq_properties;

        let n = items@.len() as int;
        lemma_idx_set(order@);
        vstd::set_lib::lemma_int_range(0, n);
        assert forall|j: int| idx_set(order@).contains(j)
            implies vstd::set_lib::set_int_range(0, n).contains(j) by {
            let k = choose|k: int| 0 <= k < order@.len() && order@[k] as int == j;
        }
        vstd::set_lib::lemma_len_subset(idx_set(order@), vstd::set_lib::set_int_range(0, n));
        vstd::set_lib::lemma_subset_equality(
            idx_set(order@),
            vstd::set_lib::set_int_range(0, n),
        );
        assert forall|i: int| 0 <= i < items@.len() implies #[trigger] order@.contains(i as usize) by {
            assert(idx_set(order@).contains(i));
            let k = choose|k: int| 0 <= k < order@.len() && order@[k] as int == i;
            assert(order@[k] == i as usize);
        }
    }
    order
}

} // verus!

verus! {

/// The output of the indexer and cost model: the resource universe, the
/// annotated eligible items (in input order), and the cost-sorted candidate
/// order. `picks` records which input pair each item came from.
pub struct Prepared {
    pub domain: Vec<String>,
    pub items: Vec<Item>,
    pub order: Vec<usize>,
    pub picks: Ghost<Seq<int>>,
}

/// Everything `amortized_cost` establishes: the universe indexes the
/// resources of the eligible pairs without duplication, the items are the
/// eligible pairs in input order with exact cost and singular annotations,
/// and the order sorts them ascending by cost.
pub open spec fn amortized_post(
    pairs: Seq<(Vec<String>, String)>,
    budget: nat,
    r: Prepared,
) -> bool {
    let dom = r.domain.deep_view();
    let lists = lists_of(r.items@);
    &&& dom.no_duplicates()
    &&& r.picks@.len() == r.items@.len()
    &&& forall|k1: int, k2: int|
        0 <= k1 < k2 < r.picks@.len() ==> #[trigger] r.picks@[k1] < #[trigger] r.picks@[k2]
    &&& forall|k: int| 0 <= k < r.picks@.len() ==> 0 <= #[trigger] r.picks@[k] < pairs.len()
    &&& forall|q: int|
        0 <= q < pairs.len()
            ==> (eligible(#[trigger] pairs[q], budget) <==> r.picks@.contains(q))
    &&& forall|i: int| 0 <= i < r.items@.len() ==> item_wf(#[trigger] r.items@[i], dom.len())
    &&& forall|i: int|
        0 <= i < r.items@.len()
            ==> (#[trigger] r.items@[i]).name@ == pairs[r.picks@[i]].1@
    &&& forall|i: int|
        0 <= i < r.items@.len()
            ==> dom_image(dom, req_set(#[trigger] r.items@[i])) == pair_strs(
                pairs[r.picks@[i]],
            )
    &&& forall|i: int|
        0 <= i < r.items@.len() ==> req_set(#[trigger] r.items@[i]).len() <= budget
    &&& forall|i: int|
        0 <= i < r.items@.len()
            ==> (#[trigger] r.items@[i]).cost == item_cost(lists, r.items@[i].req_indices@)
    &&& forall|i: int|
        0 <= i < r.items@.len()
            ==> ((#[trigger] r.items@[i]).singular
                <==> item_singular(lists, r.items@[i].req_indices@))
    &&& r.order@.len() == r.items@.len()
    &&& r.order@.no_duplicates()
    &&& forall|i: int| 0 <= i < r.items@.len() ==> #[trigger] r.order@.contains(i as usize)
    &&& forall|k: int|
        0 <= k < r.order@.len() ==> (#[trigger] r.order@[k] as int) < r.items@.len()
    &&& forall|a: int, b: int|
        0 <= a <= b < r.order@.len()
            ==> r.items@[r.order@[a] as int].cost <= r.items@[r.order@[b] as int].cost
}

/// Indexes the eligible input pairs into a fresh resource universe and
/// annotates each with the cost model's scarcity cost and singular flag;
/// pairs whose own distinct requirements exceed the budget are dropped
/// before the search ever sees them.
pub fn amortized_cost(pairs: &Vec<(Vec<String>, String)>, budget: usize) -> (r: Prepared)
    ensures
        amortized_post(pairs@, budget as nat, r),
{
    let mut domain: Vec<String> = Vec::new();
    let mut names: Vec<String> = Vec::new();
    let mut lists: Vec<Vec<usize>> = Vec::new();
    let ghost mut picks: Seq<int> = Seq::<int>::empty();
    let mut p: usize = 0;
    while p < pairs.len()
        invariant
            p <= pairs@.len(),
            domain.deep_view().no_duplicates(),
            names@.len() == lists@.len(),
            picks.len() == lists@.len(),
            forall|k1: int, k2: int|
                0 <= k1 < k2 < picks.len() ==> #[trigger] picks[k1] < #[trigger] picks[k2],
            forall|k: int| 0 <= k < picks.len() ==> 0 <= #[trigger] picks[k] < p,
            forall|q: int|
                0 <= q < p
                    ==> (eligible(#[trigger] pairs@[q], budget as nat) <==> picks.contains(q)),
            forall|i: int| 0 <= i < lists@.len() ==> (#[trigger] lists@[i])@.no_duplicates(),
            forall|i: int, k: int|
                0 <= i < lists@.len() && 0 <= k < lists@[i]@.len()
                    ==> (#[trigger] lists@[i]@[k] as int) < domain@.len(),
            forall|i: int| 0 <= i < lists@.len() ==> (#[trigger] lists@[i])@.len() <= budget,
            forall|i: int|
                0 <= i < lists@.len()
                    ==> names.deep_view()[i] == pairs@[#[trigger] picks[i]].1@,
            forall|i: int|
                0 <= i < lists@.len()
                    ==> dom_image(domain.deep_view(), idx_set((#[trigger] lists@[i])@))
                        == pair_strs(pairs@[picks[i]]),
        decreases pairs@.len() - p,
    {
        broadcast use vstd::seq_lib::group_seq_properties;

        let d = dedup_strs(&pairs[p].0);
        proof {
            d.deep_view().unique_seq_to_set();
            assert(pair_strs(pairs@[p as int]) == d.deep_view().to_set());
            assert(pair_strs(pairs@[p as int]).len() == d@.len());
        }
        if d.len() <= budget {
            let ghost pre_dom = domain.deep_view();
            let ghost pre_names = names.deep_view();
            let ghost pre_lists = lists@;
            let ghost pre_picks = picks;
            let idxs = index_pair(&mut domain, &d);
            names.push(pairs[p].1.clone());
            lists.push(idxs);
            proof {
                picks = picks.push(p as int);
                assert(names.deep_view() =~= pre_names.push(pairs@[p as int].1@));
                assert(lists@ == pre_lists.push(idxs));
                // earlier images survive the universe growth
                assert forall|i: int| 0 <= i < pre_lists.len()
                    implies dom_image(domain.deep_view(), idx_set((#[trigger] lists@[i])@))
                        == pair_strs(pairs@[picks[i]]) by {
                    assert(lists@[i] == pre_lists[i]);
                    assert(picks[i] == pre_picks[i]);
                    lemma_idx_set(pre_lists[i]@);
                    assert forall|j: int| #[trigger] idx_set(pre_lists[i]@).contains(j)
                        implies 0 <= j < pre_dom.len() by {
                        let k = choose|k: int|
                            0 <= k < pre_lists[i]@.len() && pre_lists[i]@[k] as int == j;
                    }
                    lemma_dom_image_stable(pre_dom, domain.deep_view(), idx_set(pre_lists[i]@));
                }
                // the new item's image is exactly the pair's requirement strings
                lemma_dom_image_of_idxs(domain.deep_view(), idxs@, d.deep_view());
                assert(lists@[pre_lists.len() as int] == idxs);
                assert(picks[pre_lists.len() as int] == p as int);
                assert(dom_image(domain.deep_view(), idx_set(idxs@)) == pair_strs(
                    pairs@[p as int],
                ));
                assert(eligible(pairs@[p as int], budget as nat));
                assert forall|q: int| 0 <= q < p + 1
                    implies (eligible(#[trigger] pairs@[q], budget as nat) <==> picks.contains(
                    q,
                )) by {
                    if q < p {
                        if pre_picks.contains(q) {
                            let k = choose|k: int|
                                0 <= k < pre_picks.len() && pre_picks[k] == q;
                            assert(picks[k] == q);
                        }
                        if picks.contains(q) {
                            let k = choose|k: int| 0 <= k < picks.len() && picks[k] == q;
                            assert(k < pre_picks.len());
                            assert(pre_picks.contains(q));
                        }
                    } else {
                        assert(picks[picks.len() - 1] == q);
                    }
                }
            }
        } else {
            proof {
                assert(!eligible(pairs@[p as int], budget as nat));
                assert forall|q: int| 0 <= q < p + 1
                    implies (eligible(#[trigger] pairs@[q], budget as nat) <==> picks.contains(
                    q,
                )) by {
                    if q == p && picks.contains(q) {
                        let k = choose|k: int| 0 <= k < picks.len() && picks[k] == q;
                    }
                }
            }
        }
        p = p + 1;
    }
    let m = domain.len();
    let counts = tally(&lists, m);
    let items = annotate(&names, &lists, &counts, m);
    let order = sort_by_cost(&items);
    proof {
        assert(lists_of(items@) =~= lists.deep_view()) by {
            assert forall|i: int| 0 <= i < items@.len()
                implies #[trigger] lists_of(items@)[i] == lists.deep_view()[i] by {
                assert(lists_of(items@)[i] == items@[i].req_indices@);
                assert(lists.deep_view()[i] =~= lists@[i]@);
            }
        }
        assert forall|i: int| 0 <= i < items@.len()
            implies req_set(#[trigger] items@[i]).len() <= budget by {
            lemma_idx_set(items@[i].req_indices@);
        }
    }
    Prepared { domain, items, order, picks: Ghost(picks) }
}

} // verus!
