use crate::text::{text_le, text_not_after, text_order_is_total, text_order_is_transitive};
use vstd::prelude::*;
use vstd::string::*;

verus! {

/// In a listing, the item at index `a` stands before the one at index `b`:
/// it is newer, or as new and earlier in the collection.
pub open spec fn precedes(stamps: Seq<u64>, a: int, b: int) -> bool {
    stamps[a] > stamps[b] || (stamps[a] == stamps[b] && a < b)
}

/// `order` lists the first `n` indices of `stamps`, newest first, items of
/// one time in the order of the collection.
pub open spec fn lists_newest_first(stamps: Seq<u64>, order: Seq<usize>, n: int) -> bool {
    &&& order.len() == n
    &&& forall|k: int| 0 <= k < order.len() ==> (#[trigger] order[k]) < n
    &&& forall|a: int, b: int|
        0 <= a < b < order.len() ==> precedes(stamps, #[trigger] order[a] as int, #[trigger] order[b] as int)
}

/// `order` lists every index of `stamps`, newest first.
pub open spec fn is_newest_first(stamps: Seq<u64>, order: Seq<usize>) -> bool {
    lists_newest_first(stamps, order, stamps.len() as int)
}

/// Where a page starts: the offset, or the end of the collection.
pub open spec fn page_start(n: nat, offset: u64) -> nat {
    if offset as nat <= n {
        offset as nat
    } else {
        n
    }
}

/// How many items a page holds: up to `limit`, as far as the collection goes.
pub open spec fn page_len(n: nat, offset: u64, limit: u64) -> nat {
    let rest = (n - page_start(n, offset)) as nat;
    if limit as nat <= rest {
        limit as nat
    } else {
        rest
    }
}

/// The indices of a page, in the order in which it shows them.
pub open spec fn page_of(order: Seq<usize>, offset: u64, limit: u64) -> Seq<usize> {
    order.subrange(
        page_start(order.len(), offset) as int,
        (page_start(order.len(), offset) + page_len(order.len(), offset, limit)) as int,
    )
}

/// The indices of `stamps` in descending order of time; equal times keep
/// the order of the collection.
pub fn newest_first(stamps: &Vec<u64>) -> (order: Vec<usize>)
    ensures
        is_newest_first(stamps@, order@),
{
    let mut order: Vec<usize> = Vec::new();
    let mut i: usize = 0;
    while i < stamps.len()
        invariant
            i <= stamps@.len(),
            lists_newest_first(stamps@, order@, i as int),
        decreases stamps@.len() - i,
    {
        let mut p: usize = 0;
        while p < order.len() && stamps[order[p]] >= stamps[i]
            invariant
                p <= order@.len(),
                i < stamps@.len(),
                lists_newest_first(stamps@, order@, i as int),
                forall|k: int| 0 <= k < p ==> stamps@[(#[trigger] order@[k]) as int] >= stamps@[i as int],
            decreases order@.len() - p,
        {
            p += 1;
        }
        let ghost before = order@;
        order.insert(p, i);
        proof {
            assert forall|a: int, b: int| 0 <= a < b < order@.len() implies precedes(
                stamps@,
                #[trigger] order@[a] as int,
                #[trigger] order@[b] as int,
            ) by {
                if b < p {
                } else if a == p {
                    assert(order@[b] == before[b - 1]);
                    assert(precedes(stamps@, before[p as int] as int, before[b - 1] as int) || b - 1
                        == p);
                } else if b == p {
                    assert(order@[a] == before[a]);
                } else if a < p {
                    assert(order@[a] == before[a]);
                    assert(order@[b] == before[b - 1]);
                } else {
                    assert(order@[a] == before[a - 1]);
                    assert(order@[b] == before[b - 1]);
                }
            }
            assert forall|k: int| 0 <= k < order@.len() implies (#[trigger] order@[k]) < i + 1 by {
                if k < p {
                    assert(order@[k] == before[k]);
                } else if k > p {
                    assert(order@[k] == before[k - 1]);
                }
            }
        }
        i += 1;
    }
    order
}

/// The page of `order` that starts at `offset` and holds up to `limit` indices.
pub fn page_indices(order: &Vec<usize>, offset: u64, limit: u64) -> (r: Vec<usize>)
    ensures
        r@ == page_of(order@, offset, limit),
{
    let n: usize = order.len();
    let start: usize = if offset <= n as u64 {
        offset as usize
    } else {
        n
    };
    let rest: usize = n - start;
    let count: usize = if limit <= rest as u64 {
        limit as usize
    } else {
        rest
    };
    let mut out: Vec<usize> = Vec::new();
    let mut k: usize = 0;
    while k < count
        invariant
            k <= count,
            start + count <= n,
            n == order@.len(),
            out@ == order@.subrange(start as int, start + k),
        decreases count - k,
    {
        out.push(order[start + k]);
        assert(order@.subrange(start as int, start + k + 1) =~= order@.subrange(
            start as int,
            start + k,
        ).push(order@[start + k]));
        k += 1;
    }
    out
}

/// The texts of a list of strings.
pub open spec fn texts(names: Seq<String>) -> Seq<Seq<char>> {
    names.map_values(|s: String| s@)
}

/// In a list by name, the item at index `a` stands before the one at
/// index `b`: its name comes first, or the names are one and it is
/// earlier in the collection.
pub open spec fn name_precedes(names: Seq<Seq<char>>, a: int, b: int) -> bool {
    text_le(names[a], names[b]) && (text_le(names[b], names[a]) ==> a < b)
}

/// `order` lists the first `n` indices of `names` by name, ascending.
pub open spec fn lists_by_name(names: Seq<Seq<char>>, order: Seq<usize>, n: int) -> bool {
    &&& order.len() == n
    &&& forall|k: int| 0 <= k < order.len() ==> (#[trigger] order[k]) < n
    &&& forall|a: int, b: int|
        0 <= a < b < order.len() ==> name_precedes(names, #[trigger] order[a] as int, #[trigger] order[b] as int)
}

/// `order` lists every index of `names` by name, ascending.
pub open spec fn is_by_name(names: Seq<Seq<char>>, order: Seq<usize>) -> bool {
    lists_by_name(names, order, names.len() as int)
}

/// The indices of `names` in ascending order of name; equal names keep
/// the order of the collection.
pub fn by_name(names: &Vec<String>) -> (order: Vec<usize>)
    ensures
        is_by_name(texts(names@), order@),
{
    let ghost all = texts(names@);
    let mut order: Vec<usize> = Vec::new();
    let mut i: usize = 0;
    while i < names.len()
        invariant
            i <= names@.len(),
            all == texts(names@),
            lists_by_name(all, order@, i as int),
        decreases names@.len() - i,
    {
        let mut p: usize = 0;
        while p < order.len() && text_not_after(names[order[p]].as_str(), names[i].as_str())
            invariant
                p <= order@.len(),
                i < names@.len(),
                all == texts(names@),
                lists_by_name(all, order@, i as int),
                forall|k: int| 0 <= k < p ==> text_le(all[(#[trigger] order@[k]) as int], all[i as int]),
            decreases order@.len() - p,
        {
            p += 1;
        }
        let ghost before = order@;
        order.insert(p, i);
        proof {
            assert forall|a: int, b: int| 0 <= a < b < order@.len() implies name_precedes(
                all,
                #[trigger] order@[a] as int,
                #[trigger] order@[b] as int,
            ) by {
                if b < p {
                } else if a == p {
                    let later = before[b - 1] as int;
                    assert(order@[b] == before[b - 1]);
                    assert(!text_le(all[before[p as int] as int], all[i as int]));
                    if b - 1 > p {
                        assert(name_precedes(all, before[p as int] as int, later));
                        if text_le(all[later], all[i as int]) {
                            text_order_is_transitive(all[before[p as int] as int], all[later], all[i as int]);
                        }
                    }
                    text_order_is_total(all[i as int], all[later]);
                } else if b == p {
                    assert(order@[a] == before[a]);
                } else if a < p {
                    assert(order@[a] == before[a]);
                    assert(order@[b] == before[b - 1]);
                } else {
                    assert(order@[a] == before[a - 1]);
                    assert(order@[b] == before[b - 1]);
                }
            }
            assert forall|k: int| 0 <= k < order@.len() implies (#[trigger] order@[k]) < i + 1 by {
                if k < p {
                    assert(order@[k] == before[k]);
                } else if k > p {
                    assert(order@[k] == before[k - 1]);
                }
            }
        }
        i += 1;
    }
    order
}

/// `order` holds `n` indices below `n`, each standing before all that follow it.
pub open spec fn is_listing(before: spec_fn(int, int) -> bool, order: Seq<usize>, n: int) -> bool {
    &&& order.len() == n
    &&& forall|k: int| 0 <= k < n ==> (#[trigger] order[k]) < n
    &&& forall|a: int, b: int| 0 <= a < b < n ==> before(#[trigger] order[a] as int, #[trigger] order[b] as int)
}

/// Of two indices at most one stands before the other, and none before itself.
pub open spec fn one_way(before: spec_fn(int, int) -> bool) -> bool {
    forall|a: int, b: int| !(#[trigger] before(a, b) && before(b, a))
}

proof fn lemma_listing_covers(before: spec_fn(int, int) -> bool, order: Seq<usize>, n: int, v: int)
    requires
        is_listing(before, order, n),
        one_way(before),
        0 <= v < n,
    ensures
        exists|k: int| 0 <= k < n && #[trigger] order[k] == v,
{
    broadcast use vstd::seq_lib::seq_to_set_is_finite;

    let ints = Seq::new(n as nat, |k: int| order[k] as int);
    assert forall|i: int, j: int| 0 <= i < ints.len() && 0 <= j < ints.len() && i != j implies ints[i]
        != ints[j] by {
        if i < j {
            assert(before(order[i] as int, order[j] as int));
        } else {
            assert(before(order[j] as int, order[i] as int));
        }
    }
    ints.unique_seq_to_set();
    vstd::set_lib::lemma_int_range(0, n);
    let range = vstd::set_lib::set_int_range(0, n);
    assert forall|x: int| ints.to_set().contains(x) implies range.contains(x) by {
        let k = choose|k: int| 0 <= k < ints.len() && ints[k] == x;
        assert(order[k] < n);
    }
    vstd::set_lib::lemma_subset_equality(ints.to_set(), range);
    assert(range.contains(v));
    assert(ints.to_set().contains(v));
    let k = choose|k: int| 0 <= k < ints.len() && ints[k] == v;
    assert(order[k] == v);
}

proof fn lemma_same_at(before: spec_fn(int, int) -> bool, first: Seq<usize>, second: Seq<usize>, n: int, k: int)
    requires
        is_listing(before, first, n),
        is_listing(before, second, n),
        one_way(before),
        0 <= k < n,
    ensures
        first[k] == second[k],
    decreases k,
{
    assert forall|j: int| 0 <= j < k implies first[j] == second[j] by {
        lemma_same_at(before, first, second, n, j);
    }
    let v = first[k] as int;
    let w = second[k] as int;
    lemma_listing_covers(before, second, n, v);
    let m = choose|m: int| 0 <= m < n && #[trigger] second[m] == v;
    lemma_listing_covers(before, first, n, w);
    let m2 = choose|m2: int| 0 <= m2 < n && #[trigger] first[m2] == w;
    if m < k {
        assert(first[m] == second[m]);
        assert(before(first[m] as int, first[k] as int));
    } else if m2 < k {
        assert(first[m2] == second[m2]);
        assert(before(second[m2] as int, second[k] as int));
    } else if m > k {
        assert(before(second[k] as int, second[m] as int));
        if m2 > k {
            assert(before(first[k] as int, first[m2] as int));
        }
    }
}

/// Two listings by one one-way relation are the same listing.
pub proof fn listing_is_unique(before: spec_fn(int, int) -> bool, first: Seq<usize>, second: Seq<usize>, n: int)
    requires
        is_listing(before, first, n),
        is_listing(before, second, n),
        one_way(before),
    ensures
        first == second,
{
    assert forall|k: int| 0 <= k < n implies first[k] == second[k] by {
        lemma_same_at(before, first, second, n, k);
    }
    assert(first =~= second);
}

/// There is one way to list a collection newest first.
pub proof fn newest_first_is_unique(stamps: Seq<u64>, first: Seq<usize>, second: Seq<usize>)
    requires
        is_newest_first(stamps, first),
        is_newest_first(stamps, second),
    ensures
        first == second,
{
    let before = |a: int, b: int| precedes(stamps, a, b);
    listing_is_unique(before, first, second, stamps.len() as int);
}

/// There is one way to list a collection by name.
pub proof fn by_name_is_unique(names: Seq<Seq<char>>, first: Seq<usize>, second: Seq<usize>)
    requires
        is_by_name(names, first),
        is_by_name(names, second),
    ensures
        first == second,
{
    let before = |a: int, b: int| name_precedes(names, a, b);
    listing_is_unique(before, first, second, names.len() as int);
}

} // verus!
