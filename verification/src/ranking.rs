//! Ranking the fleet's endpoints by load.
//!
//! A load is an order key: a smaller key is a lighter load. The key
//! [`UNREACHABLE`] marks an endpoint whose last scrape failed: the scraper
//! has marked it down, and requests leave it out. An endpoint that has not
//! been scraped yet is still tried, after every endpoint that answered.
use vstd::prelude::*;
use crate::opt_view;

verus! {

/// The load key of an endpoint that could not be scraped.
pub const UNREACHABLE: u64 = 0xffff_ffff_ffff_ffff;

/// The load an endpoint is ordered by: its key, or [`UNREACHABLE`] when it has
/// none yet.
pub open spec fn load_of(score: Option<u64>) -> u64 {
    match score {
        Some(k) => k,
        None => UNREACHABLE,
    }
}

/// The scraper marked the endpoint down: its last scrape failed. Such an
/// endpoint gets no requests.
pub open spec fn is_down(score: Option<u64>) -> bool {
    score matches Some(k) && k >= UNREACHABLE
}

/// Which endpoints may be tried: all but those marked down.
pub open spec fn tryable(scores: Seq<Option<u64>>) -> Seq<bool> {
    Seq::new(scores.len(), |i: int| !is_down(scores[i]))
}

/// The endpoint was scraped and answered.
pub open spec fn is_reachable(score: Option<u64>) -> bool {
    score matches Some(k) && k < UNREACHABLE
}

/// The views of a vector of strings.
pub open spec fn views(v: Seq<String>) -> Seq<Seq<char>> {
    v.map_values(|s: String| s@)
}

/// `url` is the endpoint currently marked as the best one.
pub open spec fn is_top(top: Option<Seq<char>>, url: Seq<char>) -> bool {
    top == Some(url)
}

/// The sort key of endpoint `i`: the marked endpoint goes before every other,
/// the others go by load.
pub open spec fn sort_key(
    endpoints: Seq<Seq<char>>,
    scores: Seq<Option<u64>>,
    top: Option<Seq<char>>,
    i: int,
) -> int {
    if is_top(top, endpoints[i]) {
        0
    } else {
        load_of(scores[i]) + 1
    }
}

/// The sort keys of all endpoints.
pub open spec fn sort_keys(
    endpoints: Seq<Seq<char>>,
    scores: Seq<Option<u64>>,
    top: Option<Seq<char>>,
) -> Seq<int> {
    Seq::new(endpoints.len(), |i: int| sort_key(endpoints, scores, top, i))
}

/// Position `i` goes before position `j`: a smaller key, or the same key and
/// an earlier place in the configuration.
pub open spec fn precedes(keys: Seq<int>, i: int, j: int) -> bool {
    keys[i] < keys[j] || (keys[i] == keys[j] && i < j)
}

/// `order` lists every tryable position of `keys` once and no other, by
/// ascending key, positions with equal keys in the order they stand in (a
/// stable sort of the tryable positions).
pub open spec fn is_stable_order(order: Seq<int>, keys: Seq<int>, allowed: Seq<bool>) -> bool {
    &&& forall|k: int|
        0 <= k < order.len() ==> 0 <= #[trigger] order[k] < keys.len() && allowed[order[k]]
    &&& forall|i: int| 0 <= i < keys.len() && allowed[i] ==> #[trigger] order.contains(i)
    &&& forall|k1: int, k2: int|
        0 <= k1 < k2 < order.len() ==> precedes(keys, #[trigger] order[k1], #[trigger] order[k2])
}

/// The stable order of the tryable positions of `keys` (see
/// [`lemma_stable_order_unique`]).
pub open spec fn stable_order(keys: Seq<int>, allowed: Seq<bool>) -> Seq<int> {
    choose|order: Seq<int>| is_stable_order(order, keys, allowed)
}

/// The positions of the endpoints that requests try, in the order they try
/// them; endpoints marked down are left out.
pub open spec fn try_order(
    endpoints: Seq<Seq<char>>,
    scores: Seq<Option<u64>>,
    top: Option<Seq<char>>,
) -> Seq<int> {
    stable_order(sort_keys(endpoints, scores, top), tryable(scores))
}

/// The endpoints that requests try, in the order they try them: the marked
/// endpoint first, then by ascending load, ties in the order of the
/// configuration; endpoints marked down are left out.
pub open spec fn ordered_view(
    endpoints: Seq<Seq<char>>,
    scores: Seq<Option<u64>>,
    top: Option<Seq<char>>,
) -> Seq<Seq<char>> {
    let order = try_order(endpoints, scores, top);
    Seq::new(order.len(), |k: int| endpoints[order[k]])
}

/// A sequence of positions ordered by `precedes` holds no position twice.
proof fn lemma_stable_order_distinct(order: Seq<int>, keys: Seq<int>, allowed: Seq<bool>, k1: int, k2: int)
    requires
        is_stable_order(order, keys, allowed),
        0 <= k1 < order.len(),
        0 <= k2 < order.len(),
        k1 != k2,
    ensures
        order[k1] != order[k2],
{
    if k1 < k2 {
        assert(precedes(keys, order[k1], order[k2]));
    } else {
        assert(precedes(keys, order[k2], order[k1]));
    }
}

/// There is exactly one stable order of the tryable positions of a sequence
/// of keys: two orders that both list every tryable position once, by
/// ascending key and stably, are equal.
pub proof fn lemma_stable_order_unique(o1: Seq<int>, o2: Seq<int>, keys: Seq<int>, allowed: Seq<bool>)
    requires
        is_stable_order(o1, keys, allowed),
        is_stable_order(o2, keys, allowed),
    ensures
        o1 == o2,
{
    lemma_agree_on_common_prefix(o1, o2, keys, allowed);
    lemma_agree_on_common_prefix(o2, o1, keys, allowed);
    lemma_no_longer(o1, o2, keys, allowed);
    lemma_no_longer(o2, o1, keys, allowed);
    assert(o1 =~= o2);
}

/// Two stable orders agree wherever both have an element.
proof fn lemma_agree_on_common_prefix(o1: Seq<int>, o2: Seq<int>, keys: Seq<int>, allowed: Seq<bool>)
    requires
        is_stable_order(o1, keys, allowed),
        is_stable_order(o2, keys, allowed),
    ensures
        forall|k: int| 0 <= k < o1.len() && k < o2.len() ==> o1[k] == o2[k],
{
    assert forall|k: int| 0 <= k < o1.len() && k < o2.len() implies o1[k] == o2[k] by {
        if o1[k] != o2[k] {
            lemma_first_difference_exists(o1, o2, k);
            // The first position of difference at or before `k`.
            let d = choose|d: int| 0 <= d <= k && o1[d] != o2[d] && forall|e: int|
                0 <= e < d ==> o1[e] == o2[e];
            lemma_agree_at(o1, o2, keys, allowed, d);
        }
    }
}

/// Of two stable orders of the same keys that agree where both have an
/// element, neither is longer than the other.
proof fn lemma_no_longer(o1: Seq<int>, o2: Seq<int>, keys: Seq<int>, allowed: Seq<bool>)
    requires
        is_stable_order(o1, keys, allowed),
        is_stable_order(o2, keys, allowed),
        forall|k: int| 0 <= k < o1.len() && k < o2.len() ==> o1[k] == o2[k],
    ensures
        o1.len() >= o2.len(),
{
    if o1.len() < o2.len() {
        let y = o2[o1.len() as int];
        assert(o1.contains(y));
        let n = choose|n: int| 0 <= n < o1.len() && o1[n] == y;
        assert(o2[n] == y);
        lemma_stable_order_distinct(o2, keys, allowed, n, o1.len() as int);
    }
}

/// Some position at or before `k` is the first where `o1` and `o2` differ.
proof fn lemma_first_difference_exists(o1: Seq<int>, o2: Seq<int>, k: int)
    requires
        0 <= k < o1.len(),
        k < o2.len(),
        o1[k] != o2[k],
    ensures
        exists|d: int| 0 <= d <= k && o1[d] != o2[d] && forall|e: int| 0 <= e < d ==> o1[e] == o2[e],
    decreases k,
{
    if exists|d: int| 0 <= d < k && o1[d] != o2[d] {
        let d = choose|d: int| 0 <= d < k && o1[d] != o2[d];
        lemma_first_difference_exists(o1, o2, d);
    } else {
        assert(forall|e: int| 0 <= e < k ==> o1[e] == o2[e]);
    }
}

/// Two stable orders of the same keys that agree before position `d` agree
/// at `d` too.
proof fn lemma_agree_at(o1: Seq<int>, o2: Seq<int>, keys: Seq<int>, allowed: Seq<bool>, d: int)
    requires
        is_stable_order(o1, keys, allowed),
        is_stable_order(o2, keys, allowed),
        0 <= d < o1.len(),
        d < o2.len(),
        forall|e: int| 0 <= e < d ==> o1[e] == o2[e],
    ensures
        o1[d] == o2[d],
{
    if o1[d] != o2[d] {
        let x = o1[d];
        let y = o2[d];
        assert(o2.contains(x));
        let m = choose|m: int| 0 <= m < o2.len() && o2[m] == x;
        assert(o1.contains(y));
        let n = choose|n: int| 0 <= n < o1.len() && o1[n] == y;
        if m < d {
            // `x` would stand twice in `o1`.
            assert(o1[m] == x);
            lemma_stable_order_distinct(o1, keys, allowed, m, d);
        } else if n < d {
            assert(o2[n] == y);
            lemma_stable_order_distinct(o2, keys, allowed, n, d);
        } else {
            // `x` comes after `y` in `o2` and `y` after `x` in `o1`.
            assert(m != d);
            assert(n != d);
            assert(precedes(keys, o2[d], o2[m]));
            assert(precedes(keys, o1[d], o1[n]));
        }
    }
}


/// Exact integer view of a sequence of keys.
pub open spec fn int_keys(keys: Seq<u128>) -> Seq<int> {
    Seq::new(keys.len(), |i: int| keys[i] as int)
}

/// Integer view of a sequence of positions.
pub open spec fn positions(order: Seq<usize>) -> Seq<int> {
    Seq::new(order.len(), |k: int| order[k] as int)
}

/// `order` lists position `j`.
pub open spec fn lists(order: Seq<usize>, j: int) -> bool {
    exists|k: int| 0 <= k < order.len() && order[k] == j
}

/// Sorts the tryable positions of `keys` stably by key (insertion sort),
/// leaving the others out.
pub fn stable_sort_positions(keys: &Vec<u128>, allowed: &Vec<bool>) -> (order: Vec<usize>)
    requires
        allowed@.len() == keys@.len(),
    ensures
        is_stable_order(positions(order@), int_keys(keys@), allowed@),
{
    let n = keys.len();
    let ghost ks = int_keys(keys@);
    let mut order: Vec<usize> = Vec::new();
    for i in 0..n
        invariant
            n == keys@.len(),
            allowed@.len() == n,
            ks == int_keys(keys@),
            order@.len() <= i,
            forall|k: int| 0 <= k < order@.len() ==> #[trigger] order@[k] < i && allowed@[order@[k] as int],
            forall|j: int| 0 <= j < i && allowed@[j] ==> #[trigger] lists(order@, j),
            forall|k1: int, k2: int|
                0 <= k1 < k2 < order@.len() ==> precedes(
                    ks,
                    #[trigger] order@[k1] as int,
                    #[trigger] order@[k2] as int,
                ),
    {
        if allowed[i] {
            let mut pos: usize = 0;
            while pos < order.len() && keys[order[pos]] <= keys[i]
                invariant
                    n == keys@.len(),
                    i < n,
                    order@.len() <= i,
                    pos <= order@.len(),
                    forall|k: int| 0 <= k < order@.len() ==> #[trigger] order@[k] < i,
                    forall|k: int| 0 <= k < pos ==> keys@[#[trigger] order@[k] as int] <= keys@[i as int],
                decreases order@.len() - pos,
            {
                pos = pos + 1;
            }
            let ghost old_order = order@;
            // Everything from `pos` on has a larger key than `i`.
            assert forall|k: int| pos <= k < old_order.len() implies keys@[#[trigger] old_order[k] as int] > keys@[i as int] by {
                if k > pos {
                    assert(precedes(ks, old_order[pos as int] as int, old_order[k] as int));
                }
            }
            order.insert(pos, i);
            assert(order@ == old_order.insert(pos as int, i));
            assert forall|k: int| 0 <= k < order@.len() implies #[trigger] order@[k] < i + 1 && allowed@[order@[k] as int] by {
                if k < pos {
                    assert(order@[k] == old_order[k]);
                } else if k > pos {
                    assert(order@[k] == old_order[k - 1]);
                }
            }
            assert forall|j: int| 0 <= j < i + 1 && allowed@[j] implies #[trigger] lists(order@, j) by {
                if j == i {
                    assert(order@[pos as int] == j);
                } else {
                    assert(lists(old_order, j));
                    let k = choose|k: int| 0 <= k < old_order.len() && old_order[k] == j;
                    if k < pos {
                        assert(order@[k] == j);
                    } else {
                        assert(order@[k + 1] == j);
                    }
                }
            }
            assert forall|k1: int, k2: int| 0 <= k1 < k2 < order@.len() implies precedes(
                ks,
                #[trigger] order@[k1] as int,
                #[trigger] order@[k2] as int,
            ) by {
                if k2 < pos {
                    assert(precedes(ks, old_order[k1] as int, old_order[k2] as int));
                } else if k2 == pos {
                    assert(order@[k1] == old_order[k1]);
                } else if k1 < pos {
                    assert(order@[k2] == old_order[k2 - 1]);
                } else if k1 == pos {
                    assert(order@[k2] == old_order[k2 - 1]);
                } else {
                    assert(precedes(ks, old_order[k1 - 1] as int, old_order[k2 - 1] as int));
                }
            }
        }
    }
    let ghost ps = positions(order@);
    assert forall|j: int| 0 <= j < ks.len() && allowed@[j] implies #[trigger] ps.contains(j) by {
        assert(lists(order@, j));
        let k = choose|k: int| 0 <= k < order@.len() && order@[k] == j;
        assert(ps[k] == j);
    }
    order
}


/// The sort keys of the endpoints, computed.
fn compute_sort_keys(endpoints: &Vec<String>, scores: &Vec<Option<u64>>, top: &Option<String>) -> (keys: Vec<u128>)
    requires
        scores@.len() == endpoints@.len(),
    ensures
        int_keys(keys@) == sort_keys(views(endpoints@), scores@, opt_view(*top)),
{
    let mut keys: Vec<u128> = Vec::new();
    let ghost want = sort_keys(views(endpoints@), scores@, opt_view(*top));
    for i in 0..endpoints.len()
        invariant
            scores@.len() == endpoints@.len(),
            want == sort_keys(views(endpoints@), scores@, opt_view(*top)),
            keys@.len() == i,
            forall|k: int| 0 <= k < i ==> keys@[k] as int == #[trigger] want[k],
    {
        let marked = match top {
            Some(t) => endpoints[i] == *t,
            None => false,
        };
        let key: u128 = if marked {
            0
        } else {
            match scores[i] {
                Some(load) => load as u128 + 1,
                None => UNREACHABLE as u128 + 1,
            }
        };
        keys.push(key);
    }
    assert(int_keys(keys@) =~= want);
    keys
}

/// Which endpoints may be tried, computed.
fn compute_allowed(scores: &Vec<Option<u64>>) -> (allowed: Vec<bool>)
    ensures
        allowed@ == tryable(scores@),
{
    let mut allowed: Vec<bool> = Vec::new();
    for i in 0..scores.len()
        invariant
            allowed@.len() == i,
            forall|k: int| 0 <= k < i ==> allowed@[k] == !is_down(#[trigger] scores@[k]),
    {
        let down = match scores[i] {
            Some(load) => load >= UNREACHABLE,
            None => false,
        };
        allowed.push(!down);
    }
    assert(allowed@ =~= tryable(scores@));
    allowed
}

/// The endpoints that a request tries, in the order it tries them: the
/// endpoint marked as best first, then the others by ascending load, those
/// not scraped yet after all that answered; endpoints with equal load keep
/// the order of the configuration. Endpoints that the scraper marked down
/// are left out, the marked one too.
pub fn order_endpoints(endpoints: &Vec<String>, scores: &Vec<Option<u64>>, top: &Option<String>) -> (ordered: Vec<String>)
    requires
        scores@.len() == endpoints@.len(),
    ensures
        views(ordered@) == ordered_view(views(endpoints@), scores@, opt_view(*top)),
{
    let keys = compute_sort_keys(endpoints, scores, top);
    let allowed = compute_allowed(scores);
    assert(keys@.len() == int_keys(keys@).len());
    let order = stable_sort_positions(&keys, &allowed);
    let ghost ks = sort_keys(views(endpoints@), scores@, opt_view(*top));
    let ghost ad = tryable(scores@);
    proof {
        lemma_stable_order_exists(ks, ad);
        lemma_stable_order_unique(positions(order@), stable_order(ks, ad), ks, ad);
    }
    let mut ordered: Vec<String> = Vec::new();
    for k in 0..order.len()
        invariant
            is_stable_order(positions(order@), ks, ad),
            ks.len() == endpoints@.len(),
            ordered@.len() == k,
            forall|m: int| 0 <= m < k ==> (#[trigger] ordered@[m])@ == endpoints@[order@[m] as int]@,
    {
        assert(positions(order@)[k as int] < endpoints@.len());
        ordered.push(endpoints[order[k]].clone());
    }
    assert(views(ordered@) =~= ordered_view(views(endpoints@), scores@, opt_view(*top)));
    ordered
}

/// Endpoint `i` has the lowest load among the reachable ones, and no earlier
/// endpoint has as low a load.
pub open spec fn is_best(scores: Seq<Option<u64>>, i: int) -> bool {
    &&& 0 <= i < scores.len()
    &&& is_reachable(scores[i])
    &&& forall|j: int| 0 <= j < scores.len() && is_reachable(scores[j]) ==> load_of(scores[i]) <= load_of(#[trigger] scores[j])
    &&& forall|j: int| 0 <= j < i && is_reachable(scores[j]) ==> load_of(scores[i]) < load_of(#[trigger] scores[j])
}

/// The position of the best endpoint, `None` when none is reachable.
pub fn select_top(scores: &Vec<Option<u64>>) -> (best: Option<usize>)
    ensures
        match best {
            Some(i) => is_best(scores@, i as int),
            None => forall|j: int| 0 <= j < scores@.len() ==> !is_reachable(#[trigger] scores@[j]),
        },
{
    let mut best: Option<usize> = None;
    let mut best_load: u64 = UNREACHABLE;
    for i in 0..scores.len()
        invariant
            match best {
                Some(b) => b < i && is_reachable(scores@[b as int]) && best_load == load_of(scores@[b as int]),
                None => best_load == UNREACHABLE,
            },
            forall|j: int| 0 <= j < i && is_reachable(scores@[j]) ==> best is Some && best_load <= load_of(#[trigger] scores@[j]),
            forall|j: int| 0 <= j < i && is_reachable(scores@[j]) && best is Some && j < best->0 ==> best_load < load_of(#[trigger] scores@[j]),
    {
        match scores[i] {
            Some(load) => {
                if load < best_load {
                    best = Some(i);
                    best_load = load;
                }
            },
            None => {},
        }
    }
    best
}


/// `order` is a stable order of the tryable ones among the first `n`
/// positions of `keys`.
pub open spec fn is_stable_prefix_order(order: Seq<int>, keys: Seq<int>, allowed: Seq<bool>, n: int) -> bool {
    &&& forall|k: int| 0 <= k < order.len() ==> 0 <= #[trigger] order[k] < n && allowed[order[k]]
    &&& forall|i: int| 0 <= i < n && allowed[i] ==> #[trigger] order.contains(i)
    &&& forall|k1: int, k2: int|
        0 <= k1 < k2 < order.len() ==> precedes(keys, #[trigger] order[k1], #[trigger] order[k2])
}

/// The first place from `k` on in `order` whose key exceeds that of `x`.
spec fn first_above(order: Seq<int>, keys: Seq<int>, x: int, k: int) -> int
    decreases order.len() - k,
{
    if k >= order.len() {
        order.len() as int
    } else if keys[order[k]] > keys[x] {
        k
    } else {
        first_above(order, keys, x, k + 1)
    }
}

proof fn lemma_first_above(order: Seq<int>, keys: Seq<int>, x: int, k: int)
    requires
        0 <= k <= order.len(),
    ensures
        k <= first_above(order, keys, x, k) <= order.len(),
        forall|m: int| k <= m < first_above(order, keys, x, k) ==> keys[#[trigger] order[m]] <= keys[x],
        first_above(order, keys, x, k) < order.len() ==> keys[order[first_above(order, keys, x, k)]] > keys[x],
    decreases order.len() - k,
{
    if k < order.len() && keys[order[k]] <= keys[x] {
        lemma_first_above(order, keys, x, k + 1);
    }
}

/// A stable order of the tryable ones among the first `n` positions, built
/// by insertion.
spec fn insertion_order(keys: Seq<int>, allowed: Seq<bool>, n: nat) -> Seq<int>
    decreases n,
{
    if n == 0 {
        Seq::empty()
    } else {
        let o = insertion_order(keys, allowed, (n - 1) as nat);
        if allowed[n - 1] {
            o.insert(first_above(o, keys, n - 1, 0), n - 1)
        } else {
            o
        }
    }
}

proof fn lemma_insertion_order(keys: Seq<int>, allowed: Seq<bool>, n: nat)
    requires
        n <= keys.len(),
    ensures
        is_stable_prefix_order(insertion_order(keys, allowed, n), keys, allowed, n as int),
    decreases n,
{
    if n > 0 && !allowed[n - 1] {
        lemma_insertion_order(keys, allowed, (n - 1) as nat);
    } else if n > 0 {
        let x = n - 1;
        let o = insertion_order(keys, allowed, (n - 1) as nat);
        lemma_insertion_order(keys, allowed, (n - 1) as nat);
        let pos = first_above(o, keys, x, 0);
        lemma_first_above(o, keys, x, 0);
        let r = o.insert(pos, x);
        assert(r == insertion_order(keys, allowed, n));
        assert forall|k: int| pos <= k < o.len() implies keys[#[trigger] o[k]] > keys[x] by {
            if k > pos {
                assert(precedes(keys, o[pos], o[k]));
            }
        }
        assert forall|k: int| 0 <= k < r.len() implies 0 <= #[trigger] r[k] < n && allowed[r[k]] by {
            if k < pos {
                assert(r[k] == o[k]);
            } else if k > pos {
                assert(r[k] == o[k - 1]);
            }
        }
        assert forall|i: int| 0 <= i < n && allowed[i] implies #[trigger] r.contains(i) by {
            if i == x {
                assert(r[pos] == i);
            } else {
                assert(o.contains(i));
                let k = choose|k: int| 0 <= k < o.len() && o[k] == i;
                if k < pos {
                    assert(r[k] == i);
                } else {
                    assert(r[k + 1] == i);
                }
            }
        }
        assert forall|k1: int, k2: int| 0 <= k1 < k2 < r.len() implies precedes(
            keys,
            #[trigger] r[k1],
            #[trigger] r[k2],
        ) by {
            if k2 < pos {
                assert(precedes(keys, o[k1], o[k2]));
            } else if k2 == pos {
                assert(r[k1] == o[k1]);
            } else if k1 < pos {
                assert(r[k2] == o[k2 - 1]);
            } else if k1 == pos {
                assert(r[k2] == o[k2 - 1]);
            } else {
                assert(precedes(keys, o[k1 - 1], o[k2 - 1]));
            }
        }
    }
}

/// Every sequence of keys has a stable order of its tryable positions, so
/// [`stable_order`] is one.
pub proof fn lemma_stable_order_exists(keys: Seq<int>, allowed: Seq<bool>)
    ensures
        is_stable_order(stable_order(keys, allowed), keys, allowed),
{
    lemma_insertion_order(keys, allowed, keys.len());
    assert(is_stable_order(insertion_order(keys, allowed, keys.len()), keys, allowed));
}


/// Every endpoint that the scraper has not marked down is tried exactly once,
/// and no endpoint marked down is tried: the try order lists each position
/// of such an endpoint once and no other, and the ordered endpoints are the
/// configured ones at those positions.
pub proof fn law_every_endpoint_tried_once(
    endpoints: Seq<Seq<char>>,
    scores: Seq<Option<u64>>,
    top: Option<Seq<char>>,
)
    requires
        scores.len() == endpoints.len(),
    ensures
        ordered_view(endpoints, scores, top).len() == try_order(endpoints, scores, top).len(),
        try_order(endpoints, scores, top).len() <= endpoints.len(),
        forall|i: int|
            0 <= i < endpoints.len() ==> (#[trigger] try_order(endpoints, scores, top).contains(i)
                <==> !is_down(scores[i])),
        forall|i: int|
            0 <= i < endpoints.len() ==> (#[trigger] try_order(endpoints, scores, top).contains(i)
                <==> scores[i] != Some(UNREACHABLE)),
        forall|k1: int, k2: int|
            0 <= k1 < try_order(endpoints, scores, top).len() && 0 <= k2 < try_order(endpoints, scores, top).len() && k1 != k2
                ==> #[trigger] try_order(endpoints, scores, top)[k1] != #[trigger] try_order(endpoints, scores, top)[k2],
        forall|k: int|
            0 <= k < try_order(endpoints, scores, top).len() ==> {
                let i = #[trigger] try_order(endpoints, scores, top)[k];
                &&& 0 <= i < endpoints.len()
                &&& !is_down(scores[i])
                &&& ordered_view(endpoints, scores, top)[k] == endpoints[i]
            },
{
    let keys = sort_keys(endpoints, scores, top);
    let ad = tryable(scores);
    lemma_stable_order_exists(keys, ad);
    let o = stable_order(keys, ad);
    assert forall|k1: int, k2: int|
        0 <= k1 < o.len() && 0 <= k2 < o.len() && k1 != k2 implies #[trigger] o[k1] != #[trigger] o[k2] by {
        lemma_stable_order_distinct(o, keys, ad, k1, k2);
    }
    assert forall|i: int| 0 <= i < endpoints.len() implies (#[trigger] o.contains(i) <==> !is_down(scores[i])) by {
        if o.contains(i) {
            let k = choose|k: int| 0 <= k < o.len() && o[k] == i;
            assert(ad[o[k]]);
        }
    }
    lemma_distinct_in_range_bounded(o, endpoints.len() as int, keys, ad);
}

/// A sequence of distinct positions below `n` has at most `n` elements.
proof fn lemma_distinct_in_range_bounded(o: Seq<int>, n: int, keys: Seq<int>, ad: Seq<bool>)
    requires
        is_stable_order(o, keys, ad),
        keys.len() == n,
    ensures
        o.len() <= n,
{
    let s = o.to_set();
    assert forall|k1: int, k2: int| 0 <= k1 < o.len() && 0 <= k2 < o.len() && k1 != k2 implies o[k1] != o[k2] by {
        lemma_stable_order_distinct(o, keys, ad, k1, k2);
    }
    assert(o.no_duplicates());
    o.unique_seq_to_set();
    let full = Set::new(|i: int| 0 <= i < n);
    assert(s.subset_of(full));
    vstd::set_lib::lemma_int_range(0, n);
    assert(full =~= vstd::set_lib::set_int_range(0, n));
    vstd::set_lib::lemma_len_subset(s, full);
}

/// When the scraper has marked every endpoint down, a request tries none.
pub proof fn law_all_down_nothing_tried(
    endpoints: Seq<Seq<char>>,
    scores: Seq<Option<u64>>,
    top: Option<Seq<char>>,
)
    requires
        scores.len() == endpoints.len(),
        forall|i: int| 0 <= i < scores.len() ==> is_down(#[trigger] scores[i]),
    ensures
        ordered_view(endpoints, scores, top).len() == 0,
{
    law_every_endpoint_tried_once(endpoints, scores, top);
    let o = try_order(endpoints, scores, top);
    if o.len() > 0 {
        assert(!is_down(scores[o[0]]));
    }
}

/// The endpoint marked as best is tried first, whatever the loads, unless
/// the scraper has marked it down.
pub proof fn law_marked_endpoint_first(
    endpoints: Seq<Seq<char>>,
    scores: Seq<Option<u64>>,
    marked: Seq<char>,
    i: int,
)
    requires
        scores.len() == endpoints.len(),
        0 <= i < endpoints.len(),
        endpoints[i] == marked,
        !is_down(scores[i]),
    ensures
        ordered_view(endpoints, scores, Some(marked)).len() > 0,
        ordered_view(endpoints, scores, Some(marked))[0] == marked,
{
    let top = Some(marked);
    let keys = sort_keys(endpoints, scores, top);
    let ad = tryable(scores);
    lemma_stable_order_exists(keys, ad);
    let o = stable_order(keys, ad);
    assert(keys[i] == 0);
    assert(ad[i]);
    assert(o.contains(i));
    let m = choose|m: int| 0 <= m < o.len() && o[m] == i;
    if m > 0 {
        assert(precedes(keys, o[0], o[m]));
        assert(keys[o[0]] == 0);
    }
    assert(is_top(top, endpoints[o[0]]));
}

/// The endpoints other than the marked one are tried by ascending load, and
/// endpoints of equal load in the order of the configuration.
pub proof fn law_unmarked_by_load(
    endpoints: Seq<Seq<char>>,
    scores: Seq<Option<u64>>,
    top: Option<Seq<char>>,
    k1: int,
    k2: int,
)
    requires
        scores.len() == endpoints.len(),
        0 <= k1 < k2 < ordered_view(endpoints, scores, top).len(),
        !is_top(top, ordered_view(endpoints, scores, top)[k1]),
        !is_top(top, ordered_view(endpoints, scores, top)[k2]),
    ensures
        ({
            let o = try_order(endpoints, scores, top);
            &&& load_of(scores[o[k1]]) <= load_of(scores[o[k2]])
            &&& load_of(scores[o[k1]]) == load_of(scores[o[k2]]) ==> o[k1] < o[k2]
            &&& forall|x: u64, y: u64|
                scores[o[k1]] == Some(x) && scores[o[k2]] == Some(y) ==> x <= y && (x == y ==> o[k1] < o[k2])
            &&& scores[o[k1]] is None ==> scores[o[k2]] is None && o[k1] < o[k2]
            &&& o[k1] != o[k2]
        }),
{
    let keys = sort_keys(endpoints, scores, top);
    let ad = tryable(scores);
    lemma_stable_order_exists(keys, ad);
    let o = stable_order(keys, ad);
    assert(precedes(keys, o[k1], o[k2]));
    law_every_endpoint_tried_once(endpoints, scores, top);
    assert(!is_down(scores[o[k2]]));
}

/// Once a scrape marks the best endpoint, requests try it first, and no
/// reachable endpoint has a lower load.
pub proof fn law_best_tried_first(endpoints: Seq<Seq<char>>, scores: Seq<Option<u64>>, i: int)
    requires
        scores.len() == endpoints.len(),
        is_best(scores, i),
    ensures
        ordered_view(endpoints, scores, Some(endpoints[i])).len() > 0,
        ordered_view(endpoints, scores, Some(endpoints[i]))[0] == endpoints[i],
        forall|j: int| 0 <= j < scores.len() && is_reachable(#[trigger] scores[j]) ==> load_of(scores[i]) <= load_of(scores[j]),
{
    law_marked_endpoint_first(endpoints, scores, endpoints[i], i);
}


/// What a scrape does to the mark of the best endpoint.
#[derive(Debug, Clone, PartialEq, Eq)]
pub enum TopChange {
    /// Mark this endpoint as the best.
    Mark(String),
    /// No endpoint answered: remove the mark.
    Clear,
}

/// `change` is what the scores `scores` of `endpoints` call for: marking the
/// best endpoint, or clearing the mark when none is reachable.
pub open spec fn calls_for(endpoints: Seq<Seq<char>>, scores: Seq<Option<u64>>, change: TopChange) -> bool {
    match change {
        TopChange::Mark(url) => exists|i: int| is_best(scores, i) && #[trigger] endpoints[i] == url@,
        TopChange::Clear => forall|j: int| 0 <= j < scores.len() ==> !is_reachable(#[trigger] scores[j]),
    }
}

/// Decides, after a scrape, which endpoint to mark as the best: the first of
/// those with the lowest load among those that answered, or none.
pub fn decide_top(endpoints: &Vec<String>, scores: &Vec<Option<u64>>) -> (change: TopChange)
    requires
        scores@.len() == endpoints@.len(),
    ensures
        calls_for(views(endpoints@), scores@, change),
{
    match select_top(scores) {
        Some(i) => {
            let url = endpoints[i].clone();
            assert(views(endpoints@)[i as int] == url@);
            TopChange::Mark(url)
        },
        None => TopChange::Clear,
    }
}

} // verus!
