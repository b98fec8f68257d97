//! Stability optimizer: a bounded greedy local search that swaps players
//! between court pairs to reduce the disparity of court mean skills.
//!
//! All comparisons between court means are carried out exactly, on scaled
//! integers: the difference of two means `sum_a/len_a - sum_b/len_b` is
//! compared through its numerator over the common denominator
//! `len_a * len_b`, so the fixed improvement threshold of one tenth of a
//! skill point becomes `10 * improvement > len_a * len_b`.

use vstd::prelude::*;
use crate::games::{
    InGamePlayer, skill_sum, lemma_skill_sum_take_step, lemma_skill_sum_bounds, valid_player,
    valid_roster, teams_multiset, lemma_teams_multiset_update, lemma_teams_multiset_count_ge,
    lemma_skill_sum_remove, lemma_skill_sum_push,
};
use crate::courts::{teams_view, snake_draft, spec_snake};
use crate::ranking::{RankKind, rank_sort, spec_rank_sort};

verus! {

broadcast use {
    vstd::seq_lib::group_to_multiset_ensures,
    vstd::multiset::group_multiset_axioms,
};

/// Upper bound on a court size accepted by the swap search; keeps the
/// scaled arithmetic within `i64`.
pub const MAX_TEAM_LEN: usize = 0x10000;

/// Absolute value.
pub open spec fn abs_val(x: int) -> int {
    if x < 0 {
        -x
    } else {
        x
    }
}

/// The balance gap of a court pair: the absolute difference of the two
/// court mean skills, scaled by `a.len() * b.len()`.
pub open spec fn scaled_gap(a: Seq<InGamePlayer>, b: Seq<InGamePlayer>) -> int {
    abs_val(skill_sum(a) * b.len() - skill_sum(b) * a.len())
}

/// The balance gap of the pair after hypothetically swapping `a[i]` with
/// `b[j]`, on the same scale.
pub open spec fn swapped_gap(a: Seq<InGamePlayer>, b: Seq<InGamePlayer>, i: int, j: int) -> int {
    let sa = skill_sum(a) - a[i].skill_level + b[j].skill_level;
    let sb = skill_sum(b) - b[j].skill_level + a[i].skill_level;
    abs_val(sa * b.len() - sb * a.len())
}

/// How much the swap of `a[i]` with `b[j]` shrinks the scaled gap.
pub open spec fn swap_delta(a: Seq<InGamePlayer>, b: Seq<InGamePlayer>, i: int, j: int) -> int {
    scaled_gap(a, b) - swapped_gap(a, b, i, j)
}

/// A swap qualifies when its improvement of the mean gap strictly exceeds
/// the fixed threshold of one tenth of a skill point.
pub open spec fn swap_qualifies(a: Seq<InGamePlayer>, b: Seq<InGamePlayer>, i: int, j: int) -> bool {
    10 * swap_delta(a, b, i, j) > a.len() * b.len()
}

/// The swap search from an intermediate state: scans the remaining pairs
/// `(i, j)` in row-major order and keeps the first pair attaining each new
/// strictly better qualifying improvement.
pub open spec fn spec_swap_search(
    a: Seq<InGamePlayer>,
    b: Seq<InGamePlayer>,
    i: int,
    j: int,
    best: Option<(int, int)>,
    best_delta: int,
) -> Option<(int, int)>
    decreases a.len() - i, b.len() - j,
{
    if i < 0 || j < 0 || i >= a.len() {
        best
    } else if j >= b.len() {
        spec_swap_search(a, b, i + 1, 0, best, best_delta)
    } else {
        let d = swap_delta(a, b, i, j);
        if d > best_delta && 10 * d > a.len() * b.len() {
            spec_swap_search(a, b, i, j + 1, Some((i, j)), d)
        } else {
            spec_swap_search(a, b, i, j + 1, best, best_delta)
        }
    }
}

/// The best qualifying swap of the pair, if any.
pub open spec fn spec_find_best_swap(a: Seq<InGamePlayer>, b: Seq<InGamePlayer>) -> Option<
    (int, int),
> {
    spec_swap_search(a, b, 0, 0, None, 0)
}

/// Whatever the search returns is an in-range pair that qualifies,
/// provided the starting candidate was.
proof fn lemma_swap_search_some(
    a: Seq<InGamePlayer>,
    b: Seq<InGamePlayer>,
    i: int,
    j: int,
    best: Option<(int, int)>,
    best_delta: int,
)
    requires
        best matches Some(pq) ==> 0 <= pq.0 < a.len() && 0 <= pq.1 < b.len() && swap_qualifies(
            a,
            b,
            pq.0,
            pq.1,
        ),
    ensures
        spec_swap_search(a, b, i, j, best, best_delta) matches Some(pq) ==> 0 <= pq.0 < a.len()
            && 0 <= pq.1 < b.len() && swap_qualifies(a, b, pq.0, pq.1),
    decreases a.len() - i, b.len() - j,
{
    if i < 0 || j < 0 || i >= a.len() {
    } else if j >= b.len() {
        lemma_swap_search_some(a, b, i + 1, 0, best, best_delta);
    } else {
        let d = swap_delta(a, b, i, j);
        if d > best_delta && 10 * d > a.len() * b.len() {
            lemma_swap_search_some(a, b, i, j + 1, Some((i, j)), d);
        } else {
            lemma_swap_search_some(a, b, i, j + 1, best, best_delta);
        }
    }
}

/// The best qualifying swap, if one is found, is in range and qualifies.
pub proof fn lemma_find_best_swap_qualifies(a: Seq<InGamePlayer>, b: Seq<InGamePlayer>)
    ensures
        spec_find_best_swap(a, b) matches Some(pq) ==> 0 <= pq.0 < a.len() && 0 <= pq.1 < b.len()
            && swap_qualifies(a, b, pq.0, pq.1),
{
    lemma_swap_search_some(a, b, 0, 0, None, 0);
}

/// A search that holds a candidate never returns empty-handed.
proof fn lemma_swap_search_preserves_some(
    a: Seq<InGamePlayer>,
    b: Seq<InGamePlayer>,
    i: int,
    j: int,
    best: Option<(int, int)>,
    best_delta: int,
)
    requires
        best is Some,
    ensures
        spec_swap_search(a, b, i, j, best, best_delta) is Some,
    decreases a.len() - i, b.len() - j,
{
    if i < 0 || j < 0 || i >= a.len() {
    } else if j >= b.len() {
        lemma_swap_search_preserves_some(a, b, i + 1, 0, best, best_delta);
    } else {
        let d = swap_delta(a, b, i, j);
        if d > best_delta && 10 * d > a.len() * b.len() {
            lemma_swap_search_preserves_some(a, b, i, j + 1, Some((i, j)), d);
        } else {
            lemma_swap_search_preserves_some(a, b, i, j + 1, best, best_delta);
        }
    }
}

/// A search that ends empty-handed saw no qualifying pair at or after its
/// starting point.
proof fn lemma_swap_search_none(
    a: Seq<InGamePlayer>,
    b: Seq<InGamePlayer>,
    i: int,
    j: int,
    best: Option<(int, int)>,
    best_delta: int,
)
    requires
        0 <= i,
        0 <= j,
        best is None,
        best_delta == 0,
        spec_swap_search(a, b, i, j, best, best_delta) is None,
    ensures
        forall|k: int, l: int|
            0 <= k < a.len() && 0 <= l < b.len() && (k > i || (k == i && l >= j))
                ==> !swap_qualifies(a, b, k, l),
    decreases a.len() - i, b.len() - j,
{
    if i >= a.len() {
    } else if j >= b.len() {
        lemma_swap_search_none(a, b, i + 1, 0, best, best_delta);
        assert forall|k: int, l: int|
            0 <= k < a.len() && 0 <= l < b.len() && (k > i || (k == i && l >= j))
                implies !swap_qualifies(a, b, k, l) by {
            assert(k > i || (k == i && l >= b.len()));
        }
    } else {
        let d = swap_delta(a, b, i, j);
        if d > best_delta && 10 * d > a.len() * b.len() {
            lemma_swap_search_preserves_some(a, b, i, j + 1, Some((i, j)), d);
            assert(false);
        } else {
            lemma_swap_search_none(a, b, i, j + 1, best, best_delta);
            assert(!swap_qualifies(a, b, i, j)) by {
                if swap_qualifies(a, b, i, j) {
                    assert(10 * d > a.len() * b.len());
                    assert(a.len() * b.len() >= 1 * 1) by (nonlinear_arith)
                        requires
                            a.len() >= 1,
                            b.len() >= 1,
                    ;
                    assert(d > 0);
                }
            }
        }
    }
}

/// When no swap is returned, no swap of the pair qualifies.
pub proof fn lemma_find_best_swap_none(a: Seq<InGamePlayer>, b: Seq<InGamePlayer>)
    requires
        spec_find_best_swap(a, b) is None,
    ensures
        forall|k: int, l: int|
            0 <= k < a.len() && 0 <= l < b.len() ==> !swap_qualifies(a, b, k, l),
{
    lemma_swap_search_none(a, b, 0, 0, None, 0);
}

/// Absolute value of a machine integer.
fn abs_i64(x: i64) -> (r: i64)
    requires
        x != i64::MIN,
    ensures
        r as int == abs_val(x as int),
{
    if x < 0 {
        -x
    } else {
        x
    }
}

/// Total skill of a court.
pub fn team_skill_total(team: &Vec<InGamePlayer>) -> (r: i64)
    requires
        valid_roster(team@),
        team@.len() <= MAX_TEAM_LEN,
    ensures
        r as int == skill_sum(team@),
        team@.len() <= r as int <= 50 * team@.len(),
{
    let mut total: i64 = 0;
    let mut k: usize = 0;
    while k < team.len()
        invariant
            k <= team@.len(),
            team@.len() <= MAX_TEAM_LEN,
            valid_roster(team@),
            total as int == skill_sum(team@.take(k as int)),
            0 <= total as int <= 50 * k,
        decreases team@.len() - k,
    {
        proof {
            lemma_skill_sum_take_step(team@, k as int);
        }
        total = total + team[k].skill_level as i64;
        k += 1;
    }
    proof {
        assert(team@.take(team@.len() as int) =~= team@);
        lemma_skill_sum_bounds(team@);
    }
    total
}

/// Searches all player pairs of two courts for the swap that best reduces
/// the gap between the court mean skills; returns it when the improvement
/// strictly exceeds the fixed threshold, and nothing otherwise. The
/// returned pair is exactly `spec_find_best_swap` of the two courts.
pub fn find_best_swap(team_a: &Vec<InGamePlayer>, team_b: &Vec<InGamePlayer>) -> (r: Option<
    (usize, usize),
>)
    requires
        valid_roster(team_a@),
        valid_roster(team_b@),
        team_a@.len() <= MAX_TEAM_LEN,
        team_b@.len() <= MAX_TEAM_LEN,
    ensures
        match r {
            Some(pq) => spec_find_best_swap(team_a@, team_b@) == Some((pq.0 as int, pq.1 as int)),
            None => spec_find_best_swap(team_a@, team_b@) is None,
        },
{
    let la = team_a.len();
    let lb = team_b.len();
    let sum_a = team_skill_total(team_a);
    let sum_b = team_skill_total(team_b);
    proof {
        assert(0 <= sum_a as int * (lb as int) <= 50 * 0x10000 * 0x10000) by (nonlinear_arith)
            requires
                0 <= sum_a as int <= 50 * 0x10000,
                0 <= lb as int <= 0x10000,
        ;
        assert(0 <= sum_b as int * (la as int) <= 50 * 0x10000 * 0x10000) by (nonlinear_arith)
            requires
                0 <= sum_b as int <= 50 * 0x10000,
                0 <= la as int <= 0x10000,
        ;
    }
    let base_gap = abs_i64(sum_a * (lb as i64) - sum_b * (la as i64));
    proof {
        assert(base_gap as int == scaled_gap(team_a@, team_b@));
        assert(0 <= base_gap as int <= 0x32_0000_0000);
    }
    let mut best: Option<(usize, usize)> = None;
    let mut best_delta: i64 = 0;
    let mut i: usize = 0;
    while i < la
        invariant
            la == team_a@.len(),
            lb == team_b@.len(),
            la <= MAX_TEAM_LEN,
            lb <= MAX_TEAM_LEN,
            valid_roster(team_a@),
            valid_roster(team_b@),
            i <= la,
            sum_a as int == skill_sum(team_a@),
            sum_b as int == skill_sum(team_b@),
            0 <= sum_a as int <= 50 * la,
            0 <= sum_b as int <= 50 * lb,
            base_gap as int == scaled_gap(team_a@, team_b@),
            0 <= base_gap as int <= 0x32_0000_0000,
            0 <= best_delta <= base_gap,
            spec_find_best_swap(team_a@, team_b@) == spec_swap_search(
                team_a@,
                team_b@,
                i as int,
                0,
                match best {
                    Some(pq) => Some((pq.0 as int, pq.1 as int)),
                    None => None,
                },
                best_delta as int,
            ),
        decreases la - i,
    {
        let mut j: usize = 0;
        while j < lb
            invariant
                la == team_a@.len(),
                lb == team_b@.len(),
                la <= MAX_TEAM_LEN,
                lb <= MAX_TEAM_LEN,
                valid_roster(team_a@),
                valid_roster(team_b@),
                i < la,
                j <= lb,
                sum_a as int == skill_sum(team_a@),
                sum_b as int == skill_sum(team_b@),
                0 <= sum_a as int <= 50 * la,
                0 <= sum_b as int <= 50 * lb,
                base_gap as int == scaled_gap(team_a@, team_b@),
                0 <= base_gap as int <= 0x32_0000_0000,
                0 <= best_delta <= base_gap,
                spec_find_best_swap(team_a@, team_b@) == spec_swap_search(
                    team_a@,
                    team_b@,
                    i as int,
                    j as int,
                    match best {
                        Some(pq) => Some((pq.0 as int, pq.1 as int)),
                        None => None,
                    },
                    best_delta as int,
                ),
            decreases lb - j,
        {
            let sa_new = sum_a - team_a[i].skill_level as i64 + team_b[j].skill_level as i64;
            let sb_new = sum_b - team_b[j].skill_level as i64 + team_a[i].skill_level as i64;
            proof {
                assert(valid_player(team_a@[i as int]) && valid_player(team_b@[j as int]));
                assert(-51 * 0x10000 * 0x10000 <= sa_new as int * (lb as int) <= 51 * 0x10000
                    * 0x10000) by (nonlinear_arith)
                    requires
                        -50 <= sa_new as int <= 50 * 0x10000 + 50,
                        0 <= lb as int <= 0x10000,
                ;
                assert(-51 * 0x10000 * 0x10000 <= sb_new as int * (la as int) <= 51 * 0x10000
                    * 0x10000) by (nonlinear_arith)
                    requires
                        -50 <= sb_new as int <= 50 * 0x10000 + 50,
                        0 <= la as int <= 0x10000,
                ;
                assert(0 <= (la as int) * (lb as int) <= 0x10000 * 0x10000) by (nonlinear_arith)
                    requires
                        0 <= la as int <= 0x10000,
                        0 <= lb as int <= 0x10000,
                ;
            }
            let new_gap = abs_i64(sa_new * (lb as i64) - sb_new * (la as i64));
            let d = base_gap - new_gap;
            proof {
                assert(0 <= new_gap as int <= 0x66_0000_0000);
                assert(-0x66_0000_0000 <= d as int <= 0x32_0000_0000);
                assert(new_gap as int == swapped_gap(team_a@, team_b@, i as int, j as int));
                assert(d as int == swap_delta(team_a@, team_b@, i as int, j as int));
            }
            if d > best_delta && 10 * d > (la as i64) * (lb as i64) {
                best = Some((i, j));
                best_delta = d;
            }
            j += 1;
        }
        i += 1;
    }
    best
}

/// Every court holds only well-formed players.
pub open spec fn teams_valid(ts: Seq<Seq<InGamePlayer>>) -> bool {
    forall|t: int| 0 <= t < ts.len() ==> valid_roster(#[trigger] ts[t])
}

/// Every court holds exactly `n` players.
pub open spec fn uniform_size(ts: Seq<Seq<InGamePlayer>>, n: int) -> bool {
    forall|t: int| 0 <= t < ts.len() ==> (#[trigger] ts[t]).len() == n
}

/// Two lists of courts with the same court count and court sizes.
pub open spec fn sizes_match(a: Seq<Seq<InGamePlayer>>, b: Seq<Seq<InGamePlayer>>) -> bool {
    &&& a.len() == b.len()
    &&& forall|t: int| 0 <= t < a.len() ==> (#[trigger] a[t]).len() == b[t].len()
}

/// Every pairwise absolute difference of court skill totals is at most
/// `g`. With courts of one common size, the difference of two court mean
/// skills is the difference of their totals divided by that size, so a
/// bound on totals is exactly a scaled bound on means.
pub open spec fn gaps_bounded(ts: Seq<Seq<InGamePlayer>>, g: int) -> bool {
    forall|p: int, q: int|
        0 <= p < ts.len() && 0 <= q < ts.len() ==> abs_val(
            skill_sum(#[trigger] ts[p]) - skill_sum(#[trigger] ts[q]),
        ) <= g
}

/// The courts after swapping `ts[i][pi]` with `ts[j][pj]`: each court
/// loses its player at the given position and gains the other's at the
/// back.
pub open spec fn spec_swap(
    ts: Seq<Seq<InGamePlayer>>,
    i: int,
    j: int,
    pi: int,
    pj: int,
) -> Seq<Seq<InGamePlayer>> {
    let a = ts[i];
    let b = ts[j];
    ts.update(i, a.remove(pi).push(b[pj])).update(j, b.remove(pj).push(a[pi]))
}

/// One optimizer pass from court pair `(i, j)` on: for each pair in
/// row-major order, perform the best qualifying swap if there is one.
/// Returns the courts and whether any swap was made.
pub open spec fn spec_pass(
    ts: Seq<Seq<InGamePlayer>>,
    i: int,
    j: int,
    improved: bool,
) -> (Seq<Seq<InGamePlayer>>, bool)
    decreases ts.len() - i, ts.len() - j,
{
    if i < 0 || j < i + 1 || i >= ts.len() {
        (ts, improved)
    } else if j >= ts.len() {
        spec_pass(ts, i + 1, i + 2, improved)
    } else {
        match spec_find_best_swap(ts[i], ts[j]) {
            Some(pq) => spec_pass(spec_swap(ts, i, j, pq.0, pq.1), i, j + 1, true),
            None => spec_pass(ts, i, j + 1, improved),
        }
    }
}

/// Up to `k` optimizer passes, stopping early after a pass without a swap.
pub open spec fn spec_optimize_loop(ts: Seq<Seq<InGamePlayer>>, k: int) -> Seq<
    Seq<InGamePlayer>,
>
    decreases k,
{
    if k <= 0 {
        ts
    } else {
        let pr = spec_pass(ts, 0, 1, false);
        if pr.1 {
            spec_optimize_loop(pr.0, k - 1)
        } else {
            ts
        }
    }
}

/// The stability optimizer: at most ten passes of pairwise swaps.
pub open spec fn spec_optimize(ts: Seq<Seq<InGamePlayer>>) -> Seq<Seq<InGamePlayer>> {
    spec_optimize_loop(ts, 10)
}

/// What one swap does to the courts: sizes and the combined player
/// multiset are unchanged, the two court totals trade the difference of
/// the swapped skills, all other courts are untouched, and validity
/// carries over.
pub proof fn lemma_spec_swap_props(ts: Seq<Seq<InGamePlayer>>, i: int, j: int, pi: int, pj: int)
    requires
        0 <= i < ts.len(),
        0 <= j < ts.len(),
        i != j,
        0 <= pi < ts[i].len(),
        0 <= pj < ts[j].len(),
    ensures
        sizes_match(ts, spec_swap(ts, i, j, pi, pj)),
        teams_multiset(spec_swap(ts, i, j, pi, pj)) == teams_multiset(ts),
        skill_sum(spec_swap(ts, i, j, pi, pj)[i]) == skill_sum(ts[i]) - ts[i][pi].skill_level
            + ts[j][pj].skill_level,
        skill_sum(spec_swap(ts, i, j, pi, pj)[j]) == skill_sum(ts[j]) - ts[j][pj].skill_level
            + ts[i][pi].skill_level,
        forall|t: int|
            0 <= t < ts.len() && t != i && t != j ==> #[trigger] spec_swap(ts, i, j, pi, pj)[t]
                == ts[t],
        teams_valid(ts) ==> teams_valid(spec_swap(ts, i, j, pi, pj)),
{
    let a = ts[i];
    let b = ts[j];
    let na = a.remove(pi).push(b[pj]);
    let nb = b.remove(pj).push(a[pi]);
    let sw = spec_swap(ts, i, j, pi, pj);
    lemma_skill_sum_remove(a, pi);
    lemma_skill_sum_push(a.remove(pi), b[pj]);
    lemma_skill_sum_remove(b, pj);
    lemma_skill_sum_push(b.remove(pj), a[pi]);
    let ts1 = ts.update(i, na);
    lemma_teams_multiset_update(ts, i, na);
    lemma_teams_multiset_update(ts1, j, nb);
    assert(a.remove(pi).to_multiset() == a.to_multiset().remove(a[pi]));
    assert(a.remove(pi).push(b[pj]).to_multiset() =~= a.remove(pi).to_multiset().insert(b[pj]));
    assert(b.remove(pj).to_multiset() == b.to_multiset().remove(b[pj]));
    assert(b.remove(pj).push(a[pi]).to_multiset() =~= b.remove(pj).to_multiset().insert(a[pi]));
    assert(a.contains(a[pi]));
    assert(a.to_multiset().count(a[pi]) > 0);
    assert(b.contains(b[pj]));
    assert(b.to_multiset().count(b[pj]) > 0);
    assert forall|x: InGamePlayer| teams_multiset(sw).count(x) == teams_multiset(ts).count(x) by {
        assert(teams_multiset(ts1).add(a.to_multiset()).count(x) == teams_multiset(ts).add(
            na.to_multiset(),
        ).count(x));
        assert(teams_multiset(sw).add(b.to_multiset()).count(x) == teams_multiset(ts1).add(
            nb.to_multiset(),
        ).count(x));
        assert(na.to_multiset().count(x) == a.to_multiset().remove(a[pi]).insert(b[pj]).count(x));
        assert(nb.to_multiset().count(x) == b.to_multiset().remove(b[pj]).insert(a[pi]).count(x));
    }
    assert(teams_multiset(sw) =~= teams_multiset(ts));
    assert(valid_roster(a) && valid_roster(b) ==> valid_roster(na) && valid_roster(nb)) by {
        if valid_roster(a) && valid_roster(b) {
            assert forall|k: int| 0 <= k < na.len() implies valid_player(#[trigger] na[k]) by {
                if k < a.len() - 1 {
                    assert(na[k] == if k < pi {
                        a[k]
                    } else {
                        a[k + 1]
                    });
                } else {
                    assert(na[k] == b[pj]);
                }
            }
            assert forall|k: int| 0 <= k < nb.len() implies valid_player(#[trigger] nb[k]) by {
                if k < b.len() - 1 {
                    assert(nb[k] == if k < pj {
                        b[k]
                    } else {
                        b[k + 1]
                    });
                } else {
                    assert(nb[k] == a[pi]);
                }
            }
        }
    }
}

/// A qualifying swap shrinks the gap of its own pair strictly, and every
/// other pairwise gap stays within any bound it already met: the two new
/// totals lie between the two old ones.
pub proof fn lemma_swap_gap_transfer(
    ts: Seq<Seq<InGamePlayer>>,
    i: int,
    j: int,
    pi: int,
    pj: int,
    n: int,
    g: int,
)
    requires
        0 <= i < ts.len(),
        0 <= j < ts.len(),
        i != j,
        0 <= pi < ts[i].len(),
        0 <= pj < ts[j].len(),
        uniform_size(ts, n),
        n >= 1,
        swap_qualifies(ts[i], ts[j], pi, pj),
        gaps_bounded(ts, g),
    ensures
        gaps_bounded(spec_swap(ts, i, j, pi, pj), g),
        uniform_size(spec_swap(ts, i, j, pi, pj), n),
{
    let a = ts[i];
    let b = ts[j];
    let sw = spec_swap(ts, i, j, pi, pj);
    lemma_spec_swap_props(ts, i, j, pi, pj);
    let si = skill_sum(a);
    let sj = skill_sum(b);
    let si2 = skill_sum(sw[i]);
    let sj2 = skill_sum(sw[j]);
    assert(si2 + sj2 == si + sj);
    // the qualifying condition, stated over totals: the pair gap shrinks
    assert(scaled_gap(a, b) == n * abs_val(si - sj)) by (nonlinear_arith)
        requires
            scaled_gap(a, b) == abs_val(si * b.len() - sj * a.len()),
            a.len() == n,
            b.len() == n,
            n >= 1,
            scaled_gap(a, b) == abs_val(si * n - sj * n),
    ;
    assert(swapped_gap(a, b, pi, pj) == n * abs_val(si2 - sj2)) by (nonlinear_arith)
        requires
            swapped_gap(a, b, pi, pj) == abs_val(
                (si - a[pi].skill_level + b[pj].skill_level) * n - (sj - b[pj].skill_level
                    + a[pi].skill_level) * n,
            ),
            si2 == si - a[pi].skill_level + b[pj].skill_level,
            sj2 == sj - b[pj].skill_level + a[pi].skill_level,
            n >= 1,
    ;
    assert(abs_val(si2 - sj2) < abs_val(si - sj)) by (nonlinear_arith)
        requires
            10 * (n * abs_val(si - sj) - n * abs_val(si2 - sj2)) > n * n,
            n >= 1,
            abs_val(si - sj) >= 0,
            abs_val(si2 - sj2) >= 0,
    ;
    assert forall|p: int, q: int|
        0 <= p < sw.len() && 0 <= q < sw.len() implies abs_val(
        skill_sum(#[trigger] sw[p]) - skill_sum(#[trigger] sw[q]),
    ) <= g by {
        assert(abs_val(skill_sum(ts[p]) - skill_sum(ts[q])) <= g);
        assert(abs_val(skill_sum(ts[p]) - skill_sum(ts[i])) <= g);
        assert(abs_val(skill_sum(ts[p]) - skill_sum(ts[j])) <= g);
        assert(abs_val(skill_sum(ts[q]) - skill_sum(ts[i])) <= g);
        assert(abs_val(skill_sum(ts[q]) - skill_sum(ts[j])) <= g);
        assert(abs_val(skill_sum(ts[i]) - skill_sum(ts[j])) <= g);
        if p != i && p != j {
            assert(sw[p] == ts[p]);
        }
        if q != i && q != j {
            assert(sw[q] == ts[q]);
        }
    }
}

/// A pass preserves court count, court sizes, the combined player
/// multiset, and validity.
pub proof fn lemma_pass_conserves(ts: Seq<Seq<InGamePlayer>>, i: int, j: int, improved: bool)
    ensures
        sizes_match(ts, spec_pass(ts, i, j, improved).0),
        teams_multiset(spec_pass(ts, i, j, improved).0) == teams_multiset(ts),
        teams_valid(ts) ==> teams_valid(spec_pass(ts, i, j, improved).0),
    decreases ts.len() - i, ts.len() - j,
{
    if i < 0 || j < i + 1 || i >= ts.len() {
    } else if j >= ts.len() {
        lemma_pass_conserves(ts, i + 1, i + 2, improved);
    } else {
        match spec_find_best_swap(ts[i], ts[j]) {
            Some(pq) => {
                lemma_find_best_swap_qualifies(ts[i], ts[j]);
                lemma_spec_swap_props(ts, i, j, pq.0, pq.1);
                lemma_pass_conserves(spec_swap(ts, i, j, pq.0, pq.1), i, j + 1, true);
            },
            None => {
                lemma_pass_conserves(ts, i, j + 1, improved);
            },
        }
    }
}

/// A pass keeps every pairwise gap bound, court sizes being uniform.
pub proof fn lemma_pass_gaps(ts: Seq<Seq<InGamePlayer>>, i: int, j: int, improved: bool, n: int, g: int)
    requires
        uniform_size(ts, n),
        n >= 1,
        gaps_bounded(ts, g),
    ensures
        gaps_bounded(spec_pass(ts, i, j, improved).0, g),
        uniform_size(spec_pass(ts, i, j, improved).0, n),
    decreases ts.len() - i, ts.len() - j,
{
    if i < 0 || j < i + 1 || i >= ts.len() {
    } else if j >= ts.len() {
        lemma_pass_gaps(ts, i + 1, i + 2, improved, n, g);
    } else {
        match spec_find_best_swap(ts[i], ts[j]) {
            Some(pq) => {
                lemma_find_best_swap_qualifies(ts[i], ts[j]);
                lemma_swap_gap_transfer(ts, i, j, pq.0, pq.1, n, g);
                lemma_pass_gaps(spec_swap(ts, i, j, pq.0, pq.1), i, j + 1, true, n, g);
            },
            None => {
                lemma_pass_gaps(ts, i, j + 1, improved, n, g);
            },
        }
    }
}

/// The optimizer preserves court count, court sizes, the combined player
/// multiset, and validity.
pub proof fn lemma_optimize_loop_conserves(ts: Seq<Seq<InGamePlayer>>, k: int)
    ensures
        sizes_match(ts, spec_optimize_loop(ts, k)),
        teams_multiset(spec_optimize_loop(ts, k)) == teams_multiset(ts),
        teams_valid(ts) ==> teams_valid(spec_optimize_loop(ts, k)),
    decreases k,
{
    if k > 0 {
        let pr = spec_pass(ts, 0, 1, false);
        lemma_pass_conserves(ts, 0, 1, false);
        if pr.1 {
            lemma_optimize_loop_conserves(pr.0, k - 1);
        }
    }
}

/// Balance non-regression: with courts of one common positive size, no
/// bound on the pairwise differences of court skill totals — hence none on
/// the pairwise differences of court mean skills — is ever exceeded by the
/// optimizer. In particular the worst pairwise mean-skill gap after the
/// optimizer is at most the gap of the courts it was given.
pub proof fn lemma_optimize_loop_gaps(ts: Seq<Seq<InGamePlayer>>, k: int, n: int, g: int)
    requires
        uniform_size(ts, n),
        n >= 1,
        gaps_bounded(ts, g),
    ensures
        gaps_bounded(spec_optimize_loop(ts, k), g),
        uniform_size(spec_optimize_loop(ts, k), n),
    decreases k,
{
    if k > 0 {
        let pr = spec_pass(ts, 0, 1, false);
        lemma_pass_gaps(ts, 0, 1, false, n, g);
        if pr.1 {
            lemma_optimize_loop_gaps(pr.0, k - 1, n, g);
        }
    }
}

/// Balance non-regression for the whole optimizer.
pub proof fn lemma_optimize_balance(ts: Seq<Seq<InGamePlayer>>, n: int, g: int)
    requires
        uniform_size(ts, n),
        n >= 1,
        gaps_bounded(ts, g),
    ensures
        gaps_bounded(spec_optimize(ts), g),
        uniform_size(spec_optimize(ts), n),
{
    lemma_optimize_loop_gaps(ts, 10, n, g);
}

/// A pass that reports no improvement performed no swap and returned its
/// input unchanged.
proof fn lemma_pass_no_improvement(ts: Seq<Seq<InGamePlayer>>, i: int, j: int)
    requires
        !spec_pass(ts, i, j, false).1,
    ensures
        spec_pass(ts, i, j, false).0 == ts,
    decreases ts.len() - i, ts.len() - j,
{
    if i < 0 || j < i + 1 || i >= ts.len() {
    } else if j >= ts.len() {
        lemma_pass_no_improvement(ts, i + 1, i + 2);
    } else {
        match spec_find_best_swap(ts[i], ts[j]) {
            Some(pq) => {
                lemma_pass_stays_improved(spec_swap(ts, i, j, pq.0, pq.1), i, j + 1);
                assert(false);
            },
            None => {
                lemma_pass_no_improvement(ts, i, j + 1);
            },
        }
    }
}

/// Once a pass has performed a swap, it reports an improvement.
proof fn lemma_pass_stays_improved(ts: Seq<Seq<InGamePlayer>>, i: int, j: int)
    ensures
        spec_pass(ts, i, j, true).1,
    decreases ts.len() - i, ts.len() - j,
{
    if i < 0 || j < i + 1 || i >= ts.len() {
    } else if j >= ts.len() {
        lemma_pass_stays_improved(ts, i + 1, i + 2);
    } else {
        match spec_find_best_swap(ts[i], ts[j]) {
            Some(pq) => {
                lemma_pass_stays_improved(spec_swap(ts, i, j, pq.0, pq.1), i, j + 1);
            },
            None => {
                lemma_pass_stays_improved(ts, i, j + 1);
            },
        }
    }
}

/// Courts whose combined contents come from a well-formed roster are
/// themselves well formed.
pub proof fn lemma_teams_validity_from_roster(ts: Seq<Seq<InGamePlayer>>, s: Seq<InGamePlayer>)
    requires
        teams_multiset(ts) == s.to_multiset(),
        valid_roster(s),
    ensures
        teams_valid(ts),
{
    assert forall|t: int| 0 <= t < ts.len() implies valid_roster(#[trigger] ts[t]) by {
        assert forall|k: int| 0 <= k < ts[t].len() implies valid_player(#[trigger] ts[t][k]) by {
            assert(ts[t].contains(ts[t][k]));
            assert(ts[t].to_multiset().count(ts[t][k]) > 0);
            lemma_teams_multiset_count_ge(ts, t, ts[t][k]);
            assert(s.to_multiset().count(ts[t][k]) > 0);
            assert(s.contains(ts[t][k]));
            let w = choose|w: int| 0 <= w < s.len() && s[w] == ts[t][k];
            assert(valid_player(s[w]));
        }
    }
}

/// Iteratively swaps players between court pairs to narrow the disparity
/// of court mean skills: up to ten passes; in each pass every court pair
/// performs its best qualifying swap; a pass without any swap ends the
/// search. The result is exactly `spec_optimize` of the given courts; the
/// court count, every court's size, and the combined player multiset are
/// unchanged, and no bound met by the pairwise mean-skill gaps of uniform
/// courts is ever exceeded.
pub fn optimize_teams_stability(teams: &mut Vec<Vec<InGamePlayer>>)
    requires
        teams_valid(teams_view(old(teams)@)),
        forall|t: int| 0 <= t < old(teams)@.len() ==> #[trigger] old(teams)@[t]@.len()
            <= MAX_TEAM_LEN,
    ensures
        teams_view(final(teams)@) == spec_optimize(teams_view(old(teams)@)),
        sizes_match(teams_view(old(teams)@), teams_view(final(teams)@)),
        teams_multiset(teams_view(final(teams)@)) == teams_multiset(teams_view(old(teams)@)),
        teams_valid(teams_view(final(teams)@)),
        forall|n: int, g: int|
            n >= 1 && uniform_size(teams_view(old(teams)@), n) && gaps_bounded(
                teams_view(old(teams)@),
                g,
            ) ==> gaps_bounded(teams_view(final(teams)@), g),
{
    let ghost orig = teams_view(teams@);
    let mut it: usize = 0;
    while it < 10
        invariant_except_break
            it <= 10,
            spec_optimize(orig) == spec_optimize_loop(teams_view(teams@), 10 - it),
            sizes_match(orig, teams_view(teams@)),
            teams_multiset(teams_view(teams@)) == teams_multiset(orig),
            teams_valid(teams_view(teams@)),
            forall|t: int| 0 <= t < orig.len() ==> (#[trigger] orig[t]).len() <= MAX_TEAM_LEN,
        ensures
            teams_view(teams@) == spec_optimize(orig),
            sizes_match(orig, teams_view(teams@)),
            teams_multiset(teams_view(teams@)) == teams_multiset(orig),
            teams_valid(teams_view(teams@)),
        decreases 10 - it,
    {
        let ghost pstart = teams_view(teams@);
        let mut improved = false;
        let mut i: usize = 0;
        while i < teams.len()
            invariant
                i <= teams@.len(),
                sizes_match(orig, teams_view(teams@)),
                teams_multiset(teams_view(teams@)) == teams_multiset(orig),
                teams_valid(teams_view(teams@)),
                forall|t: int| 0 <= t < orig.len() ==> (#[trigger] orig[t]).len() <= MAX_TEAM_LEN,
                spec_pass(pstart, 0, 1, false) == spec_pass(
                    teams_view(teams@),
                    i as int,
                    i as int + 1,
                    improved,
                ),
            decreases teams@.len() - i,
        {
            let mut j: usize = i + 1;
            while j < teams.len()
                invariant
                    i < teams@.len(),
                    i + 1 <= j <= teams@.len(),
                    sizes_match(orig, teams_view(teams@)),
                    teams_multiset(teams_view(teams@)) == teams_multiset(orig),
                    teams_valid(teams_view(teams@)),
                    forall|t: int| 0 <= t < orig.len() ==> (#[trigger] orig[t]).len()
                        <= MAX_TEAM_LEN,
                    spec_pass(pstart, 0, 1, false) == spec_pass(
                        teams_view(teams@),
                        i as int,
                        j as int,
                        improved,
                    ),
                decreases teams@.len() - j,
            {
                let ghost before = teams_view(teams@);
                let tj = teams.remove(j);
                let ti = teams.remove(i);
                proof {
                    assert(ti@ == before[i as int]);
                    assert(tj@ == before[j as int]);
                }
                let mut ti = ti;
                let mut tj = tj;
                proof {
                    assert(before[i as int].len() == orig[i as int].len());
                    assert(before[j as int].len() == orig[j as int].len());
                    assert(orig[i as int].len() <= MAX_TEAM_LEN);
                    assert(orig[j as int].len() <= MAX_TEAM_LEN);
                    assert(valid_roster(before[i as int]));
                    assert(valid_roster(before[j as int]));
                }
                let r = find_best_swap(&ti, &tj);
                match r {
                    Some(pq) => {
                        proof {
                            lemma_find_best_swap_qualifies(ti@, tj@);
                        }
                        let pa = ti.remove(pq.0);
                        let pb = tj.remove(pq.1);
                        ti.push(pb);
                        tj.push(pa);
                        improved = true;
                        proof {
                            assert(ti@ == before[i as int].remove(pq.0 as int).push(
                                before[j as int][pq.1 as int],
                            ));
                            assert(tj@ == before[j as int].remove(pq.1 as int).push(
                                before[i as int][pq.0 as int],
                            ));
                        }
                    },
                    None => {},
                }
                teams.insert(i, ti);
                teams.insert(j, tj);
                proof {
                    assert forall|t: int| 0 <= t < before.len() implies #[trigger] teams_view(
                        teams@,
                    )[t] == before.update(i as int, ti@).update(j as int, tj@)[t] by {}
                    assert(teams_view(teams@) =~= before.update(i as int, ti@).update(
                        j as int,
                        tj@,
                    ));
                    match r {
                        Some(pq) => {
                            assert(teams_view(teams@) == spec_swap(
                                before,
                                i as int,
                                j as int,
                                pq.0 as int,
                                pq.1 as int,
                            ));
                            lemma_spec_swap_props(before, i as int, j as int, pq.0 as int, pq.1 as int);
                        },
                        None => {
                            assert(teams_view(teams@) =~= before);
                        },
                    }
                }
                j += 1;
            }
            i += 1;
        }
        proof {
            assert(spec_pass(pstart, 0, 1, false) == (teams_view(teams@), improved));
        }
        if !improved {
            proof {
                lemma_pass_no_improvement(pstart, 0, 1);
                assert(teams_view(teams@) == pstart);
                assert(spec_optimize_loop(pstart, 10 - it) == pstart);
            }
            break ;
        }
        proof {
            assert(spec_optimize_loop(pstart, 10 - it) == spec_optimize_loop(
                teams_view(teams@),
                10 - it - 1,
            ));
        }
        it += 1;
    }
    proof {
        assert forall|n: int, g: int|
            n >= 1 && uniform_size(orig, n) && gaps_bounded(orig, g) implies gaps_bounded(
            teams_view(teams@),
            g,
        ) by {
            lemma_optimize_balance(orig, n, g);
        }
    }
}

/// The balanced courts for one round, as a function of the playing set,
/// the court count, the previous round's sit-out ids, and the tie-break
/// seed: the draft order dealt by the snake distributor, then optimized.
pub open spec fn spec_balanced_teams(
    players: Seq<InGamePlayer>,
    num_courts: nat,
    prev: Seq<i64>,
    seed: u64,
) -> Seq<Seq<InGamePlayer>> {
    spec_optimize(spec_snake(spec_rank_sort(RankKind::Draft, players, prev, seed), num_courts))
}

/// Builds the balanced courts for one round: orders the playing set for
/// the draft (players returning from a sit-out first, then by descending
/// skill, ties broken by the mixer), deals it across the courts in snake
/// order, and runs the stability optimizer. Exactly four players land on
/// each court, and together the courts hold exactly the given players.
pub fn create_balanced_teams(
    players: Vec<InGamePlayer>,
    num_courts: usize,
    previous_sit_out_ids: &Vec<i64>,
    seed: u64,
) -> (r: Vec<Vec<InGamePlayer>>)
    requires
        valid_roster(players@),
        players@.len() == 4 * num_courts,
    ensures
        r@.len() == num_courts,
        teams_view(r@) == spec_balanced_teams(
            players@,
            num_courts as nat,
            previous_sit_out_ids@,
            seed,
        ),
        teams_multiset(teams_view(r@)) == players@.to_multiset(),
        uniform_size(teams_view(r@), 4),
        teams_valid(teams_view(r@)),
        forall|g: int|
            gaps_bounded(
                spec_snake(
                    spec_rank_sort(RankKind::Draft, players@, previous_sit_out_ids@, seed),
                    num_courts as nat,
                ),
                g,
            ) ==> gaps_bounded(teams_view(r@), g),
{
    let ghost roster = players@;
    let draft = rank_sort(RankKind::Draft, players, previous_sit_out_ids, seed);
    let mut teams = snake_draft(draft, num_courts);
    let ghost dealt = teams_view(teams@);
    proof {
        lemma_teams_validity_from_roster(dealt, roster);
        assert forall|t: int| 0 <= t < dealt.len() implies (#[trigger] dealt[t]).len() == 4 by {
            assert(teams_view(teams@)[t].len() == 4);
        }
        assert(uniform_size(dealt, 4));
        assert forall|t: int| 0 <= t < teams@.len() implies #[trigger] teams@[t]@.len()
            <= MAX_TEAM_LEN by {
            assert(dealt[t].len() == 4);
        }
    }
    optimize_teams_stability(&mut teams);
    proof {
        lemma_optimize_loop_conserves(dealt, 10);
        assert forall|t: int| 0 <= t < teams_view(teams@).len() implies (#[trigger] teams_view(
            teams@,
        )[t]).len() == 4 by {
            assert(dealt[t].len() == 4);
        }
        assert forall|g: int| gaps_bounded(dealt, g) implies gaps_bounded(teams_view(teams@), g) by {
            if num_courts > 0 {
                lemma_optimize_balance(dealt, 4, g);
            } else {
                assert(teams_view(teams@).len() == 0);
            }
        }
    }
    teams
}

} // verus!
