//! Snake-draft distributor.
//!
//! The draft order is dealt across the court buckets with a cursor that
//! walks forward to the last court, reverses, walks back to the first,
//! reverses again, and so on (boustrophedon order, with the turning court
//! receiving two consecutive players). This spreads high- and low-skill
//! players evenly without sorting by court.

use vstd::prelude::*;
use crate::games::{
    InGamePlayer, teams_multiset, lemma_teams_multiset_update, lemma_teams_multiset_empty,
};

verus! {

broadcast use {
    vstd::seq_lib::group_to_multiset_ensures,
    vstd::multiset::group_multiset_axioms,
};

/// The ghost image of a list of court buckets.
pub open spec fn teams_view(ts: Seq<Vec<InGamePlayer>>) -> Seq<Seq<InGamePlayer>> {
    ts.map_values(|v: Vec<InGamePlayer>| v@)
}

/// `n` empty court buckets.
pub open spec fn empty_teams(n: nat) -> Seq<Seq<InGamePlayer>> {
    Seq::new(n, |i: int| Seq::<InGamePlayer>::empty())
}

/// The snake walk from an intermediate state: deals `draft[k..]` into
/// `teams`, with the cursor at `cur` moving in direction `dir` (`1`
/// forward, `-1` backward).
pub open spec fn spec_snake_loop(
    draft: Seq<InGamePlayer>,
    k: int,
    teams: Seq<Seq<InGamePlayer>>,
    cur: int,
    dir: int,
) -> Seq<Seq<InGamePlayer>>
    decreases draft.len() - k,
{
    if k < 0 || k >= draft.len() {
        teams
    } else {
        let dealt = teams.update(cur, teams[cur].push(draft[k]));
        let last = teams.len() - 1;
        if dir == 1 {
            if cur == last {
                spec_snake_loop(draft, k + 1, dealt, cur, -1)
            } else {
                spec_snake_loop(draft, k + 1, dealt, cur + 1, 1)
            }
        } else {
            if cur == 0 {
                spec_snake_loop(draft, k + 1, dealt, cur, 1)
            } else {
                spec_snake_loop(draft, k + 1, dealt, cur - 1, dir)
            }
        }
    }
}

/// The whole snake walk: the draft order dealt into `n` initially empty
/// buckets, starting at bucket `0`, moving forward.
pub open spec fn spec_snake(draft: Seq<InGamePlayer>, n: nat) -> Seq<Seq<InGamePlayer>> {
    spec_snake_loop(draft, 0, empty_teams(n), 0, 1)
}

/// Deals the draft order across `num_courts` buckets in snake order.
///
/// With zero courts the draft order must be empty (the caller fields no
/// game in that case) and no buckets are produced. When the draft holds
/// exactly four players per court, every bucket ends with exactly four.
pub fn snake_draft(draft: Vec<InGamePlayer>, num_courts: usize) -> (r: Vec<Vec<InGamePlayer>>)
    requires
        num_courts > 0 || draft@.len() == 0,
    ensures
        r@.len() == num_courts,
        teams_view(r@) == spec_snake(draft@, num_courts as nat),
        teams_multiset(teams_view(r@)) == draft@.to_multiset(),
        draft@.len() == 4 * num_courts ==> forall|t: int|
            0 <= t < num_courts ==> #[trigger] teams_view(r@)[t].len() == 4,
{
    let ghost n = num_courts as int;
    let mut teams: Vec<Vec<InGamePlayer>> = Vec::new();
    let mut c: usize = 0;
    while c < num_courts
        invariant
            c <= num_courts,
            teams@.len() == c,
            forall|i: int| 0 <= i < c ==> #[trigger] teams@[i]@.len() == 0,
        decreases num_courts - c,
    {
        teams.push(Vec::new());
        c += 1;
    }
    proof {
        assert forall|i: int| 0 <= i < num_courts implies teams_view(teams@)[i] == empty_teams(
            num_courts as nat,
        )[i] by {
            assert(teams@[i]@ =~= Seq::<InGamePlayer>::empty());
        }
        assert(teams_view(teams@) =~= empty_teams(num_courts as nat));
        lemma_teams_multiset_empty(num_courts as nat);
    }
    if num_courts == 0 {
        proof {
            assert(draft@.take(0) =~= draft@);
            assert(draft@.to_multiset().len() == 0);
            assert(teams_multiset(teams_view(teams@)) =~= draft@.to_multiset());
        }
        return teams;
    }
    let mut rest = draft;
    let mut cur: usize = 0;
    let mut dir: i32 = 1;
    let ghost whole = rest@;
    let ghost mut k: int = 0;
    let ghost mut rounds: int = 0;
    while rest.len() > 0
        invariant
            num_courts >= 1,
            n == num_courts as int,
            0 <= k <= whole.len(),
            rest@ == whole.skip(k),
            teams@.len() == num_courts,
            cur < num_courts,
            dir == 1 || dir == -1,
            spec_snake_loop(whole, k, teams_view(teams@), cur as int, dir as int) == spec_snake(
                whole,
                num_courts as nat,
            ),
            teams_multiset(teams_view(teams@)) == whole.take(k).to_multiset(),
            rounds >= 0,
            num_courts == 1 ==> teams_view(teams@)[0].len() == k,
            num_courts > 1 && dir == 1 ==> k == 2 * n * rounds + cur && forall|j: int|
                0 <= j < n ==> #[trigger] teams_view(teams@)[j].len() == 2 * rounds + if j < cur {
                    1int
                } else {
                    0int
                },
            num_courts > 1 && dir == -1 ==> k == 2 * n * rounds + n + (n - 1 - cur) && forall|
                j: int,
            |
                0 <= j < n ==> #[trigger] teams_view(teams@)[j].len() == 2 * rounds + 1 + if j
                    > cur {
                    1int
                } else {
                    0int
                },
        decreases rest@.len(),
    {
        let p = rest.remove(0);
        proof {
            assert(p == whole[k]);
        }
        let ghost old_view = teams_view(teams@);
        let mut t = teams.remove(cur);
        t.push(p);
        teams.insert(cur, t);
        proof {
            assert(teams_view(teams@) =~= old_view.update(cur as int, old_view[cur as int].push(
                whole[k],
            )));
            lemma_teams_multiset_update(old_view, cur as int, old_view[cur as int].push(whole[k]));
            let vc = old_view[cur as int];
            assert(vc.push(whole[k]).to_multiset() =~= vc.to_multiset().insert(whole[k]));
            assert forall|x: InGamePlayer|
                teams_multiset(teams_view(teams@)).count(x) == whole.take(k).to_multiset().insert(
                    whole[k],
                ).count(x) by {
                assert(teams_multiset(teams_view(teams@)).add(vc.to_multiset()).count(x)
                    == teams_multiset(old_view).add(vc.to_multiset().insert(whole[k])).count(x));
            }
            assert(whole.take(k + 1).drop_last() =~= whole.take(k));
            assert(whole.take(k).push(whole[k]) =~= whole.take(k + 1));
            assert(whole.take(k).push(whole[k]).to_multiset() =~= whole.take(
                k,
            ).to_multiset().insert(whole[k]));
            assert(teams_multiset(teams_view(teams@)) =~= whole.take(k + 1).to_multiset());
        }
        if dir == 1 {
            if cur == num_courts - 1 {
                dir = -1;
            } else {
                cur += 1;
            }
        } else {
            if cur == 0 {
                dir = 1;
                proof {
                    if num_courts > 1 {
                        assert(2 * n * (rounds + 1) == 2 * n * rounds + 2 * n) by (nonlinear_arith);
                        rounds = rounds + 1;
                    }
                }
            } else {
                cur -= 1;
            }
        }
        proof {
            k = k + 1;
            assert(rest@ =~= whole.skip(k));
        }
    }
    proof {
        assert(k == whole.len());
        assert(whole.take(k) =~= whole);
        if whole.len() == 4 * num_courts {
            if num_courts > 1 {
                if dir == 1 {
                    assert(rounds == 2 && cur == 0) by (nonlinear_arith)
                        requires
                            4 * n == 2 * n * rounds + cur,
                            0 <= cur < n,
                            n > 1,
                            rounds >= 0,
                    ;
                } else {
                    assert(false) by (nonlinear_arith)
                        requires
                            4 * n == 2 * n * rounds + n + (n - 1 - cur),
                            0 <= cur < n,
                            n > 1,
                            rounds >= 0,
                    ;
                }
            }
        }
    }
    teams
}

} // verus!
