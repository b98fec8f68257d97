//! Round assembly: sit-out selection and the engine entry point.
//!
//! One call of `make_games` computes one round: it selects who sits out,
//! orders the rest for the draft, deals them across the courts, balances
//! the courts, and packages the result. The engine is stateless across
//! rounds: the sit-out counters ride on the player records, and the
//! tie-break seed is an explicit parameter, so the result is a pure
//! function of the arguments (see `lemma_make_games_deterministic`).

use vstd::prelude::*;
use vstd::multiset::Multiset;
use crate::games::{
    InGamePlayer, Game, GamesRound, GameView, RoundView, valid_roster, valid_player, inc_sit,
    dec_sit, teams_multiset, lemma_dec_inc, lemma_teams_multiset_count_ge,
};
use crate::ranking::{RankKind, rank_sort, spec_rank_sort, rank_key, sorted_by_rank};
use crate::balance::{create_balanced_teams, spec_balanced_teams};
use crate::courts::teams_view;

verus! {

broadcast use {
    vstd::seq_lib::group_to_multiset_ensures,
    vstd::multiset::group_multiset_axioms,
};

/// The ids of a group of players, in order.
pub open spec fn spec_ids_of(ps: Seq<InGamePlayer>) -> Seq<i64> {
    ps.map_values(|p: InGamePlayer| p.id)
}

/// A whole group with each sit-out counter one higher.
pub open spec fn inc_all(s: Seq<InGamePlayer>) -> Seq<InGamePlayer> {
    s.map_values(|p: InGamePlayer| inc_sit(p))
}

/// A whole group with each sit-out counter one lower.
pub open spec fn dec_all(s: Seq<InGamePlayer>) -> Seq<InGamePlayer> {
    s.map_values(|p: InGamePlayer| dec_sit(p))
}

/// The sit-out selection: the playing set and the sitting-out set, the
/// latter with counters already incremented. With too few players for all
/// courts the whole roster sits out in its own order; otherwise the roster
/// is ranked by the sit-out order (players who did not sit out last round
/// first, then lowest sit-out count, ties broken by the mixer) and the
/// first `roster.len() - num_courts * 4` players sit out.
pub open spec fn spec_select(
    roster: Seq<InGamePlayer>,
    num_courts: int,
    prev: Seq<i64>,
    seed: u64,
) -> (Seq<InGamePlayer>, Seq<InGamePlayer>) {
    let total = num_courts * 4;
    if roster.len() < total {
        (Seq::empty(), inc_all(roster))
    } else {
        let ranked = spec_rank_sort(RankKind::SitOut, roster, prev, seed);
        let k = roster.len() - total;
        (ranked.skip(k), inc_all(ranked.take(k)))
    }
}

/// The players of each game of a round.
pub open spec fn games_players(games: Seq<GameView>) -> Seq<Seq<InGamePlayer>> {
    games.map_values(|g: GameView| g.players)
}

/// The whole round as a function of the inputs: who sits out, and the
/// balanced courts of the remaining players, numbered from one.
pub open spec fn spec_make_games(
    roster: Seq<InGamePlayer>,
    num_courts: int,
    prev: Seq<i64>,
    seed: u64,
) -> RoundView {
    let total = num_courts * 4;
    let sel = spec_select(roster, num_courts, prev, seed);
    if roster.len() < total {
        RoundView { games: Seq::empty(), sitting_out: sel.1 }
    } else {
        let teams = spec_balanced_teams(sel.0, num_courts as nat, prev, seed);
        RoundView {
            games: Seq::new(
                teams.len(),
                |c: int| GameView { court: c + 1, players: teams[c] },
            ),
            sitting_out: sel.1,
        }
    }
}

/// Determinism with a fixed seed: the round result is a function of the
/// roster, the court count, the previous round's sit-out ids, and the
/// seed alone, so two calls on identical inputs produce identical output.
pub proof fn lemma_make_games_deterministic(
    roster: Seq<InGamePlayer>,
    num_courts: int,
    prev: Seq<i64>,
    seed: u64,
    r1: RoundView,
    r2: RoundView,
)
    requires
        r1 == spec_make_games(roster, num_courts, prev, seed),
        r2 == spec_make_games(roster, num_courts, prev, seed),
    ensures
        r1 == r2,
{
}

/// Collects the ids of a group of players.
fn ids_of(ps: &Vec<InGamePlayer>) -> (r: Vec<i64>)
    ensures
        r@ == spec_ids_of(ps@),
{
    let mut out: Vec<i64> = Vec::new();
    let mut k: usize = 0;
    while k < ps.len()
        invariant
            k <= ps@.len(),
            out@ == spec_ids_of(ps@.take(k as int)),
        decreases ps@.len() - k,
    {
        out.push(ps[k].id);
        proof {
            assert(spec_ids_of(ps@.take(k + 1)) =~= spec_ids_of(ps@.take(k as int)).push(
                ps@[k as int].id,
            ));
        }
        k += 1;
    }
    proof {
        assert(ps@.take(ps@.len() as int) =~= ps@);
    }
    out
}

/// Increments the sit-out counter of every player of the group.
fn increment_all(v: Vec<InGamePlayer>) -> (r: Vec<InGamePlayer>)
    requires
        valid_roster(v@),
    ensures
        r@ == inc_all(v@),
{
    let ghost whole = v@;
    let mut rest = v;
    let mut out: Vec<InGamePlayer> = Vec::new();
    let ghost mut i: int = 0;
    while rest.len() > 0
        invariant
            0 <= i <= whole.len(),
            rest@ == whole.skip(i),
            out@ == inc_all(whole.take(i)),
            valid_roster(whole),
        decreases rest@.len(),
    {
        let mut p = rest.remove(0);
        proof {
            assert(p == whole[i]);
            assert(valid_player(p));
        }
        p.sit_off_count = p.sit_off_count + 1;
        out.push(p);
        proof {
            assert(p == inc_sit(whole[i]));
            assert(inc_all(whole.take(i + 1)) =~= inc_all(whole.take(i)).push(inc_sit(whole[i])));
            i = i + 1;
            assert(rest@ =~= whole.skip(i));
        }
    }
    proof {
        assert(whole.take(i) =~= whole);
    }
    out
}

/// Chooses who sits this round out. Returns the playing set and the
/// sitting-out set; only the latter's counters are incremented. When the
/// roster cannot fill every court, everyone sits out, in roster order.
pub fn select_sitting_out(
    roster: Vec<InGamePlayer>,
    num_courts: usize,
    previous_sit_out_ids: &Vec<i64>,
    seed: u64,
) -> (r: (Vec<InGamePlayer>, Vec<InGamePlayer>))
    requires
        valid_roster(roster@),
        num_courts * 4 <= usize::MAX,
    ensures
        r.0@ == spec_select(roster@, num_courts as int, previous_sit_out_ids@, seed).0,
        r.1@ == spec_select(roster@, num_courts as int, previous_sit_out_ids@, seed).1,
        valid_roster(r.0@),
        roster@.len() >= num_courts * 4 ==> r.0@.len() == num_courts * 4,
        roster@.len() < num_courts * 4 ==> r.0@.len() == 0,
{
    let total = num_courts * 4;
    if roster.len() < total {
        let sitting = increment_all(roster);
        return (Vec::new(), sitting);
    }
    let k = roster.len() - total;
    let ranked = rank_sort(RankKind::SitOut, roster, previous_sit_out_ids, seed);
    let ghost rankedseq = ranked@;
    let mut rest = ranked;
    let mut sitting: Vec<InGamePlayer> = Vec::new();
    let mut idx: usize = 0;
    while idx < k
        invariant
            idx <= k,
            k <= rankedseq.len(),
            rest@ == rankedseq.skip(idx as int),
            sitting@ == inc_all(rankedseq.take(idx as int)),
            valid_roster(rankedseq),
        decreases k - idx,
    {
        let mut p = rest.remove(0);
        proof {
            assert(p == rankedseq[idx as int]);
            assert(valid_player(p));
        }
        p.sit_off_count = p.sit_off_count + 1;
        sitting.push(p);
        proof {
            assert(p == inc_sit(rankedseq[idx as int]));
            assert(inc_all(rankedseq.take(idx + 1)) =~= inc_all(rankedseq.take(idx as int)).push(
                inc_sit(rankedseq[idx as int]),
            ));
            assert(rest@ =~= rankedseq.skip(idx + 1));
        }
        idx += 1;
    }
    proof {
        assert(valid_roster(rest@)) by {
            assert forall|t: int| 0 <= t < rest@.len() implies valid_player(#[trigger] rest@[t]) by {
                assert(rest@[t] == rankedseq[t + k]);
            }
        }
    }
    (rest, sitting)
}

/// Computes one round: selects the sitting-out players (counters
/// incremented, preferring players who did not sit out last round and
/// have sat out least), builds balanced four-player courts from the rest,
/// and numbers the courts from one. Only the ids of
/// `previous_sit_out` are used. For a fixed `seed` the result is a pure
/// function of the inputs.
pub fn make_games(
    players: Vec<InGamePlayer>,
    num_courts: usize,
    previous_sit_out: Option<Vec<InGamePlayer>>,
    seed: u64,
) -> (r: GamesRound)
    requires
        valid_roster(players@),
        num_courts * 4 <= usize::MAX,
    ensures
        r@ == spec_make_games(
            players@,
            num_courts as int,
            match previous_sit_out {
                Some(v) => spec_ids_of(v@),
                None => Seq::empty(),
            },
            seed,
        ),
        // conservation: undoing the sit-out increments, the games and the
        // sitting-out list hold exactly the input roster
        teams_multiset(games_players(r@.games)).add(dec_all(r@.sitting_out).to_multiset())
            == players@.to_multiset(),
        // completeness: a full roster fills every court with four players
        players@.len() >= num_courts * 4 ==> r@.games.len() == num_courts && r@.sitting_out.len()
            == players@.len() - num_courts * 4 && forall|c: int|
            0 <= c < num_courts ==> (#[trigger] r@.games[c]).court == c + 1
                && r@.games[c].players.len() == 4,
        // insufficiency: a short roster sits out whole, in order
        players@.len() < num_courts * 4 ==> r@.games.len() == 0 && r@.sitting_out == inc_all(
            players@,
        ),
        // fairness: in the sit-out order (pre-increment), no sitting
        // player ranks after any playing player
        players@.len() >= num_courts * 4 ==> forall|s: int, c: int, l: int|
            0 <= s < r@.sitting_out.len() && 0 <= c < r@.games.len() && 0 <= l
                < r@.games[c].players.len() ==> rank_key(
                RankKind::SitOut,
                dec_sit(#[trigger] r@.sitting_out[s]),
                match previous_sit_out {
                    Some(v) => spec_ids_of(v@),
                    None => Seq::empty(),
                },
                seed,
            ) <= rank_key(
                RankKind::SitOut,
                #[trigger] r@.games[c].players[l],
                match previous_sit_out {
                    Some(v) => spec_ids_of(v@),
                    None => Seq::empty(),
                },
                seed,
            ),
{
    let prev_ids: Vec<i64> = match &previous_sit_out {
        Some(v) => ids_of(v),
        None => Vec::new(),
    };
    let ghost prev = prev_ids@;
    let ghost roster = players@;
    let n = players.len();
    let total = num_courts * 4;
    let (playing, sitting_out) = select_sitting_out(players, num_courts, &prev_ids, seed);
    let ghost playingseq = playing@;
    let ghost rankedseq = spec_rank_sort(RankKind::SitOut, roster, prev, seed);
    let ghost k = roster.len() - total;
    proof {
        crate::ranking::lemma_rank_sort_multiset(RankKind::SitOut, roster, prev, seed);
        crate::ranking::lemma_rank_sort_sorted(RankKind::SitOut, roster, prev, seed);
        crate::ranking::lemma_multiset_validity(roster, rankedseq);
    }
    if n < total {
        let r = GamesRound { games: Vec::new(), sitting_out };
        proof {
            assert(r@.games =~= Seq::<GameView>::empty());
            assert(r@ =~= spec_make_games(roster, num_courts as int, prev, seed));
            // conservation: no games, and undoing the increments gives the roster
            assert(games_players(r@.games) =~= Seq::<Seq<InGamePlayer>>::empty());
            assert(teams_multiset(games_players(r@.games)) == Multiset::<InGamePlayer>::empty());
            assert(dec_all(r@.sitting_out) =~= roster) by {
                assert forall|w: int| 0 <= w < roster.len() implies dec_all(inc_all(roster))[w]
                    == roster[w] by {
                    lemma_dec_inc(roster[w]);
                }
            }
            assert forall|x: InGamePlayer|
                teams_multiset(games_players(r@.games)).add(
                    dec_all(r@.sitting_out).to_multiset(),
                ).count(x) == roster.to_multiset().count(x) by {}
            assert(teams_multiset(games_players(r@.games)).add(dec_all(r@.sitting_out).to_multiset())
                =~= roster.to_multiset());
        }
        return r;
    }
    let teams = create_balanced_teams(playing, num_courts, &prev_ids, seed);
    let ghost teamsvec = teams@;
    let ghost teamsv = teams_view(teams@);
    let mut rest = teams;
    let mut games: Vec<Game> = Vec::new();
    while rest.len() > 0
        invariant
            games@.len() + rest@.len() == num_courts,
            num_courts * 4 <= usize::MAX,
            teamsv.len() == num_courts,
            rest@ == teamsvec.skip(games@.len() as int),
            teamsv == teams_view(teamsvec),
            crate::games::games_seq_view(games@) == Seq::new(
                games@.len() as nat,
                |i: int| GameView { court: i + 1, players: teamsv[i] },
            ),
        decreases rest@.len(),
    {
        let t = rest.remove(0);
        let court = games.len() + 1;
        let ghost oldgames = games@;
        proof {
            assert(t@ == teamsvec[oldgames.len() as int]@);
            assert(t@ == teamsv[oldgames.len() as int]);
        }
        games.push(Game { court, players: t });
        proof {
            let target = Seq::new(
                games@.len() as nat,
                |i: int| GameView { court: i + 1, players: teamsv[i] },
            );
            assert forall|i: int| 0 <= i < games@.len() implies crate::games::games_seq_view(
                games@,
            )[i] == target[i] by {
                assert(target[i] == (GameView { court: i + 1, players: teamsv[i] }));
                if i < oldgames.len() {
                    assert(games@[i] == oldgames[i]);
                    assert(crate::games::games_seq_view(games@)[i] == oldgames[i]@);
                    assert(crate::games::games_seq_view(oldgames)[i] == oldgames[i]@);
                } else {
                    assert(games@[i] == (Game { court, players: t }));
                    assert(games@[i]@ == (GameView { court: court as int, players: t@ }));
                }
            }
            assert(crate::games::games_seq_view(games@) =~= target);
            assert(rest@ =~= teamsvec.skip(games@.len() as int));
        }
    }
    let r = GamesRound { games, sitting_out };
    proof {
        let rv = r@;
        assert(rv.games =~= Seq::new(
            teamsv.len(),
            |c: int| GameView { court: c + 1, players: teamsv[c] },
        ));
        assert(rv =~= spec_make_games(roster, num_courts as int, prev, seed));
        // conservation
        assert(games_players(rv.games) =~= teamsv);
        assert(rankedseq =~= rankedseq.take(k) + rankedseq.skip(k));
        vstd::seq_lib::lemma_multiset_commutative(rankedseq.take(k), rankedseq.skip(k));
        assert(dec_all(rv.sitting_out) =~= rankedseq.take(k)) by {
            assert forall|w: int| 0 <= w < k implies dec_all(inc_all(rankedseq.take(k)))[w]
                == rankedseq.take(k)[w] by {
                lemma_dec_inc(rankedseq[w]);
            }
        }
        assert forall|x: InGamePlayer|
            teams_multiset(games_players(rv.games)).add(dec_all(rv.sitting_out).to_multiset()).count(
                x,
            ) == roster.to_multiset().count(x) by {
            assert(teams_multiset(teamsv).count(x) == playingseq.to_multiset().count(x));
            assert((rankedseq.take(k) + rankedseq.skip(k)).to_multiset().count(x)
                == rankedseq.take(k).to_multiset().count(x) + rankedseq.skip(k).to_multiset().count(
                x,
            ));
        }
        assert(teams_multiset(games_players(rv.games)).add(dec_all(rv.sitting_out).to_multiset())
            =~= roster.to_multiset());
        // completeness details
        assert forall|c: int| 0 <= c < num_courts implies (#[trigger] rv.games[c]).court == c + 1
            && rv.games[c].players.len() == 4 by {
            assert(rv.games[c].players == teamsv[c]);
            assert(teamsv[c].len() == 4);
        }
        // fairness
        assert forall|s: int, c: int, l: int|
            0 <= s < rv.sitting_out.len() && 0 <= c < rv.games.len() && 0 <= l
                < rv.games[c].players.len() implies rank_key(
            RankKind::SitOut,
            dec_sit(#[trigger] rv.sitting_out[s]),
            prev,
            seed,
        ) <= rank_key(RankKind::SitOut, #[trigger] rv.games[c].players[l], prev, seed) by {
            assert(rv.sitting_out[s] == inc_sit(rankedseq[s]));
            lemma_dec_inc(rankedseq[s]);
            let p = rv.games[c].players[l];
            assert(rv.games[c].players == teamsv[c]);
            assert(teamsv[c].contains(p));
            assert(teamsv[c].to_multiset().count(p) > 0);
            lemma_teams_multiset_count_ge(teamsv, c, p);
            assert(playingseq.to_multiset().count(p) > 0);
            assert(playingseq.contains(p));
            let idx = choose|idx: int| 0 <= idx < playingseq.len() && playingseq[idx] == p;
            assert(playingseq[idx] == rankedseq[k + idx]);
            assert(sorted_by_rank(RankKind::SitOut, rankedseq, prev, seed));
            assert(rank_key(RankKind::SitOut, rankedseq[s], prev, seed) <= rank_key(
                RankKind::SitOut,
                rankedseq[k + idx],
                prev,
                seed,
            ));
        }
    }
    r
}

} // verus!
