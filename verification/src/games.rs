//! Data model of a round: players, games, and the round result, together
//! with the ghost notions the engine's contracts are stated over (player
//! validity, skill sums, and the multiset of players held by a set of
//! courts).

use vstd::prelude::*;
use vstd::multiset::Multiset;

verus! {

broadcast use {
    vstd::seq_lib::group_to_multiset_ensures,
    vstd::multiset::group_multiset_axioms,
};

/// A player as the engine sees it for one round. `sit_off_count` is
/// round-carried state owned by the caller: the engine reads it and
/// increments it only for players it selects to sit out.
pub struct InGamePlayer {
    pub id: i64,
    pub first_name: String,
    pub last_name: String,
    pub skill_level: i32,
    pub sit_off_count: i32,
}

/// One court for one round: a 1-based court number, unique within the
/// round, and the players assigned to it (exactly four in every round the
/// engine produces).
pub struct Game {
    pub court: usize,
    pub players: Vec<InGamePlayer>,
}

/// The result of one round: games in ascending court order, and the
/// players sitting this round out with their counters already incremented.
pub struct GamesRound {
    pub games: Vec<Game>,
    pub sitting_out: Vec<InGamePlayer>,
}

/// Mathematical image of a `Game`.
#[verifier::ext_equal]
pub struct GameView {
    pub court: int,
    pub players: Seq<InGamePlayer>,
}

/// Mathematical image of a `GamesRound`.
#[verifier::ext_equal]
pub struct RoundView {
    pub games: Seq<GameView>,
    pub sitting_out: Seq<InGamePlayer>,
}

impl View for Game {
    type V = GameView;

    open spec fn view(&self) -> GameView {
        GameView { court: self.court as int, players: self.players@ }
    }
}

/// The ghost image of a list of games.
pub open spec fn games_seq_view(gs: Seq<Game>) -> Seq<GameView> {
    gs.map_values(|g: Game| g@)
}

impl View for GamesRound {
    type V = RoundView;

    open spec fn view(&self) -> RoundView {
        RoundView { games: games_seq_view(self.games@), sitting_out: self.sitting_out@ }
    }
}

/// A well-formed player record: skill level within the documented range
/// and a sit-out counter that is non-negative and still incrementable.
pub open spec fn valid_player(p: InGamePlayer) -> bool {
    &&& 1 <= p.skill_level <= 50
    &&& 0 <= p.sit_off_count < i32::MAX
}

/// Every record of the sequence is well formed.
pub open spec fn valid_roster(s: Seq<InGamePlayer>) -> bool {
    forall|i: int| 0 <= i < s.len() ==> valid_player(#[trigger] s[i])
}

/// The same player record with its sit-out counter one higher.
pub open spec fn inc_sit(p: InGamePlayer) -> InGamePlayer {
    InGamePlayer { sit_off_count: (p.sit_off_count + 1) as i32, ..p }
}

/// The same player record with its sit-out counter one lower.
pub open spec fn dec_sit(p: InGamePlayer) -> InGamePlayer {
    InGamePlayer { sit_off_count: (p.sit_off_count - 1) as i32, ..p }
}

/// Incrementing then decrementing the counter of a valid player is the
/// identity.
pub proof fn lemma_dec_inc(p: InGamePlayer)
    requires
        p.sit_off_count < i32::MAX,
    ensures
        dec_sit(inc_sit(p)) == p,
{
}

/// Total skill of a group of players.
pub open spec fn skill_sum(s: Seq<InGamePlayer>) -> int
    decreases s.len(),
{
    if s.len() == 0 {
        0
    } else {
        skill_sum(s.drop_last()) + s.last().skill_level
    }
}

/// One more element of the prefix adds that element's skill to the sum.
pub proof fn lemma_skill_sum_take_step(s: Seq<InGamePlayer>, i: int)
    requires
        0 <= i < s.len(),
    ensures
        skill_sum(s.take(i + 1)) == skill_sum(s.take(i)) + s[i].skill_level,
{
    assert(s.take(i + 1).drop_last() =~= s.take(i));
}

/// Appending a player adds its skill to the sum.
pub proof fn lemma_skill_sum_push(s: Seq<InGamePlayer>, p: InGamePlayer)
    ensures
        skill_sum(s.push(p)) == skill_sum(s) + p.skill_level,
{
    assert(s.push(p).drop_last() =~= s);
}

/// Removing a player subtracts its skill from the sum.
pub proof fn lemma_skill_sum_remove(s: Seq<InGamePlayer>, i: int)
    requires
        0 <= i < s.len(),
    ensures
        skill_sum(s.remove(i)) == skill_sum(s) - s[i].skill_level,
    decreases s.len(),
{
    if i == s.len() - 1 {
        assert(s.remove(i) =~= s.drop_last());
    } else {
        assert(s.remove(i).drop_last() =~= s.drop_last().remove(i));
        assert(s.remove(i).last() == s.last());
        lemma_skill_sum_remove(s.drop_last(), i);
    }
}

/// A group of valid players has a skill sum between its size and fifty
/// times its size.
pub proof fn lemma_skill_sum_bounds(s: Seq<InGamePlayer>)
    requires
        forall|i: int| 0 <= i < s.len() ==> valid_player(#[trigger] s[i]),
    ensures
        s.len() <= skill_sum(s) <= 50 * s.len(),
    decreases s.len(),
{
    if s.len() > 0 {
        lemma_skill_sum_bounds(s.drop_last());
    }
}

/// All players held by all courts of a round, as a multiset.
pub open spec fn teams_multiset(ts: Seq<Seq<InGamePlayer>>) -> Multiset<InGamePlayer>
    decreases ts.len(),
{
    if ts.len() == 0 {
        Multiset::empty()
    } else {
        ts.first().to_multiset().add(teams_multiset(ts.drop_first()))
    }
}

/// Replacing one court changes the combined multiset by exactly the
/// difference between the new and old court contents.
pub proof fn lemma_teams_multiset_update(ts: Seq<Seq<InGamePlayer>>, i: int, v: Seq<InGamePlayer>)
    requires
        0 <= i < ts.len(),
    ensures
        teams_multiset(ts.update(i, v)).add(ts[i].to_multiset()) == teams_multiset(ts).add(
            v.to_multiset(),
        ),
    decreases ts.len(),
{
    if i == 0 {
        assert(ts.update(0, v).drop_first() =~= ts.drop_first());
        assert(ts.update(0, v).first() == v);
        let r = teams_multiset(ts.drop_first());
        assert(teams_multiset(ts.update(0, v)) == v.to_multiset().add(r));
        assert(teams_multiset(ts) == ts[0].to_multiset().add(r));
        assert(v.to_multiset().add(r).add(ts[0].to_multiset()) =~= ts[0].to_multiset().add(r).add(
            v.to_multiset(),
        ));
    } else {
        assert(ts.update(i, v).drop_first() =~= ts.drop_first().update(i - 1, v));
        assert(ts.update(i, v).first() == ts.first());
        lemma_teams_multiset_update(ts.drop_first(), i - 1, v);
        let f = ts.first().to_multiset();
        let u = teams_multiset(ts.drop_first().update(i - 1, v));
        let r = teams_multiset(ts.drop_first());
        assert(ts.drop_first()[i - 1] == ts[i]);
        assert(teams_multiset(ts.update(i, v)) == f.add(u));
        assert(teams_multiset(ts) == f.add(r));
        assert(u.add(ts[i].to_multiset()) == r.add(v.to_multiset()));
        assert forall|x: InGamePlayer|
            f.add(u).add(ts[i].to_multiset()).count(x) == f.add(r).add(v.to_multiset()).count(
                x,
            ) by {
            assert(u.add(ts[i].to_multiset()).count(x) == r.add(v.to_multiset()).count(x));
        }
        assert(f.add(u).add(ts[i].to_multiset()) =~= f.add(r).add(v.to_multiset()));
    }
}

/// A sequence of empty courts holds no players.
pub proof fn lemma_teams_multiset_empty(n: nat)
    ensures
        teams_multiset(Seq::new(n, |i: int| Seq::<InGamePlayer>::empty())) == Multiset::<
            InGamePlayer,
        >::empty(),
    decreases n,
{
    let ts = Seq::new(n, |i: int| Seq::<InGamePlayer>::empty());
    if n > 0 {
        assert(ts.drop_first() =~= Seq::new((n - 1) as nat, |i: int| Seq::<InGamePlayer>::empty()));
        lemma_teams_multiset_empty((n - 1) as nat);
        assert(ts.first().to_multiset() =~= Multiset::<InGamePlayer>::empty());
        assert(teams_multiset(ts) =~= Multiset::<InGamePlayer>::empty());
    }
}

/// The combined multiset counts each court's players at least as often as
/// the court itself does.
pub proof fn lemma_teams_multiset_count_ge(ts: Seq<Seq<InGamePlayer>>, t: int, x: InGamePlayer)
    requires
        0 <= t < ts.len(),
    ensures
        teams_multiset(ts).count(x) >= ts[t].to_multiset().count(x),
    decreases ts.len(),
{
    if t > 0 {
        lemma_teams_multiset_count_ge(ts.drop_first(), t - 1, x);
    }
}

} // verus!
