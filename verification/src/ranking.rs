//! Fairness rankings.
//!
//! Both the sit-out selector and the draft order builder rank players by a
//! lexicographic key and then process them in ascending key order. A key
//! packs the criteria into one integer so that numeric order coincides
//! with the intended lexicographic order; the tie-break mixer occupies the
//! least significant position, so it decides only between players that are
//! equal on every other criterion.

use vstd::prelude::*;
use crate::games::{InGamePlayer, valid_player, valid_roster};
use crate::mixer::{mix, spec_mix};

verus! {

broadcast use {
    vstd::seq_lib::group_to_multiset_ensures,
    vstd::multiset::group_multiset_axioms,
};

/// Which fairness order a ranking pass uses.
#[derive(Clone, Copy)]
pub enum RankKind {
    /// Sit-out selection order: players who did not sit out last round
    /// first, then lowest cumulative sit-out count, then the mixer.
    SitOut,
    /// Draft order: players returning from a sit-out first, then highest
    /// skill level, then the mixer.
    Draft,
}

/// Weight of the leading criterion within a packed key.
pub const RANK_GROUP_PLACE: u128 = 0x1_0000_0000_0000_0000_0000_0000;

/// Weight of the middle criterion within a packed key.
pub const RANK_FIELD_PLACE: u128 = 0x1_0000_0000_0000_0000;

/// The ranking key of one player. Ascending key order realizes, for
/// `SitOut`, ascending (did-sit-out-last-round, sit-out count, mix), and
/// for `Draft`, ascending (did-not-sit-out-last-round, 50 - skill, mix) —
/// that is, descending skill within each group.
pub open spec fn rank_key(kind: RankKind, p: InGamePlayer, prev: Seq<i64>, seed: u64) -> int {
    match kind {
        RankKind::SitOut => {
            let group: int = if prev.contains(p.id) {
                1
            } else {
                0
            };
            group * (RANK_GROUP_PLACE as int) + p.sit_off_count * (RANK_FIELD_PLACE as int)
                + spec_mix(p.id, seed)
        },
        RankKind::Draft => {
            let group: int = if prev.contains(p.id) {
                0
            } else {
                1
            };
            group * (RANK_GROUP_PLACE as int) + (50 - p.skill_level) * (RANK_FIELD_PLACE as int)
                + spec_mix(p.id, seed)
        },
    }
}

/// The sequence is ascending under the ranking key.
pub open spec fn sorted_by_rank(kind: RankKind, s: Seq<InGamePlayer>, prev: Seq<i64>, seed: u64) -> bool {
    forall|i: int, j: int|
        0 <= i <= j < s.len() ==> rank_key(kind, #[trigger] s[i], prev, seed) <= rank_key(
            kind,
            #[trigger] s[j],
            prev,
            seed,
        )
}

/// Whether `id` occurs in the id list.
pub fn contains_id(ids: &Vec<i64>, id: i64) -> (r: bool)
    ensures
        r == ids@.contains(id),
{
    let mut k: usize = 0;
    while k < ids.len()
        invariant
            k <= ids@.len(),
            forall|j: int| 0 <= j < k ==> ids@[j] != id,
        decreases ids@.len() - k,
    {
        if ids[k] == id {
            return true;
        }
        k += 1;
    }
    false
}

/// Computes the ranking key of one player; exactly `rank_key`.
pub fn compute_rank_key(kind: RankKind, p: &InGamePlayer, prev: &Vec<i64>, seed: u64) -> (r: u128)
    requires
        valid_player(*p),
    ensures
        r as int == rank_key(kind, *p, prev@, seed),
{
    let in_prev = contains_id(prev, p.id);
    let m = mix(p.id, seed) as u128;
    match kind {
        RankKind::SitOut => {
            let group: u128 = if in_prev {
                1
            } else {
                0
            };
            group * RANK_GROUP_PLACE + (p.sit_off_count as u128) * RANK_FIELD_PLACE + m
        },
        RankKind::Draft => {
            let group: u128 = if in_prev {
                0
            } else {
                1
            };
            group * RANK_GROUP_PLACE + ((50 - p.skill_level) as u128) * RANK_FIELD_PLACE + m
        },
    }
}

/// What ascending sit-out key order means: players who did not sit out
/// last round come first, then lower cumulative sit-out counts, and the
/// mixer decides only between players equal on both.
pub proof fn lemma_sit_out_key_orders(p: InGamePlayer, q: InGamePlayer, prev: Seq<i64>, seed: u64)
    requires
        valid_player(p),
        valid_player(q),
    ensures
        rank_key(RankKind::SitOut, p, prev, seed) <= rank_key(RankKind::SitOut, q, prev, seed)
            <==> ({
            let gp: int = if prev.contains(p.id) {
                1
            } else {
                0
            };
            let gq: int = if prev.contains(q.id) {
                1
            } else {
                0
            };
            ||| gp < gq
            ||| (gp == gq && p.sit_off_count < q.sit_off_count)
            ||| (gp == gq && p.sit_off_count == q.sit_off_count && spec_mix(p.id, seed)
                <= spec_mix(q.id, seed))
        }),
{
    assert(spec_mix(p.id, seed) < RANK_FIELD_PLACE as int);
    assert(spec_mix(q.id, seed) < RANK_FIELD_PLACE as int);
}

/// What ascending draft key order means: players returning from a sit-out
/// come first, then higher skill levels, and the mixer decides only
/// between players equal on both.
pub proof fn lemma_draft_key_orders(p: InGamePlayer, q: InGamePlayer, prev: Seq<i64>, seed: u64)
    requires
        valid_player(p),
        valid_player(q),
    ensures
        rank_key(RankKind::Draft, p, prev, seed) <= rank_key(RankKind::Draft, q, prev, seed)
            <==> ({
            let gp: int = if prev.contains(p.id) {
                0
            } else {
                1
            };
            let gq: int = if prev.contains(q.id) {
                0
            } else {
                1
            };
            ||| gp < gq
            ||| (gp == gq && p.skill_level > q.skill_level)
            ||| (gp == gq && p.skill_level == q.skill_level && spec_mix(p.id, seed) <= spec_mix(
                q.id,
                seed,
            ))
        }),
{
    assert(spec_mix(p.id, seed) < RANK_FIELD_PLACE as int);
    assert(spec_mix(q.id, seed) < RANK_FIELD_PLACE as int);
}

/// Where a player lands when inserted into a ranked sequence: before the
/// first element with a strictly greater key, after all elements with an
/// equal or smaller key.
pub open spec fn insert_ranked(
    kind: RankKind,
    x: InGamePlayer,
    s: Seq<InGamePlayer>,
    prev: Seq<i64>,
    seed: u64,
) -> Seq<InGamePlayer>
    decreases s.len(),
{
    if s.len() == 0 {
        seq![x]
    } else if rank_key(kind, x, prev, seed) < rank_key(kind, s[0], prev, seed) {
        seq![x] + s
    } else {
        seq![s[0]] + insert_ranked(kind, x, s.drop_first(), prev, seed)
    }
}

/// The ranking of a whole sequence: each element inserted in turn into the
/// ranking of the elements before it. Equal keys keep their input order.
pub open spec fn spec_rank_sort(
    kind: RankKind,
    s: Seq<InGamePlayer>,
    prev: Seq<i64>,
    seed: u64,
) -> Seq<InGamePlayer>
    decreases s.len(),
{
    if s.len() == 0 {
        Seq::empty()
    } else {
        insert_ranked(kind, s.last(), spec_rank_sort(kind, s.drop_last(), prev, seed), prev, seed)
    }
}

/// Inserting adds exactly the inserted player to the contents.
pub proof fn lemma_insert_ranked_multiset(
    kind: RankKind,
    x: InGamePlayer,
    s: Seq<InGamePlayer>,
    prev: Seq<i64>,
    seed: u64,
)
    ensures
        insert_ranked(kind, x, s, prev, seed).to_multiset() == s.to_multiset().insert(x),
    decreases s.len(),
{
    broadcast use vstd::seq_lib::lemma_multiset_commutative;

    if s.len() == 0 {
        assert(seq![x] =~= s.push(x));
        assert(s.push(x).to_multiset() =~= s.to_multiset().insert(x));
    } else if rank_key(kind, x, prev, seed) < rank_key(kind, s[0], prev, seed) {
        assert(seq![x] + s =~= s.insert(0, x));
        assert(s.insert(0, x).to_multiset() =~= s.to_multiset().insert(x));
    } else {
        lemma_insert_ranked_multiset(kind, x, s.drop_first(), prev, seed);
        let t = insert_ranked(kind, x, s.drop_first(), prev, seed);
        assert((seq![s[0]] + t).to_multiset() =~= seq![s[0]].to_multiset().add(t.to_multiset()));
        assert(seq![s[0]] + s.drop_first() =~= s);
        assert((seq![s[0]] + s.drop_first()).to_multiset() =~= seq![s[0]].to_multiset().add(
            s.drop_first().to_multiset(),
        ));
        assert forall|v: InGamePlayer|
            seq![s[0]].to_multiset().add(t.to_multiset()).count(v) == s.to_multiset().insert(
                x,
            ).count(v) by {
            assert(t.to_multiset().count(v) == s.drop_first().to_multiset().insert(x).count(v));
            assert(s.to_multiset().count(v) == seq![s[0]].to_multiset().add(
                s.drop_first().to_multiset(),
            ).count(v));
        }
        assert(seq![s[0]].to_multiset().add(t.to_multiset()) =~= s.to_multiset().insert(x));
    }
}

/// Inserting lengthens the sequence by one.
pub proof fn lemma_insert_ranked_len(
    kind: RankKind,
    x: InGamePlayer,
    s: Seq<InGamePlayer>,
    prev: Seq<i64>,
    seed: u64,
)
    ensures
        insert_ranked(kind, x, s, prev, seed).len() == s.len() + 1,
    decreases s.len(),
{
    if s.len() > 0 && rank_key(kind, x, prev, seed) >= rank_key(kind, s[0], prev, seed) {
        lemma_insert_ranked_len(kind, x, s.drop_first(), prev, seed);
    }
}

/// Inserting into a ranked sequence keeps it ranked.
pub proof fn lemma_insert_ranked_sorted(
    kind: RankKind,
    x: InGamePlayer,
    s: Seq<InGamePlayer>,
    prev: Seq<i64>,
    seed: u64,
)
    requires
        sorted_by_rank(kind, s, prev, seed),
    ensures
        sorted_by_rank(kind, insert_ranked(kind, x, s, prev, seed), prev, seed),
    decreases s.len(),
{
    let r = insert_ranked(kind, x, s, prev, seed);
    if s.len() == 0 {
    } else if rank_key(kind, x, prev, seed) < rank_key(kind, s[0], prev, seed) {
        assert forall|i: int, j: int| 0 <= i <= j < r.len() implies rank_key(
            kind,
            r[i],
            prev,
            seed,
        ) <= rank_key(kind, r[j], prev, seed) by {
            if i > 0 {
                assert(r[i] == s[i - 1] && r[j] == s[j - 1]);
            } else if j > 0 {
                assert(r[j] == s[j - 1]);
                assert(rank_key(kind, s[0], prev, seed) <= rank_key(kind, s[j - 1], prev, seed));
            }
        }
    } else {
        assert(sorted_by_rank(kind, s.drop_first(), prev, seed)) by {
            assert forall|i: int, j: int| 0 <= i <= j < s.drop_first().len() implies rank_key(
                kind,
                s.drop_first()[i],
                prev,
                seed,
            ) <= rank_key(kind, s.drop_first()[j], prev, seed) by {
                assert(s.drop_first()[i] == s[i + 1] && s.drop_first()[j] == s[j + 1]);
            }
        }
        lemma_insert_ranked_sorted(kind, x, s.drop_first(), prev, seed);
        lemma_insert_ranked_len(kind, x, s.drop_first(), prev, seed);
        let t = insert_ranked(kind, x, s.drop_first(), prev, seed);
        // every element of t is x or an element of the tail, so s[0] is a
        // lower bound for all of t
        lemma_insert_ranked_multiset(kind, x, s.drop_first(), prev, seed);
        assert forall|j: int| 0 <= j < t.len() implies rank_key(kind, s[0], prev, seed) <= rank_key(
            kind,
            t[j],
            prev,
            seed,
        ) by {
            assert(t.contains(t[j]));
            assert(t.to_multiset().count(t[j]) > 0);
            if t[j] != x {
                assert(s.drop_first().to_multiset().count(t[j]) > 0);
                assert(s.drop_first().contains(t[j]));
                let k = choose|k: int| 0 <= k < s.drop_first().len() && s.drop_first()[k] == t[j];
                assert(s[k + 1] == t[j]);
                assert(rank_key(kind, s[0], prev, seed) <= rank_key(kind, s[k + 1], prev, seed));
            }
        }
        assert forall|i: int, j: int| 0 <= i <= j < r.len() implies rank_key(
            kind,
            r[i],
            prev,
            seed,
        ) <= rank_key(kind, r[j], prev, seed) by {
            if i > 0 {
                assert(r[i] == t[i - 1] && r[j] == t[j - 1]);
            } else if j > 0 {
                assert(r[j] == t[j - 1]);
            }
        }
    }
}

/// Ranking a sequence permutes it.
pub proof fn lemma_rank_sort_multiset(kind: RankKind, s: Seq<InGamePlayer>, prev: Seq<i64>, seed: u64)
    ensures
        spec_rank_sort(kind, s, prev, seed).to_multiset() == s.to_multiset(),
        spec_rank_sort(kind, s, prev, seed).len() == s.len(),
    decreases s.len(),
{
    if s.len() == 0 {
        assert(spec_rank_sort(kind, s, prev, seed).to_multiset() =~= s.to_multiset());
    } else {
        lemma_rank_sort_multiset(kind, s.drop_last(), prev, seed);
        lemma_insert_ranked_multiset(
            kind,
            s.last(),
            spec_rank_sort(kind, s.drop_last(), prev, seed),
            prev,
            seed,
        );
        assert(s.drop_last().push(s.last()) =~= s);
        assert(s.drop_last().push(s.last()).to_multiset() =~= s.drop_last().to_multiset().insert(
            s.last(),
        ));
        lemma_insert_ranked_len(
            kind,
            s.last(),
            spec_rank_sort(kind, s.drop_last(), prev, seed),
            prev,
            seed,
        );
    }
}

/// The ranking of any sequence is ranked.
pub proof fn lemma_rank_sort_sorted(kind: RankKind, s: Seq<InGamePlayer>, prev: Seq<i64>, seed: u64)
    ensures
        sorted_by_rank(kind, spec_rank_sort(kind, s, prev, seed), prev, seed),
    decreases s.len(),
{
    if s.len() > 0 {
        lemma_rank_sort_sorted(kind, s.drop_last(), prev, seed);
        lemma_insert_ranked_sorted(
            kind,
            s.last(),
            spec_rank_sort(kind, s.drop_last(), prev, seed),
            prev,
            seed,
        );
    }
}

/// Two sequences with the same contents are valid together.
pub proof fn lemma_multiset_validity(s1: Seq<InGamePlayer>, s2: Seq<InGamePlayer>)
    requires
        s1.to_multiset() == s2.to_multiset(),
        valid_roster(s1),
    ensures
        valid_roster(s2),
{
    assert forall|i: int| 0 <= i < s2.len() implies valid_player(#[trigger] s2[i]) by {
        assert(s2.contains(s2[i]));
        assert(s2.to_multiset().count(s2[i]) > 0);
        assert(s1.to_multiset().count(s2[i]) > 0);
        assert(s1.contains(s2[i]));
        let k = choose|k: int| 0 <= k < s1.len() && s1[k] == s2[i];
        assert(valid_player(s1[k]));
    }
}

/// Inserting at the scanned position realizes `insert_ranked`: the
/// position is past every key less than or equal to the new player's key
/// and, if interior, strictly before a greater key.
proof fn lemma_insert_ranked_at(
    kind: RankKind,
    x: InGamePlayer,
    s: Seq<InGamePlayer>,
    prev: Seq<i64>,
    seed: u64,
    j: int,
)
    requires
        0 <= j <= s.len(),
        forall|k: int| 0 <= k < j ==> rank_key(kind, #[trigger] s[k], prev, seed) <= rank_key(
            kind,
            x,
            prev,
            seed,
        ),
        j < s.len() ==> rank_key(kind, x, prev, seed) < rank_key(kind, s[j], prev, seed),
    ensures
        insert_ranked(kind, x, s, prev, seed) == s.insert(j, x),
    decreases j,
{
    if j == 0 {
        if s.len() == 0 {
            assert(insert_ranked(kind, x, s, prev, seed) =~= s.insert(0, x));
        } else {
            assert(seq![x] + s =~= s.insert(0, x));
        }
    } else {
        assert(rank_key(kind, s[0], prev, seed) <= rank_key(kind, x, prev, seed));
        assert forall|k: int| 0 <= k < j - 1 implies rank_key(
            kind,
            #[trigger] s.drop_first()[k],
            prev,
            seed,
        ) <= rank_key(kind, x, prev, seed) by {
            assert(s.drop_first()[k] == s[k + 1]);
        }
        if j - 1 < s.drop_first().len() {
            assert(s.drop_first()[j - 1] == s[j]);
        }
        lemma_insert_ranked_at(kind, x, s.drop_first(), prev, seed, j - 1);
        assert(seq![s[0]] + s.drop_first().insert(j - 1, x) =~= s.insert(j, x));
    }
}

/// Inserts one player into an already built ranking prefix.
fn rank_insert(
    kind: RankKind,
    v: Vec<InGamePlayer>,
    x: InGamePlayer,
    prev: &Vec<i64>,
    seed: u64,
) -> (r: Vec<InGamePlayer>)
    requires
        valid_roster(v@),
        valid_player(x),
    ensures
        r@ == insert_ranked(kind, x, v@, prev@, seed),
{
    let ghost orig = v@;
    let mut v = v;
    let key_x = compute_rank_key(kind, &x, prev, seed);
    let mut j: usize = 0;
    while j < v.len()
        invariant_except_break
            v@ == orig,
            valid_roster(v@),
            valid_player(x),
            j <= v@.len(),
            key_x as int == rank_key(kind, x, prev@, seed),
            forall|k: int| 0 <= k < j ==> rank_key(kind, #[trigger] v@[k], prev@, seed) <= rank_key(
                kind,
                x,
                prev@,
                seed,
            ),
        ensures
            v@ == orig,
            j <= v@.len(),
            forall|k: int| 0 <= k < j ==> rank_key(kind, #[trigger] v@[k], prev@, seed) <= rank_key(
                kind,
                x,
                prev@,
                seed,
            ),
            j < v@.len() ==> rank_key(kind, x, prev@, seed) < rank_key(kind, v@[j as int], prev@, seed),
        decreases v@.len() - j,
    {
        let kj = compute_rank_key(kind, &v[j], prev, seed);
        if key_x < kj {
            break ;
        }
        j += 1;
    }
    proof {
        lemma_insert_ranked_at(kind, x, v@, prev@, seed, j as int);
    }
    v.insert(j, x);
    v
}

/// Ranks a whole roster: the returned order is `spec_rank_sort` of the
/// input, a permutation of it, ascending under the ranking key.
pub fn rank_sort(
    kind: RankKind,
    players: Vec<InGamePlayer>,
    prev: &Vec<i64>,
    seed: u64,
) -> (r: Vec<InGamePlayer>)
    requires
        valid_roster(players@),
    ensures
        r@ == spec_rank_sort(kind, players@, prev@, seed),
        r@.to_multiset() == players@.to_multiset(),
        r@.len() == players@.len(),
        sorted_by_rank(kind, r@, prev@, seed),
        valid_roster(r@),
{
    let ghost whole = players@;
    let mut rest = players;
    let mut out: Vec<InGamePlayer> = Vec::new();
    let ghost mut i: int = 0;
    while rest.len() > 0
        invariant
            0 <= i <= whole.len(),
            rest@ =~= whole.skip(i),
            out@ == spec_rank_sort(kind, whole.take(i), prev@, seed),
            valid_roster(whole),
            valid_roster(out@),
        decreases rest@.len(),
    {
        let x = rest.remove(0);
        assert(x == whole[i]);
        assert(valid_player(x));
        proof {
            lemma_rank_sort_multiset(kind, whole.take(i), prev@, seed);
        }
        out = rank_insert(kind, out, x, prev, seed);
        proof {
            assert(whole.take(i + 1).drop_last() =~= whole.take(i));
            assert(whole.take(i + 1).last() == whole[i]);
            lemma_insert_ranked_multiset(
                kind,
                x,
                spec_rank_sort(kind, whole.take(i), prev@, seed),
                prev@,
                seed,
            );
            assert(whole.take(i).push(x) =~= whole.take(i + 1));
            assert(whole.take(i).push(x).to_multiset() =~= whole.take(i).to_multiset().insert(x));
            assert(valid_roster(whole.take(i + 1))) by {
                assert(forall|k: int|
                    0 <= k < whole.take(i + 1).len() ==> whole.take(i + 1)[k] == whole[k]);
            }
            lemma_rank_sort_multiset(kind, whole.take(i + 1), prev@, seed);
            lemma_multiset_validity(whole.take(i + 1), out@);
            assert(rest@ =~= whole.skip(i + 1));
            i = i + 1;
        }
    }
    proof {
        assert(whole.take(i) =~= whole);
        lemma_rank_sort_multiset(kind, whole, prev@, seed);
        lemma_rank_sort_sorted(kind, whole, prev@, seed);
    }
    out
}

} // verus!
