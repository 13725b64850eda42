//! Match-record parsing and rank reconstruction: one page of raw records is
//! turned into structured matches, ranking each match's participants by
//! point change, descending. Ties keep the upstream participant order (the
//! ranking is a stable sort).

use vstd::prelude::*;
use crate::UpstreamViolation;
use crate::game_type::{GameType, classify_spec, is_known_mode_id};

verus! {

/// One participant of a raw match record, as the upstream records endpoint
/// reports it.
#[derive(Debug)]
pub struct RawPlayerRecord {
    pub account_id: u64,
    pub nickname: String,
    pub score: i64,
    pub grading_score: i64,
}

impl Clone for RawPlayerRecord {
    /// A clone is the same value: every contract over the original carries
    /// over to the copy.
    fn clone(&self) -> (r: Self)
        ensures
            r == *self,
    {
        RawPlayerRecord {
            account_id: self.account_id,
            nickname: self.nickname.clone(),
            score: self.score,
            grading_score: self.grading_score,
        }
    }
}

/// One raw match record from the upstream records endpoint.
#[derive(Debug)]
pub struct RawMatchRecord {
    pub players: Vec<RawPlayerRecord>,
    pub start_time: u64,
    pub end_time: u64,
    pub mode_id: u64,
}

/// A participant as shown to callers: name and final in-match score. The
/// participant's id and point change are not retained here.
#[derive(Debug)]
pub struct PlayerResult {
    pub name: String,
    pub final_score: i64,
}

/// One completed match, reconstructed for the target player.
#[derive(Debug)]
pub struct GameMatch {
    pub player_rank: u64,
    pub start_time: u64,
    pub duration_minutes: u64,
    pub game_type: GameType,
    pub pt_change: i64,
    pub player_results: Vec<PlayerResult>,
}

/// Stable insertion, descending by point change: `x` goes directly before
/// the first participant whose point change is strictly below `x`'s, hence
/// after every earlier participant with an equal point change.
pub open spec fn insert_ranked(s: Seq<RawPlayerRecord>, x: RawPlayerRecord) -> Seq<RawPlayerRecord>
    decreases s.len(),
{
    if s.len() == 0 {
        seq![x]
    } else if s[0].grading_score >= x.grading_score {
        seq![s[0]] + insert_ranked(s.drop_first(), x)
    } else {
        seq![x] + s
    }
}

/// Ranking order of a match's participants: stable insertion sort,
/// descending by point change. Participants with equal point change keep
/// their upstream order.
pub open spec fn rank_sorted(s: Seq<RawPlayerRecord>) -> Seq<RawPlayerRecord>
    decreases s.len(),
{
    if s.len() == 0 {
        Seq::empty()
    } else {
        insert_ranked(rank_sorted(s.drop_last()), s.last())
    }
}

/// Point changes are non-increasing along the sequence.
pub open spec fn descending_by_grading(s: Seq<RawPlayerRecord>) -> bool {
    forall|i: int, j: int|
        0 <= i <= j < s.len() ==> s[i].grading_score >= s[j].grading_score
}

/// Some participant of `s` has this account id.
pub open spec fn has_player(s: Seq<RawPlayerRecord>, account_id: u64) -> bool {
    exists|i: int| 0 <= i < s.len() && s[i].account_id == account_id
}

/// 0-based position of the first participant of `s` with this account id.
pub open spec fn first_position(s: Seq<RawPlayerRecord>, account_id: u64) -> int
    decreases s.len(),
{
    if s.len() == 0 {
        0
    } else if s[0].account_id == account_id {
        0
    } else {
        1 + first_position(s.drop_first(), account_id)
    }
}

/// Whole minutes between the two upstream timestamps (floor division). A
/// record whose end precedes its start yields a zero duration: such a
/// duration is accepted, not treated as a violation.
pub open spec fn duration_minutes_spec(start_time: u64, end_time: u64) -> u64 {
    if end_time >= start_time {
        (((end_time - start_time) as u64) / 60u64) as u64
    } else {
        0
    }
}

/// What callers see of one participant.
pub open spec fn to_result(p: RawPlayerRecord) -> PlayerResult {
    (PlayerResult { name: p.nickname, final_score: p.score })
}

/// A raw record parses exactly when its own player list contains the target
/// player and its mode identifier is a known one.
pub open spec fn record_parseable(record: RawMatchRecord, target_player_id: u64) -> bool {
    has_player(record.players@, target_player_id) && is_known_mode_id(record.mode_id)
}

/// The violation reported for a record that does not parse. A record that
/// fails to list its own player is detected before its mode identifier is
/// examined.
pub open spec fn record_violation(record: RawMatchRecord, target_player_id: u64) -> UpstreamViolation {
    if !has_player(record.players@, target_player_id) {
        UpstreamViolation::TargetPlayerMissing
    } else {
        UpstreamViolation::UnknownModeId(record.mode_id)
    }
}

/// Full relation between a raw record and the match parsed from it: every
/// field of the match is pinned by the record and the target player.
pub open spec fn match_parses_to(record: RawMatchRecord, target_player_id: u64, m: GameMatch) -> bool {
    let ranked = rank_sorted(record.players@);
    &&& record_parseable(record, target_player_id)
    &&& m.player_rank == first_position(ranked, target_player_id) + 1
    &&& m.start_time == record.start_time
    &&& m.duration_minutes == duration_minutes_spec(record.start_time, record.end_time)
    &&& Some(m.game_type) == classify_spec(record.mode_id)
    &&& m.pt_change == ranked[first_position(ranked, target_player_id)].grading_score
    &&& m.player_results@ == ranked.map_values(|p: RawPlayerRecord| to_result(p))
}

/// Where the stable insertion places `x`: at the first position whose
/// point change is strictly below `x`'s.
pub open spec fn insert_point(s: Seq<RawPlayerRecord>, x: RawPlayerRecord) -> int
    decreases s.len(),
{
    if s.len() == 0 {
        0
    } else if s[0].grading_score >= x.grading_score {
        1 + insert_point(s.drop_first(), x)
    } else {
        0
    }
}

pub proof fn lemma_insert_ranked_shape(s: Seq<RawPlayerRecord>, x: RawPlayerRecord)
    ensures
        0 <= insert_point(s, x) <= s.len(),
        forall|k: int| 0 <= k < insert_point(s, x) ==> s[k].grading_score >= x.grading_score,
        insert_point(s, x) < s.len() ==> s[insert_point(s, x)].grading_score < x.grading_score,
        insert_ranked(s, x) == s.insert(insert_point(s, x), x),
    decreases s.len(),
{
    if s.len() == 0 {
        assert(insert_ranked(s, x) =~= s.insert(0, x));
    } else if s[0].grading_score >= x.grading_score {
        lemma_insert_ranked_shape(s.drop_first(), x);
        let j = insert_point(s.drop_first(), x);
        assert(insert_ranked(s, x) == seq![s[0]] + s.drop_first().insert(j, x));
        assert(seq![s[0]] + s.drop_first().insert(j, x) =~= s.insert(1 + j, x));
        assert forall|k: int| 0 <= k < insert_point(s, x) implies s[k].grading_score
            >= x.grading_score by {
            if k > 0 {
                assert(s.drop_first()[k - 1].grading_score >= x.grading_score);
            }
        }
    } else {
        assert(insert_ranked(s, x) == seq![x] + s);
        assert(seq![x] + s =~= s.insert(0, x));
    }
}

/// The stable insertion neither loses nor invents participants.
pub proof fn lemma_insert_ranked_multiset(s: Seq<RawPlayerRecord>, x: RawPlayerRecord)
    ensures
        insert_ranked(s, x).to_multiset() == s.to_multiset().insert(x),
{
    broadcast use vstd::seq_lib::group_to_multiset_ensures;

    lemma_insert_ranked_shape(s, x);
    let j = insert_point(s, x);
    let r = s.insert(j, x);
    s.insert_ensures(j, x);
    r.remove_ensures(j);
    assert(r.remove(j) =~= s);
    assert(r.to_multiset().remove(x) == s.to_multiset());
    assert(r.contains(x)) by {
        assert(r[j] == x);
    }
    assert(r.to_multiset().count(x) > 0);
    assert(r.to_multiset() =~= s.to_multiset().insert(x));
}

/// Ranking is a permutation of the participants: no participant is lost,
/// none is invented, none is duplicated beyond its own occurrences.
pub proof fn lemma_rank_sorted_multiset(s: Seq<RawPlayerRecord>)
    ensures
        rank_sorted(s).to_multiset() == s.to_multiset(),
    decreases s.len(),
{
    broadcast use vstd::seq_lib::group_to_multiset_ensures;

    if s.len() == 0 {
        assert(rank_sorted(s) =~= s);
    } else {
        lemma_rank_sorted_multiset(s.drop_last());
        lemma_insert_ranked_multiset(rank_sorted(s.drop_last()), s.last());
        assert(s =~= s.drop_last().push(s.last()));
        assert(s.drop_last().push(s.last()).to_multiset() == s.drop_last().to_multiset().insert(
            s.last(),
        ));
    }
}

/// Ranking orders participants by point change, descending.
pub proof fn lemma_rank_sorted_descending(s: Seq<RawPlayerRecord>)
    ensures
        descending_by_grading(rank_sorted(s)),
    decreases s.len(),
{
    if s.len() == 0 {
    } else {
        lemma_rank_sorted_descending(s.drop_last());
        let t = rank_sorted(s.drop_last());
        let x = s.last();
        lemma_insert_ranked_shape(t, x);
        let j = insert_point(t, x);
        t.insert_ensures(j, x);
        let r = t.insert(j, x);
        assert forall|a: int, b: int| 0 <= a <= b < r.len() implies r[a].grading_score
            >= r[b].grading_score by {
            let a0 = if a < j { a } else if a == j { a } else { a - 1 };
            let b0 = if b < j { b } else if b == j { b } else { b - 1 };
            if a < j {
                assert(r[a] == t[a]);
            }
            if a > j {
                assert(r[a] == t[a - 1]);
            }
            if b < j {
                assert(r[b] == t[b]);
            }
            if b > j {
                assert(r[b] == t[b - 1]);
            }
            if a == j && b > j {
                assert(t[j].grading_score < x.grading_score);
                assert(t[j].grading_score >= t[b - 1].grading_score);
            }
            if a < j && b == j {
                assert(t[a].grading_score >= x.grading_score);
            }
        }
    }
}

/// Ranking keeps exactly the account ids that were present.
pub proof fn lemma_rank_sorted_has(s: Seq<RawPlayerRecord>, account_id: u64)
    ensures
        has_player(rank_sorted(s), account_id) <==> has_player(s, account_id),
{
    broadcast use vstd::seq_lib::group_to_multiset_ensures;

    lemma_rank_sorted_multiset(s);
    let r = rank_sorted(s);
    if has_player(s, account_id) {
        let i = choose|i: int| 0 <= i < s.len() && s[i].account_id == account_id;
        assert(s.contains(s[i]));
        assert(s.to_multiset().count(s[i]) > 0);
        assert(r.to_multiset().count(s[i]) > 0);
        assert(r.contains(s[i]));
        let k = choose|k: int| 0 <= k < r.len() && r[k] == s[i];
        assert(r[k].account_id == account_id);
    }
    if has_player(r, account_id) {
        let i = choose|i: int| 0 <= i < r.len() && r[i].account_id == account_id;
        assert(r.contains(r[i]));
        assert(r.to_multiset().count(r[i]) > 0);
        assert(s.to_multiset().count(r[i]) > 0);
        assert(s.contains(r[i]));
        let k = choose|k: int| 0 <= k < s.len() && s[k] == r[i];
        assert(s[k].account_id == account_id);
    }
}

/// `first_position` is the unique position that has the account id with no
/// earlier occurrence.
pub proof fn lemma_first_position_unique(s: Seq<RawPlayerRecord>, account_id: u64, i: int)
    requires
        0 <= i < s.len(),
        s[i].account_id == account_id,
        forall|k: int| 0 <= k < i ==> s[k].account_id != account_id,
    ensures
        first_position(s, account_id) == i,
    decreases s.len(),
{
    if i == 0 {
    } else {
        assert(s[0].account_id != account_id);
        lemma_first_position_unique(s.drop_first(), account_id, i - 1);
    }
}

/// The ranked participant order, computed by stable insertion.
fn ranked_players(players: &Vec<RawPlayerRecord>) -> (r: Vec<RawPlayerRecord>)
    ensures
        r@ == rank_sorted(players@),
{
    let ghost orig: Seq<RawPlayerRecord> = players@;
    let mut out: Vec<RawPlayerRecord> = Vec::new();
    let mut i: usize = 0;
    while i < players.len()
        invariant
            i <= players.len(),
            orig == players@,
            out@ == rank_sorted(orig.take(i as int)),
        decreases players.len() - i,
    {
        let ghost k: int = i as int;
        let x = players[i].clone();
        i += 1;
        proof {
            assert(x == orig[k]);
        }
        let mut j: usize = 0;
        while j < out.len() && out[j].grading_score >= x.grading_score
            invariant
                0 <= j <= out.len(),
                forall|t: int| 0 <= t < j ==> out@[t].grading_score >= x.grading_score,
            decreases out.len() - j,
        {
            j += 1;
        }
        let ghost out_pre: Seq<RawPlayerRecord> = out@;
        out.insert(j, x);
        proof {
            lemma_insert_ranked_shape(out_pre, x);
            assert(insert_point(out_pre, x) == j) by {
                let jj = insert_point(out_pre, x);
                if jj < j {
                    assert(out_pre[jj].grading_score >= x.grading_score);
                }
                if jj > j {
                    assert(out_pre[j as int].grading_score >= x.grading_score);
                }
            }
            assert(out@ == insert_ranked(out_pre, x));
            assert(orig.take(k + 1).drop_last() =~= orig.take(k));
            assert(orig.take(k + 1).last() == orig[k]);
            assert(out@ == rank_sorted(orig.take(k + 1)));
        }
    }
    proof {
        assert(orig.take(orig.len() as int) =~= orig);
    }
    out
}

/// Parse one raw match record for the target player: reconstruct the
/// ranking, the target's rank and point change, the duration and the game
/// type. Fails exactly on an upstream contract violation: the target player
/// absent from the record's own participant list, or an unknown mode
/// identifier.
pub fn parse_match(record: &RawMatchRecord, target_player_id: u64) -> (r: Result<
    GameMatch,
    UpstreamViolation,
>)
    ensures
        r is Ok <==> record_parseable(*record, target_player_id),
        r is Ok ==> match_parses_to(*record, target_player_id, r->Ok_0),
        r is Err ==> r->Err_0 == record_violation(*record, target_player_id),
{
    let start_time = record.start_time;
    let end_time = record.end_time;
    let mode_id = record.mode_id;
    let ghost players_seq: Seq<RawPlayerRecord> = record.players@;
    let ranked = ranked_players(&record.players);
    let ghost ranked_seq: Seq<RawPlayerRecord> = ranked@;

    let n = ranked.len();
    let mut pos: usize = 0;
    while pos < n && ranked[pos].account_id != target_player_id
        invariant
            0 <= pos <= n,
            n == ranked.len(),
            ranked@ == ranked_seq,
            forall|k: int| 0 <= k < pos ==> ranked_seq[k].account_id != target_player_id,
        decreases n - pos,
    {
        pos += 1;
    }
    if pos == n {
        proof {
            lemma_rank_sorted_has(players_seq, target_player_id);
        }
        return Err(UpstreamViolation::TargetPlayerMissing);
    }
    proof {
        lemma_rank_sorted_has(players_seq, target_player_id);
        lemma_first_position_unique(ranked_seq, target_player_id, pos as int);
    }

    let game_type = match GameType::classify(mode_id) {
        Ok(gt) => gt,
        Err(violation) => {
            return Err(violation);
        },
    };

    let duration_minutes: u64 = if end_time >= start_time {
        (end_time - start_time) / 60
    } else {
        0
    };
    let pt_change = ranked[pos].grading_score;
    let player_rank = (pos as u64) + 1;

    let mut rest = ranked;
    let mut player_results: Vec<PlayerResult> = Vec::new();
    while rest.len() > 0
        invariant
            rest@ =~= ranked_seq.skip(ranked_seq.len() - rest.len()),
            rest.len() <= ranked_seq.len(),
            player_results@ == ranked_seq.take(ranked_seq.len() - rest.len()).map_values(
                |p: RawPlayerRecord| to_result(p),
            ),
        decreases rest.len(),
    {
        let ghost k: int = ranked_seq.len() - rest.len();
        let p = rest.remove(0);
        proof {
            assert(p == ranked_seq[k]);
            assert(rest@ =~= ranked_seq.skip(k + 1));
        }
        player_results.push(PlayerResult { name: p.nickname, final_score: p.score });
        proof {
            assert(player_results@ =~= ranked_seq.take(k + 1).map_values(
                |p: RawPlayerRecord| to_result(p),
            ));
        }
    }
    proof {
        assert(ranked_seq.take(ranked_seq.len() as int) =~= ranked_seq);
    }

    Ok(GameMatch { player_rank, start_time, duration_minutes, game_type, pt_change, player_results })
}

/// Parse one page of raw match records, preserving their order. The whole
/// page fails on the first record that breaks the upstream contract: no
/// record is silently skipped.
#[verifier::loop_isolation(false)]
pub fn parse_match_data(page: &[RawMatchRecord], target_player_id: u64) -> (r: Result<
    Vec<GameMatch>,
    UpstreamViolation,
>)
    ensures
        r is Ok <==> (forall|i: int|
            0 <= i < page@.len() ==> #[trigger] record_parseable(page@[i], target_player_id)),
        r is Ok ==> r->Ok_0@.len() == page@.len(),
        r is Ok ==> (forall|i: int|
            0 <= i < page@.len() ==> match_parses_to(
                page@[i],
                target_player_id,
                #[trigger] r->Ok_0@[i],
            )),
        r is Err ==> (exists|i: int|
            0 <= i < page@.len() && !(#[trigger] record_parseable(page@[i], target_player_id)) && (
            forall|k: int| 0 <= k < i ==> record_parseable(page@[k], target_player_id))
                && r->Err_0 == record_violation(page@[i], target_player_id)),
{
    let ghost orig: Seq<RawMatchRecord> = page@;
    let mut matches: Vec<GameMatch> = Vec::new();
    let mut i: usize = 0;
    while i < page.len()
        invariant
            i <= page.len(),
            matches@.len() == i,
            forall|t: int|
                0 <= t < i as int ==> match_parses_to(
                    orig[t],
                    target_player_id,
                    #[trigger] matches@[t],
                ),
            forall|t: int|
                0 <= t < i as int ==> #[trigger] record_parseable(orig[t], target_player_id),
        decreases page.len() - i,
    {
        let ghost k: int = i as int;
        match parse_match(&page[i], target_player_id) {
            Ok(m) => {
                matches.push(m);
                i += 1;
            },
            Err(violation) => {
                proof {
                    assert(!record_parseable(orig[k], target_player_id));
                    assert(violation == record_violation(orig[k], target_player_id));
                    assert(forall|t: int|
                        0 <= t < k ==> #[trigger] record_parseable(orig[t], target_player_id));
                }
                return Err(violation);
            },
        }
    }
    Ok(matches)
}

/// Rank validity: the target player's rank is in `[1, N]` for a match of
/// `N` participants, the parsed match keeps all `N` participants, and the
/// ranking order is a permutation of the record's participant list — each
/// rank from 1 to `N` is held by exactly one position of that order.
pub proof fn lemma_rank_validity(record: RawMatchRecord, target_player_id: u64, m: GameMatch)
    requires
        match_parses_to(record, target_player_id, m),
    ensures
        1 <= m.player_rank <= m.player_results@.len(),
        m.player_results@.len() == record.players@.len(),
        rank_sorted(record.players@).to_multiset() == record.players@.to_multiset(),
{
    broadcast use vstd::seq_lib::group_to_multiset_ensures;

    let ranked = rank_sorted(record.players@);
    lemma_rank_sorted_multiset(record.players@);
    assert(ranked.len() == ranked.to_multiset().len());
    assert(record.players@.len() == record.players@.to_multiset().len());
    assert(ranked.len() == record.players@.len());
    assert(m.player_results@.len() == ranked.len());
    lemma_rank_sorted_has(record.players@, target_player_id);
    lemma_first_position_in_range(ranked, target_player_id);
}

/// When a sequence has the account id at all, its first position is a valid
/// index that carries the account id.
pub proof fn lemma_first_position_in_range(s: Seq<RawPlayerRecord>, account_id: u64)
    requires
        has_player(s, account_id),
    ensures
        0 <= first_position(s, account_id) < s.len(),
        s[first_position(s, account_id)].account_id == account_id,
        forall|k: int| 0 <= k < first_position(s, account_id) ==> s[k].account_id != account_id,
    decreases s.len(),
{
    if s.len() == 0 {
    } else if s[0].account_id == account_id {
    } else {
        assert(has_player(s.drop_first(), account_id)) by {
            let i = choose|i: int| 0 <= i < s.len() && s[i].account_id == account_id;
            assert(s.drop_first()[i - 1].account_id == account_id);
        }
        lemma_first_position_in_range(s.drop_first(), account_id);
        assert forall|k: int| 0 <= k < first_position(s, account_id) implies s[k].account_id
            != account_id by {
            if k > 0 {
                assert(s.drop_first()[k - 1].account_id != account_id);
            }
        }
    }
}

/// Ordering invariant: the participant list attached to a parsed match is
/// the ranking order — the record's participants sorted by point change,
/// descending; adjacent positions of that order never increase in point
/// change.
pub proof fn lemma_ordering_invariant(record: RawMatchRecord, target_player_id: u64, m: GameMatch)
    requires
        match_parses_to(record, target_player_id, m),
    ensures
        descending_by_grading(rank_sorted(record.players@)),
        m.player_results@ == rank_sorted(record.players@).map_values(
            |p: RawPlayerRecord| to_result(p),
        ),
        forall|i: int|
            0 <= i && i + 1 < rank_sorted(record.players@).len() ==> (#[trigger] rank_sorted(
                record.players@,
            )[i]).grading_score >= rank_sorted(record.players@)[i + 1].grading_score,
{
    lemma_rank_sorted_descending(record.players@);
    let ranked = rank_sorted(record.players@);
    assert forall|i: int| 0 <= i && i + 1 < ranked.len() implies (#[trigger] ranked[i]).grading_score
        >= ranked[i + 1].grading_score by {
        assert(descending_by_grading(ranked));
        assert(ranked[i].grading_score >= ranked[i + 1].grading_score);
    }
}

} // verus!
