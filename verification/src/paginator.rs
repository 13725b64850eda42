//! The pagination protocol: walk the upstream records endpoint backwards in
//! time with a moving cursor until it signals exhaustion, concatenating the
//! parsed pages in non-increasing start-time order.
//!
//! The upstream transport is not part of this module: the caller fetches one
//! raw page at a time and hands it to [`Paginator::feed_page`], which parses
//! it, decides whether the walk is over, and advances the cursor. A finite,
//! locally held history ([`SimulatedUpstream`]) stands in for the remote
//! endpoint where the whole walk is driven in one call ([`fetch_all`]).

use vstd::prelude::*;
use crate::{FLOOR_TIMESTAMP, PAGE_LIMIT, UpstreamViolation};
use crate::parser::{
    GameMatch, RawMatchRecord, match_parses_to, parse_match_data, record_parseable,
    record_violation,
};

verus! {

/// The cursor requested after a page whose oldest record starts at `t`:
/// one time unit earlier, so the next page strictly precedes every record
/// already retrieved.
pub open spec fn next_cursor(t: u64) -> u64 {
    if t == 0 {
        0
    } else {
        (t - 1) as u64
    }
}

/// Start times never increase along the sequence.
pub open spec fn descending_starts(s: Seq<RawMatchRecord>) -> bool {
    forall|i: int, j: int|
        0 <= i <= j < s.len() ==> (#[trigger] s[i]).start_time >= (#[trigger] s[j]).start_time
}

/// No run of equal start times is as long as a whole page. A run filling
/// an entire page can never be completed by a cursor that moves by start
/// time — every request for it returns the same page — so the walk would
/// stop short on such a history.
pub open spec fn bounded_tie_runs(s: Seq<RawMatchRecord>) -> bool {
    forall|i: int, j: int|
        0 <= i <= j < s.len() && (#[trigger] s[i]).start_time == (#[trigger] s[j]).start_time
            ==> j - i + 1 < (PAGE_LIMIT as int)
}

/// The cursor lies strictly before the start of every match retrieved so
/// far: the next page can never fetch one of them again.
pub open spec fn cursor_below_history(p: Paginator) -> bool {
    forall|i: int|
        0 <= i < p.matches@.len() ==> p.cursor < (#[trigger] p.matches@[i]).start_time
}

/// Start of the maximal trailing run of records sharing the last record's
/// start time.
#[verifier::opaque]
pub open spec fn tie_suffix_start(s: Seq<RawMatchRecord>) -> int
    decreases s.len(),
{
    if s.len() <= 1 {
        0
    } else if s[s.len() - 2].start_time == s[s.len() - 1].start_time {
        tie_suffix_start(s.drop_last())
    } else {
        s.len() - 1
    }
}

/// What a raw page contributes to the history. A page shorter than the
/// request limit is the end of the data and is kept whole. A full page may
/// have been cut inside a run of equal start times, so its trailing run is
/// dropped here and fetched again, complete, by the next request — whose
/// cursor bounds that run's start time inclusively. No record is skipped
/// and none is retrieved twice.
#[verifier::opaque]
pub open spec fn kept_page(s: Seq<RawMatchRecord>) -> Seq<RawMatchRecord> {
    if s.len() < (PAGE_LIMIT as int) {
        s
    } else {
        s.take(tie_suffix_start(s))
    }
}

pub proof fn lemma_tie_suffix_start_props(s: Seq<RawMatchRecord>)
    requires
        s.len() > 0,
    ensures
        0 <= tie_suffix_start(s) < s.len(),
        forall|k: int|
            tie_suffix_start(s) <= k < s.len() ==> (#[trigger] s[k]).start_time
                == s.last().start_time,
        tie_suffix_start(s) > 0 ==> s[tie_suffix_start(s) - 1].start_time != s.last().start_time,
    decreases s.len(),
{
    reveal(tie_suffix_start);
    if s.len() == 1 {
    } else if s[s.len() - 2].start_time == s[s.len() - 1].start_time {
        lemma_tie_suffix_start_props(s.drop_last());
        assert(s.drop_last().last() == s[s.len() - 2]);
        assert forall|k: int| tie_suffix_start(s) <= k < s.len() implies (
        #[trigger] s[k]).start_time == s.last().start_time by {
            if k < s.len() - 1 {
                assert(s.drop_last()[k].start_time == s.drop_last().last().start_time);
            }
        }
        if tie_suffix_start(s) > 0 {
            assert(s.drop_last()[tie_suffix_start(s) - 1].start_time != s.drop_last()
                .last()
                .start_time);
        }
    } else {
    }
}

pub proof fn lemma_tie_suffix_start_unique(s: Seq<RawMatchRecord>, j: int)
    requires
        s.len() > 0,
        0 <= j < s.len(),
        forall|k: int| j <= k < s.len() ==> (#[trigger] s[k]).start_time == s.last().start_time,
        j > 0 ==> s[j - 1].start_time != s.last().start_time,
    ensures
        tie_suffix_start(s) == j,
{
    lemma_tie_suffix_start_props(s);
    let t = tie_suffix_start(s);
    if t < j {
        assert(s[j - 1].start_time == s.last().start_time);
    }
    if t > j {
        assert(s[t - 1].start_time == s.last().start_time);
    }
}

/// State of one history walk: the cursor for the next page request, the
/// matches accumulated so far in fetch order, and whether the upstream has
/// signalled exhaustion.
pub struct Paginator {
    pub cursor: u64,
    pub matches: Vec<GameMatch>,
    pub finished: bool,
}

impl Paginator {
    /// Start a walk at the given wall-clock timestamp (upstream unit).
    pub fn new(now_timestamp: u64) -> (p: Paginator)
        ensures
            p.cursor == now_timestamp,
            p.matches@ == Seq::<GameMatch>::empty(),
            !p.finished,
    {
        Paginator { cursor: now_timestamp, matches: Vec::new(), finished: false }
    }

    /// Whether the upstream has signalled the end of the history.
    pub fn is_finished(&self) -> (r: bool)
        ensures
            r == self.finished,
    {
        self.finished
    }

    /// Upper time bound for the next page request.
    pub fn current_cursor(&self) -> (r: u64)
        ensures
            r == self.cursor,
    {
        self.cursor
    }

    /// The accumulated history, in fetch order.
    pub fn into_matches(self) -> (r: Vec<GameMatch>)
        ensures
            r@ == self.matches@,
    {
        self.matches
    }

    /// Feed the raw page fetched for the current cursor. The page's kept
    /// part (see [`kept_page`]) is parsed in order and appended to the
    /// accumulated history. A page shorter than the request limit is the
    /// end of the data and ends the walk, as does a page that keeps
    /// nothing; otherwise the cursor moves to one time unit before the
    /// oldest kept record, which bounds the trimmed trailing run
    /// inclusively: the next page fetches that run complete, and nothing
    /// already retrieved. A parse failure (an upstream contract violation)
    /// aborts the whole walk and leaves the state unchanged.
    pub fn feed_page(&mut self, page: &[RawMatchRecord], target_player_id: u64) -> (r: Result<
        (),
        UpstreamViolation,
    >)
        requires
            !old(self).finished,
        ensures
            ({
                let kept = kept_page(page@);
                &&& r is Ok <==> (forall|i: int|
                    0 <= i < kept.len() ==> #[trigger] record_parseable(kept[i], target_player_id))
                &&& r is Err ==> *final(self) == *old(self)
                &&& r is Err ==> (exists|i: int|
                    0 <= i < kept.len() && !(#[trigger] record_parseable(
                        kept[i],
                        target_player_id,
                    )) && (forall|k: int|
                        0 <= k < i ==> record_parseable(kept[k], target_player_id)) && r->Err_0
                        == record_violation(kept[i], target_player_id))
                &&& r is Ok ==> final(self).matches@.len() == old(self).matches@.len()
                    + kept.len()
                &&& r is Ok ==> (forall|i: int|
                    0 <= i < old(self).matches@.len() ==> #[trigger] final(self).matches@[i]
                        == old(self).matches@[i])
                &&& r is Ok ==> (forall|i: int|
                    0 <= i < kept.len() ==> match_parses_to(
                        kept[i],
                        target_player_id,
                        #[trigger] final(self).matches@[old(self).matches@.len() + i],
                    ))
                &&& r is Ok && kept.len() == 0 ==> final(self).finished && final(self).cursor
                    == old(self).cursor && final(self).matches@ == old(self).matches@
                &&& r is Ok && kept.len() > 0 ==> final(self).cursor == next_cursor(
                    kept.last().start_time,
                )
                &&& r is Ok && kept.len() > 0 ==> (final(self).finished <==> page@.len() < (
                PAGE_LIMIT as int))
                &&& (r is Ok && kept.len() > 0 && kept.last().start_time > 0 && descending_starts(
                    page@,
                ) && (forall|i: int|
                    0 <= i < page@.len() ==> (#[trigger] page@[i]).start_time <= old(self).cursor)
                    && cursor_below_history(*old(self))) ==> cursor_below_history(*final(self))
                    && final(self).cursor < old(self).cursor
            }),
    {
        proof {
            reveal(kept_page);
        }
        let raw_len = page.len();
        if raw_len == 0 {
            self.finished = true;
            return Ok(());
        }
        let kept_len: usize;
        if raw_len < PAGE_LIMIT {
            kept_len = raw_len;
        } else {
            let last_start = page[raw_len - 1].start_time;
            let mut k: usize = raw_len - 1;
            while k > 0 && page[k - 1].start_time == last_start
                invariant
                    k < raw_len,
                    raw_len == page@.len(),
                    last_start == page@.last().start_time,
                    forall|t: int|
                        k as int <= t < raw_len as int ==> (#[trigger] page@[t]).start_time
                            == last_start,
                decreases k,
            {
                k -= 1;
            }
            kept_len = k;
            proof {
                lemma_tie_suffix_start_unique(page@, k as int);
            }
        }
        let ghost kept: Seq<RawMatchRecord> = kept_page(page@);
        proof {
            reveal(kept_page);
            assert(kept =~= page@.take(kept_len as int));
        }
        if kept_len == 0 {
            self.finished = true;
            return Ok(());
        }
        let kept_slice: &[RawMatchRecord] = &page[0..kept_len];
        proof {
            assert(kept_slice@ =~= kept);
        }
        let parsed = match parse_match_data(kept_slice, target_player_id) {
            Ok(parsed) => parsed,
            Err(violation) => {
                return Err(violation);
            },
        };
        let last_kept_start = parsed[parsed.len() - 1].start_time;
        proof {
            assert(match_parses_to(kept[kept.len() - 1], target_player_id, parsed@[kept.len()
                - 1]));
            assert(last_kept_start == kept.last().start_time);
        }
        self.cursor = if last_kept_start == 0 {
            0
        } else {
            last_kept_start - 1
        };
        let mut parsed_rest = parsed;
        self.matches.append(&mut parsed_rest);
        if raw_len < PAGE_LIMIT {
            self.finished = true;
        }
        proof {
            let pre = *old(self);
            if kept.last().start_time > 0 && descending_starts(page@) && (forall|i: int|
                0 <= i < page@.len() ==> (#[trigger] page@[i]).start_time <= pre.cursor)
                && cursor_below_history(pre) {
                assert forall|i: int| 0 <= i < self.matches@.len() implies self.cursor < (
                #[trigger] self.matches@[i]).start_time by {
                    assert(kept.last() == page@[kept.len() - 1]);
                    if i < pre.matches@.len() {
                        assert(pre.cursor < pre.matches@[i].start_time);
                        assert(kept.last().start_time <= pre.cursor);
                    } else {
                        let j = i - pre.matches@.len();
                        assert(match_parses_to(kept[j], target_player_id, self.matches@[i]));
                        assert(kept[j] == page@[j]);
                        assert(page@[j].start_time >= page@[kept.len() - 1].start_time);
                    }
                }
            }
        }
        Ok(())
    }
}

/// First index whose record starts at or before the cursor; the length if
/// every record starts later.
#[verifier::opaque]
pub open spec fn first_at_or_before(s: Seq<RawMatchRecord>, cursor: u64) -> int
    decreases s.len(),
{
    if s.len() == 0 {
        0
    } else if s[0].start_time <= cursor {
        0
    } else {
        1 + first_at_or_before(s.drop_first(), cursor)
    }
}

/// First index whose record starts before the floor; the length if every
/// record starts at or after it.
#[verifier::opaque]
pub open spec fn first_below_floor(s: Seq<RawMatchRecord>, floor: u64) -> int
    decreases s.len(),
{
    if s.len() == 0 {
        0
    } else if s[0].start_time < floor {
        0
    } else {
        1 + first_below_floor(s.drop_first(), floor)
    }
}

/// The stretch of a descending history that one whole walk retrieves: the
/// records starting at or before the initial cursor and not before the
/// floor.
pub open spec fn history_window(s: Seq<RawMatchRecord>, cursor: u64, floor: u64) -> Seq<
    RawMatchRecord,
> {
    let lo = first_at_or_before(s, cursor);
    let hi = first_below_floor(s, floor);
    if lo <= hi {
        s.subrange(lo, hi)
    } else {
        Seq::empty()
    }
}

pub proof fn lemma_first_at_or_before_props(s: Seq<RawMatchRecord>, cursor: u64)
    ensures
        0 <= first_at_or_before(s, cursor) <= s.len(),
        forall|k: int|
            0 <= k < first_at_or_before(s, cursor) ==> (#[trigger] s[k]).start_time > cursor,
        first_at_or_before(s, cursor) < s.len() ==> s[first_at_or_before(s, cursor)].start_time
            <= cursor,
    decreases s.len(),
{
    reveal(first_at_or_before);
    if s.len() == 0 {
    } else if s[0].start_time <= cursor {
    } else {
        lemma_first_at_or_before_props(s.drop_first(), cursor);
        assert forall|k: int| 0 <= k < first_at_or_before(s, cursor) implies (
        #[trigger] s[k]).start_time > cursor by {
            if k > 0 {
                assert(s.drop_first()[k - 1].start_time > cursor);
            }
        }
    }
}

pub proof fn lemma_first_at_or_before_unique(s: Seq<RawMatchRecord>, cursor: u64, j: int)
    requires
        0 <= j <= s.len(),
        forall|k: int| 0 <= k < j ==> (#[trigger] s[k]).start_time > cursor,
        j < s.len() ==> s[j].start_time <= cursor,
    ensures
        first_at_or_before(s, cursor) == j,
    decreases s.len(),
{
    reveal(first_at_or_before);
    if j == 0 {
    } else {
        assert(s[0].start_time > cursor);
        assert forall|k: int| 0 <= k < j - 1 implies (#[trigger] s.drop_first()[k]).start_time
            > cursor by {
            assert(s[k + 1].start_time > cursor);
        }
        lemma_first_at_or_before_unique(s.drop_first(), cursor, j - 1);
    }
}

pub proof fn lemma_first_below_floor_props(s: Seq<RawMatchRecord>, floor: u64)
    ensures
        0 <= first_below_floor(s, floor) <= s.len(),
        forall|k: int|
            0 <= k < first_below_floor(s, floor) ==> (#[trigger] s[k]).start_time >= floor,
        first_below_floor(s, floor) < s.len() ==> s[first_below_floor(s, floor)].start_time
            < floor,
    decreases s.len(),
{
    reveal(first_below_floor);
    if s.len() == 0 {
    } else if s[0].start_time < floor {
    } else {
        lemma_first_below_floor_props(s.drop_first(), floor);
        assert forall|k: int| 0 <= k < first_below_floor(s, floor) implies (
        #[trigger] s[k]).start_time >= floor by {
            if k > 0 {
                assert(s.drop_first()[k - 1].start_time >= floor);
            }
        }
    }
}

pub proof fn lemma_first_below_floor_unique(s: Seq<RawMatchRecord>, floor: u64, j: int)
    requires
        0 <= j <= s.len(),
        forall|k: int| 0 <= k < j ==> (#[trigger] s[k]).start_time >= floor,
        j < s.len() ==> s[j].start_time < floor,
    ensures
        first_below_floor(s, floor) == j,
    decreases s.len(),
{
    reveal(first_below_floor);
    if j == 0 {
    } else {
        assert(s[0].start_time >= floor);
        assert forall|k: int| 0 <= k < j - 1 implies (#[trigger] s.drop_first()[k]).start_time
            >= floor by {
            assert(s[k + 1].start_time >= floor);
        }
        lemma_first_below_floor_unique(s.drop_first(), floor, j - 1);
    }
}

/// For a history with non-increasing start times, the window between
/// cursor and floor holds exactly the records whose start time lies in
/// `[floor, cursor]`, in their stored order: none is left out, none comes
/// from outside the bounds.
pub proof fn lemma_history_window_exact(s: Seq<RawMatchRecord>, cursor: u64, floor: u64)
    requires
        descending_starts(s),
    ensures
        forall|i: int|
            0 <= i < history_window(s, cursor, floor).len() ==> floor <= (
            #[trigger] history_window(s, cursor, floor)[i]).start_time <= cursor,
        forall|k: int|
            0 <= k < s.len() && floor <= (#[trigger] s[k]).start_time <= cursor ==> 0 <= k
                - first_at_or_before(s, cursor) < history_window(s, cursor, floor).len()
                && history_window(s, cursor, floor)[k - first_at_or_before(s, cursor)] == s[k],
{
    let lo = first_at_or_before(s, cursor);
    let hi = first_below_floor(s, floor);
    lemma_first_at_or_before_props(s, cursor);
    lemma_first_below_floor_props(s, floor);
    let w = history_window(s, cursor, floor);
    assert forall|i: int| 0 <= i < w.len() implies floor <= (#[trigger] w[i]).start_time
        <= cursor by {
        assert(w[i] == s[lo + i]);
        assert(s[lo + i].start_time >= floor);
        if i > 0 {
            assert(s[lo + i].start_time <= s[lo].start_time);
        }
        assert(s[lo].start_time <= cursor);
    }
    assert forall|k: int| 0 <= k < s.len() && floor <= (#[trigger] s[k]).start_time <= cursor
        implies 0 <= k - lo < w.len() && w[k - lo] == s[k] by {
        assert(k >= lo) by {
            if k < lo {
                assert(s[k].start_time > cursor);
            }
        }
        assert(k < hi) by {
            if k == hi {
                assert(s[hi].start_time < floor);
            } else if k > hi {
                assert(s[k].start_time <= s[hi].start_time);
                assert(s[hi].start_time < floor);
            }
        }
        assert(lo <= hi);
        assert(w == s.subrange(lo, hi));
        assert(w[k - lo] == s[k]);
    }
}

/// A finite, locally held history standing in for the upstream records
/// endpoint: the records of one player, newest first (ties allowed).
pub struct SimulatedUpstream {
    pub records: Vec<RawMatchRecord>,
}

/// Walk a whole simulated history, exactly as the protocol walks the remote
/// endpoint: page by page of at most [`PAGE_LIMIT`] records, newest first,
/// from the initial cursor down to the floor, until a short or empty page.
/// Returns every record of the window — no record is skipped and none is
/// retrieved twice, also where a run of equal start times straddles a page
/// boundary — parsed in non-increasing start-time order; the first record
/// of the window that breaks the upstream contract aborts the walk.
#[verifier::rlimit(100)]
pub fn fetch_all(
    upstream: &SimulatedUpstream,
    now_timestamp: u64,
    target_player_id: u64,
) -> (r: Result<Vec<GameMatch>, UpstreamViolation>)
    requires
        descending_starts(upstream.records@),
        bounded_tie_runs(upstream.records@),
    ensures
        ({
            let w = history_window(upstream.records@, now_timestamp, FLOOR_TIMESTAMP);
            &&& r is Ok <==> (forall|i: int|
                0 <= i < w.len() ==> #[trigger] record_parseable(w[i], target_player_id))
            &&& r is Ok ==> r->Ok_0@.len() == w.len()
            &&& r is Ok ==> (forall|i: int|
                0 <= i < w.len() ==> match_parses_to(
                    w[i],
                    target_player_id,
                    #[trigger] r->Ok_0@[i],
                ))
            &&& r is Ok ==> (forall|i: int|
                0 <= i < r->Ok_0@.len() ==> (#[trigger] r->Ok_0@[i]).start_time
                    >= FLOOR_TIMESTAMP)
            &&& r is Ok ==> (forall|i: int|
                0 <= i < r->Ok_0@.len() ==> (#[trigger] r->Ok_0@[i]).start_time <= now_timestamp)
            &&& r is Ok ==> (forall|i: int, j: int|
                0 <= i <= j < r->Ok_0@.len() ==> (#[trigger] r->Ok_0@[i]).start_time >= (
                #[trigger] r->Ok_0@[j]).start_time)
            &&& r is Err ==> (exists|i: int|
                0 <= i < w.len() && !(#[trigger] record_parseable(w[i], target_player_id)) && (
                forall|k: int| 0 <= k < i ==> record_parseable(w[k], target_player_id))
                    && r->Err_0 == record_violation(w[i], target_player_id))
        }),
{
    let ghost orig: Seq<RawMatchRecord> = upstream.records@;
    let ghost lo0: int = first_at_or_before(orig, now_timestamp);
    let ghost hi0: int = first_below_floor(orig, FLOOR_TIMESTAMP);
    let ghost wlen: int = if lo0 <= hi0 {
        hi0 - lo0
    } else {
        0
    };
    proof {
        lemma_first_at_or_before_props(orig, now_timestamp);
        lemma_first_below_floor_props(orig, FLOOR_TIMESTAMP);
    }

    let records = &upstream.records;

    // Step past the stretch that starts after the initial cursor.
    let mut pos: usize = 0;
    while pos < records.len() && records[pos].start_time > now_timestamp
        invariant
            orig == records@,
            pos <= records.len(),
            forall|k: int|
                0 <= k < pos as int ==> (#[trigger] orig[k]).start_time > now_timestamp,
        decreases records.len() - pos,
    {
        pos += 1;
    }
    proof {
        lemma_first_at_or_before_unique(orig, now_timestamp, pos as int);
    }

    let mut pag = Paginator::new(now_timestamp);
    while !pag.is_finished()
        invariant
            orig == records@,
            orig == upstream.records@,
            descending_starts(orig),
            bounded_tie_runs(orig),
            lo0 == first_at_or_before(orig, now_timestamp),
            hi0 == first_below_floor(orig, FLOOR_TIMESTAMP),
            wlen == (if lo0 <= hi0 {
                hi0 - lo0
            } else {
                0
            }),
            0 <= lo0 <= orig.len(),
            0 <= hi0 <= orig.len(),
            pag.matches@.len() <= wlen,
            pos as int == lo0 + pag.matches@.len(),
            pos <= records.len(),
            forall|i: int|
                0 <= i < pag.matches@.len() ==> match_parses_to(
                    orig[lo0 + i],
                    target_player_id,
                    #[trigger] pag.matches@[i],
                ),
            forall|i: int|
                0 <= i < pag.matches@.len() ==> (#[trigger] orig[lo0 + i]).start_time
                    >= FLOOR_TIMESTAMP,
            pag.matches@.len() == 0 ==> pag.cursor == now_timestamp,
            pag.matches@.len() > 0 ==> pag.cursor == orig[lo0 + pag.matches@.len()
                - 1].start_time - 1 && orig[lo0 + pag.matches@.len() - 1].start_time
                >= FLOOR_TIMESTAMP,
            pos < records.len() ==> orig[pos as int].start_time <= pag.cursor,
            cursor_below_history(pag),
            pag.finished ==> (pos as int == hi0) || (lo0 > hi0 && pag.matches@.len() == 0),
        decreases wlen - pag.matches@.len(), (if pag.finished {
            0int
        } else {
            1int
        }),
    {
        let ghost base: int = pos as int;
        let mut n: usize = 0;
        while pos + n < records.len() && records[pos + n].start_time >= FLOOR_TIMESTAMP && n
            < PAGE_LIMIT
            invariant
                orig == records@,
                base == pos as int,
                n <= PAGE_LIMIT,
                pos + n <= records.len(),
                forall|k: int|
                    base <= k < base + n as int ==> (#[trigger] orig[k]).start_time
                        >= FLOOR_TIMESTAMP,
            decreases records.len() - pos - n,
        {
            n += 1;
        }
        let ghost nn: int = n as int;
        let ghost pre_pag = pag;
        proof {
            assert(base == lo0 + pre_pag.matches@.len());
            assert(base < orig.len() ==> orig[base].start_time <= pre_pag.cursor);
        }
        let page: &[RawMatchRecord] = &records.as_slice()[pos..pos + n];
        proof {
            assert(page@ =~= orig.subrange(base, base + nn));
        }
        let before = pag.matches.len();
        match pag.feed_page(page, target_player_id) {
            Ok(()) => {},
            Err(violation) => {
                proof {
                    lemma_walk_error(
                        orig,
                        now_timestamp,
                        target_player_id,
                        nn,
                        pre_pag.matches@,
                        violation,
                    );
                }
                return Err(violation);
            },
        }
        proof {
            reveal(kept_page);
            let kept = kept_page(page@);
            if page@.len() >= (PAGE_LIMIT as int) {
                lemma_tie_suffix_start_props(page@);
            }
            assert(kept =~= page@.take(kept.len() as int));
            assert(kept.len() <= nn);
            assert(pag.matches@.len() == pre_pag.matches@.len() + kept.len());
        }
        let gained = pag.matches.len() - before;
        pos = pos + gained;
        proof {
            lemma_after_page(
                orig,
                now_timestamp,
                target_player_id,
                nn,
                pre_pag.matches@,
                pre_pag.cursor,
                pag.matches@,
                pag.cursor,
                pag.finished,
            );
            assert(cursor_below_history(pag));
        }
    }


    proof {
        lemma_walk_result(orig, now_timestamp, target_player_id, pag.matches@);
    }
    Ok(pag.into_matches())
}

/// Restores the walk's invariants after one page round: what one feed of
/// the page stored at `[base, base + nn)` did to the state, read back onto
/// the stored history.
proof fn lemma_after_page(
    orig: Seq<RawMatchRecord>,
    now_timestamp: u64,
    target_player_id: u64,
    nn: int,
    pre_matches: Seq<GameMatch>,
    pre_cursor: u64,
    post_matches: Seq<GameMatch>,
    post_cursor: u64,
    post_finished: bool,
)
    requires
        descending_starts(orig),
        bounded_tie_runs(orig),
        ({
            let lo0 = first_at_or_before(orig, now_timestamp);
            let hi0 = first_below_floor(orig, FLOOR_TIMESTAMP);
            let base = lo0 + pre_matches.len();
            let page_seq = orig.subrange(base, base + nn);
            let kept = kept_page(page_seq);
            &&& 0 <= nn <= (PAGE_LIMIT as int)
            &&& base + nn <= orig.len()
            &&& pre_matches.len() <= (if lo0 <= hi0 {
                hi0 - lo0
            } else {
                0
            })
            &&& (forall|k: int|
                base <= k < base + nn ==> (#[trigger] orig[k]).start_time >= FLOOR_TIMESTAMP)
            &&& (base + nn == orig.len() || nn == (PAGE_LIMIT as int) || orig[base
                + nn].start_time < FLOOR_TIMESTAMP)
            &&& (forall|i: int|
                0 <= i < pre_matches.len() ==> match_parses_to(
                    orig[lo0 + i],
                    target_player_id,
                    #[trigger] pre_matches[i],
                ))
            &&& (forall|i: int|
                0 <= i < pre_matches.len() ==> (#[trigger] orig[lo0 + i]).start_time
                    >= FLOOR_TIMESTAMP)
            &&& (forall|i: int|
                0 <= i < pre_matches.len() ==> pre_cursor < (
                #[trigger] pre_matches[i]).start_time)
            &&& (pre_matches.len() == 0 ==> pre_cursor == now_timestamp)
            &&& (pre_matches.len() > 0 ==> pre_cursor == orig[lo0 + pre_matches.len()
                - 1].start_time - 1)
            &&& (base < orig.len() ==> orig[base].start_time <= pre_cursor)
            &&& post_matches.len() == pre_matches.len() + kept.len()
            &&& (forall|i: int|
                0 <= i < pre_matches.len() ==> #[trigger] post_matches[i] == pre_matches[i])
            &&& (forall|i: int|
                0 <= i < kept.len() ==> match_parses_to(
                    kept[i],
                    target_player_id,
                    #[trigger] post_matches[pre_matches.len() + i],
                ))
            &&& (kept.len() == 0 ==> post_finished && post_cursor == pre_cursor && post_matches
                == pre_matches)
            &&& (kept.len() > 0 ==> post_cursor == next_cursor(kept.last().start_time))
            &&& (kept.len() > 0 ==> (post_finished <==> nn < (PAGE_LIMIT as int)))
        }),
    ensures
        ({
            let lo0 = first_at_or_before(orig, now_timestamp);
            let hi0 = first_below_floor(orig, FLOOR_TIMESTAMP);
            let wlen: int = if lo0 <= hi0 {
                hi0 - lo0
            } else {
                0
            };
            let base = lo0 + pre_matches.len();
            let kl = kept_page(orig.subrange(base, base + nn)).len() as int;
            &&& post_matches.len() == pre_matches.len() + kl
            &&& kl <= nn
            &&& post_matches.len() <= wlen
            &&& (forall|i: int|
                0 <= i < post_matches.len() ==> match_parses_to(
                    orig[lo0 + i],
                    target_player_id,
                    #[trigger] post_matches[i],
                ))
            &&& (forall|i: int|
                0 <= i < post_matches.len() ==> (#[trigger] orig[lo0 + i]).start_time
                    >= FLOOR_TIMESTAMP)
            &&& (post_matches.len() == 0 ==> post_cursor == now_timestamp)
            &&& (post_matches.len() > 0 ==> post_cursor == orig[lo0 + post_matches.len()
                - 1].start_time - 1 && orig[lo0 + post_matches.len() - 1].start_time
                >= FLOOR_TIMESTAMP)
            &&& (base + kl < orig.len() ==> orig[base + kl].start_time <= post_cursor)
            &&& (forall|i: int|
                0 <= i < post_matches.len() ==> post_cursor < (
                #[trigger] post_matches[i]).start_time)
            &&& (post_finished ==> (base + kl == hi0 || (lo0 > hi0 && post_matches.len() == 0)))
            &&& (!post_finished ==> kl >= 1)
        }),
{
    let lo0 = first_at_or_before(orig, now_timestamp);
    let hi0 = first_below_floor(orig, FLOOR_TIMESTAMP);
    let base = lo0 + pre_matches.len();
    let page_seq = orig.subrange(base, base + nn);
    let kept = kept_page(page_seq);
    let kl = kept.len() as int;
    reveal(kept_page);
    lemma_first_at_or_before_props(orig, now_timestamp);
    lemma_first_below_floor_props(orig, FLOOR_TIMESTAMP);
    if page_seq.len() >= (PAGE_LIMIT as int) {
        lemma_tie_suffix_start_props(page_seq);
    }
    assert(kept =~= page_seq.take(kl));
    if nn > 0 {
        assert(base + nn - 1 < hi0) by {
            if base + nn - 1 == hi0 {
                assert(orig[hi0].start_time < FLOOR_TIMESTAMP);
            } else if base + nn - 1 > hi0 {
                assert(orig[base + nn - 1].start_time <= orig[hi0].start_time);
                assert(orig[hi0].start_time < FLOOR_TIMESTAMP);
            }
        }
        assert(base < hi0);
        assert(lo0 <= hi0);
    }
    assert forall|i: int| 0 <= i < post_matches.len() implies match_parses_to(
        orig[lo0 + i],
        target_player_id,
        #[trigger] post_matches[i],
    ) && (#[trigger] orig[lo0 + i]).start_time >= FLOOR_TIMESTAMP by {
        if i < pre_matches.len() {
            assert(post_matches[i] == pre_matches[i]);
            assert(match_parses_to(orig[lo0 + i], target_player_id, pre_matches[i]));
        } else {
            let j = i - pre_matches.len();
            assert(match_parses_to(kept[j], target_player_id, post_matches[pre_matches.len()
                + j]));
            assert(kept[j] == orig[base + j]);
            assert(orig[base + j].start_time >= FLOOR_TIMESTAMP);
        }
    }
    if kl == 0 {
        // A kept-nothing page is an empty page: a full page cannot be one
        // single run of equal start times.
        assert(nn == 0) by {
            if nn > 0 {
                assert(nn >= (PAGE_LIMIT as int));
                assert(page_seq[0].start_time == page_seq.last().start_time);
                assert(orig[base].start_time == orig[base + nn - 1].start_time);
                assert(false);
            }
        }
    } else {
        assert(kept.last() == orig[base + kl - 1]);
        assert(orig[base + kl - 1].start_time >= FLOOR_TIMESTAMP);
        assert(post_cursor == orig[base + kl - 1].start_time - 1);
        if base + kl < orig.len() {
            if nn >= (PAGE_LIMIT as int) {
                // Full page: the trimmed run starts right after the kept
                // part and strictly below the last kept start.
                assert(kl < nn);
                assert(page_seq[kl].start_time == page_seq.last().start_time);
                assert(page_seq[kl - 1].start_time != page_seq.last().start_time);
                assert(page_seq[kl - 1].start_time >= page_seq[kl].start_time);
                assert(orig[base + kl] == page_seq[kl]);
                assert(orig[base + kl].start_time <= post_cursor);
            } else {
                assert(kl == nn);
                assert(orig[base + kl].start_time < FLOOR_TIMESTAMP);
                assert(orig[base + kl].start_time <= post_cursor);
            }
        }
        assert forall|i: int| 0 <= i < post_matches.len() implies post_cursor < (
        #[trigger] post_matches[i]).start_time by {
            assert(match_parses_to(orig[lo0 + i], target_player_id, post_matches[i]));
            assert(post_matches[i].start_time == orig[lo0 + i].start_time);
            assert(orig[lo0 + i].start_time >= orig[base + kl - 1].start_time);
        }
    }
    if post_finished {
        if lo0 <= hi0 {
            if kl > 0 {
                assert(nn < (PAGE_LIMIT as int));
                assert(kl == nn);
            }
            assert(base + nn == orig.len() || orig[base + nn].start_time < FLOOR_TIMESTAMP);
            assert forall|k: int| 0 <= k < base + nn implies (#[trigger] orig[k]).start_time
                >= FLOOR_TIMESTAMP by {
                if k < lo0 {
                    assert(k < hi0);
                } else if k < base {
                    assert(orig[lo0 + (k - lo0)].start_time >= FLOOR_TIMESTAMP);
                }
            }
            lemma_first_below_floor_unique(orig, FLOOR_TIMESTAMP, base + nn);
        } else {
            assert(post_matches.len() == 0);
        }
    }
    assert(post_matches.len() <= (if lo0 <= hi0 {
        hi0 - lo0
    } else {
        0
    })) by {
        if kl > 0 {
            assert(base + nn <= hi0);
        }
    }
}

/// An aborted round pins the first record of the window that broke the
/// upstream contract.
proof fn lemma_walk_error(
    orig: Seq<RawMatchRecord>,
    now_timestamp: u64,
    target_player_id: u64,
    nn: int,
    pre_matches: Seq<GameMatch>,
    violation: UpstreamViolation,
)
    requires
        descending_starts(orig),
        ({
            let lo0 = first_at_or_before(orig, now_timestamp);
            let base = lo0 + pre_matches.len();
            let page_seq = orig.subrange(base, base + nn);
            let kept = kept_page(page_seq);
            &&& 0 <= lo0
            &&& 0 <= nn <= (PAGE_LIMIT as int)
            &&& base + nn <= orig.len()
            &&& (forall|k: int|
                base <= k < base + nn ==> (#[trigger] orig[k]).start_time >= FLOOR_TIMESTAMP)
            &&& (forall|i: int|
                0 <= i < pre_matches.len() ==> match_parses_to(
                    orig[lo0 + i],
                    target_player_id,
                    #[trigger] pre_matches[i],
                ))
            &&& (exists|j: int|
                0 <= j < kept.len() && !(#[trigger] record_parseable(
                    kept[j],
                    target_player_id,
                )) && (forall|k: int|
                    0 <= k < j ==> record_parseable(kept[k], target_player_id)) && violation
                    == record_violation(kept[j], target_player_id))
        }),
    ensures
        ({
            let w = history_window(orig, now_timestamp, FLOOR_TIMESTAMP);
            exists|i: int|
                0 <= i < w.len() && !(#[trigger] record_parseable(w[i], target_player_id)) && (
                forall|k: int| 0 <= k < i ==> record_parseable(w[k], target_player_id))
                    && violation == record_violation(w[i], target_player_id)
        }),
{
    let lo0 = first_at_or_before(orig, now_timestamp);
    let hi0 = first_below_floor(orig, FLOOR_TIMESTAMP);
    let w = history_window(orig, now_timestamp, FLOOR_TIMESTAMP);
    let base = lo0 + pre_matches.len();
    let page_seq = orig.subrange(base, base + nn);
    let kept = kept_page(page_seq);
    reveal(kept_page);
    lemma_first_at_or_before_props(orig, now_timestamp);
    lemma_first_below_floor_props(orig, FLOOR_TIMESTAMP);
    if page_seq.len() >= (PAGE_LIMIT as int) {
        lemma_tie_suffix_start_props(page_seq);
    }
    assert(kept =~= page_seq.take(kept.len() as int));
    assert(nn > 0);
    assert(base + nn - 1 < hi0) by {
        if base + nn - 1 == hi0 {
            assert(orig[hi0].start_time < FLOOR_TIMESTAMP);
        } else if base + nn - 1 > hi0 {
            assert(orig[base + nn - 1].start_time <= orig[hi0].start_time);
            assert(orig[hi0].start_time < FLOOR_TIMESTAMP);
        }
    }
    assert(lo0 <= hi0);
    let j = choose|j: int|
        0 <= j < kept.len() && !(#[trigger] record_parseable(kept[j], target_player_id)) && (
        forall|k: int| 0 <= k < j ==> record_parseable(kept[k], target_player_id)) && violation
            == record_violation(kept[j], target_player_id);
    let wi = base - lo0 + j;
    assert(kept[j] == orig[base + j]);
    assert(base + j < hi0);
    assert(w[wi] == orig[base + j]);
    assert(!record_parseable(w[wi], target_player_id));
    assert(violation == record_violation(w[wi], target_player_id));
    assert forall|k: int| 0 <= k < wi implies record_parseable(w[k], target_player_id) by {
        assert(w[k] == orig[lo0 + k]);
        if k < pre_matches.len() {
            assert(match_parses_to(orig[lo0 + k], target_player_id, pre_matches[k]));
        } else {
            let pk = k - pre_matches.len();
            assert(record_parseable(kept[pk], target_player_id));
            assert(kept[pk] == orig[base + pk]);
        }
    }
}

/// A walk that covered the whole window, index for index, satisfies every
/// clause the walk promises of a successful result.
proof fn lemma_walk_result(
    orig: Seq<RawMatchRecord>,
    now_timestamp: u64,
    target_player_id: u64,
    matches: Seq<GameMatch>,
)
    requires
        descending_starts(orig),
        ({
            let lo0 = first_at_or_before(orig, now_timestamp);
            let hi0 = first_below_floor(orig, FLOOR_TIMESTAMP);
            let wlen = if lo0 <= hi0 {
                hi0 - lo0
            } else {
                0
            };
            &&& matches.len() == wlen
            &&& (forall|i: int|
                0 <= i < wlen ==> match_parses_to(
                    orig[lo0 + i],
                    target_player_id,
                    #[trigger] matches[i],
                ))
            &&& (forall|i: int|
                0 <= i < wlen ==> (#[trigger] orig[lo0 + i]).start_time >= FLOOR_TIMESTAMP)
        }),
    ensures
        ({
            let w = history_window(orig, now_timestamp, FLOOR_TIMESTAMP);
            &&& matches.len() == w.len()
            &&& (forall|i: int|
                0 <= i < w.len() ==> match_parses_to(
                    w[i],
                    target_player_id,
                    #[trigger] matches[i],
                ))
            &&& (forall|i: int|
                0 <= i < w.len() ==> #[trigger] record_parseable(w[i], target_player_id))
            &&& (forall|i: int|
                0 <= i < matches.len() ==> (#[trigger] matches[i]).start_time >= FLOOR_TIMESTAMP)
            &&& (forall|i: int|
                0 <= i < matches.len() ==> (#[trigger] matches[i]).start_time <= now_timestamp)
            &&& (forall|i: int, j: int|
                0 <= i <= j < matches.len() ==> (#[trigger] matches[i]).start_time >= (
                #[trigger] matches[j]).start_time)
        }),
{
    let lo0 = first_at_or_before(orig, now_timestamp);
    let hi0 = first_below_floor(orig, FLOOR_TIMESTAMP);
    let w = history_window(orig, now_timestamp, FLOOR_TIMESTAMP);
    lemma_first_at_or_before_props(orig, now_timestamp);
    lemma_first_below_floor_props(orig, FLOOR_TIMESTAMP);
    assert forall|i: int| 0 <= i < w.len() implies match_parses_to(
        w[i],
        target_player_id,
        #[trigger] matches[i],
    ) by {
        assert(w[i] == orig[lo0 + i]);
    }
    assert forall|i: int| 0 <= i < w.len() implies #[trigger] record_parseable(
        w[i],
        target_player_id,
    ) by {
        assert(match_parses_to(w[i], target_player_id, matches[i]));
    }
    assert forall|i: int| 0 <= i < matches.len() implies (
    #[trigger] matches[i]).start_time >= FLOOR_TIMESTAMP && matches[i].start_time
        <= now_timestamp by {
        assert(match_parses_to(orig[lo0 + i], target_player_id, matches[i]));
        assert(orig[lo0 + i].start_time >= FLOOR_TIMESTAMP);
        if lo0 + i > lo0 {
            assert(orig[lo0 + i].start_time <= orig[lo0].start_time);
        }
        assert(orig[lo0].start_time <= now_timestamp);
    }
    assert forall|i: int, j: int| 0 <= i <= j < matches.len() implies (
    #[trigger] matches[i]).start_time >= (#[trigger] matches[j]).start_time by {
        assert(match_parses_to(orig[lo0 + i], target_player_id, matches[i]));
        assert(match_parses_to(orig[lo0 + j], target_player_id, matches[j]));
        assert(orig[lo0 + i].start_time >= orig[lo0 + j].start_time);
    }
}

} // verus!
