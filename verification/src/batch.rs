use vstd::prelude::*;

use crate::error::AppError;
use crate::rawg::AUTO_ACCEPT_THRESHOLD_BITS;

verus! {

/// What looking a game up at RAWG gave.
pub enum LookupOutcome {
    /// A match was accepted; `similarity` compares the game's name with the name of the
    /// match (as the bit pattern of the `f64` score).
    Matched { similarity: u64 },
    /// No result, or no result good enough to accept.
    NotFound,
    /// RAWG answered 429.
    RateLimited,
    /// RAWG refused the key.
    InvalidApiKey,
    /// Any other failure.
    Failed,
}

/// What the batch asks for after a lookup.
#[derive(Debug, Clone, PartialEq, Eq)]
pub enum BatchReaction {
    /// Store the match's metadata, flagged for review or not, then report with `on_stored`.
    StoreMetadata { needs_review: bool },
    /// Flag the game for a manual review.
    FlagForReview,
    /// Pause for `RATE_LIMIT_PAUSE_SECS` seconds.
    PauseForRateLimit,
    /// Stop the batch with this error.
    Abort(AppError),
    /// Go on with the next game.
    Skip,
}

/// A progress report of a batch, sent before each game and once at the end.
#[derive(Debug, Clone, Copy, PartialEq, Eq)]
pub struct BatchProgress {
    pub current: usize,
    pub total: usize,
    pub fetched: usize,
    pub needs_review: usize,
}

/// The state of a batch: how many games it has, how many it is past, how many got metadata,
/// how many need a review, and, while a match is being stored, whether it needs a review.
pub ghost struct BatchState {
    pub total: nat,
    pub current: nat,
    pub fetched: nat,
    pub needs_review: nat,
    pub storing: Option<bool>,
}

/// A batch over `total` games, before the first.
pub open spec fn batch_start(total: nat) -> BatchState {
    BatchState { total, current: 0, fetched: 0, needs_review: 0, storing: None }
}

/// The counts of a batch fit: no more fetched or flagged games than games done, no more
/// games done than games, and a store only while a game is under way.
pub open spec fn is_consistent(s: BatchState) -> bool {
    &&& s.fetched <= s.current
    &&& s.needs_review <= s.current
    &&& s.current <= s.total
    &&& s.storing is Some ==> s.current < s.total
}

/// The state after a lookup of the current game.
pub open spec fn after_lookup(s: BatchState, o: LookupOutcome) -> BatchState {
    match o {
        LookupOutcome::Matched { similarity } => BatchState {
            storing: Some(similarity < AUTO_ACCEPT_THRESHOLD_BITS),
            ..s
        },
        LookupOutcome::NotFound => BatchState {
            current: s.current + 1,
            needs_review: s.needs_review + 1,
            ..s
        },
        LookupOutcome::InvalidApiKey => s,
        _ => BatchState { current: s.current + 1, ..s },
    }
}

/// What the batch asks for after a lookup.
pub open spec fn reaction_to(o: LookupOutcome) -> BatchReaction {
    match o {
        LookupOutcome::Matched { similarity } => BatchReaction::StoreMetadata {
            needs_review: similarity < AUTO_ACCEPT_THRESHOLD_BITS,
        },
        LookupOutcome::NotFound => BatchReaction::FlagForReview,
        LookupOutcome::RateLimited => BatchReaction::PauseForRateLimit,
        LookupOutcome::InvalidApiKey => BatchReaction::Abort(AppError::InvalidApiKey),
        LookupOutcome::Failed => BatchReaction::Skip,
    }
}

/// The state after the metadata of the current game was stored (`ok`) or not: the game is
/// done; a stored match counts as fetched, and as needing a review when it does.
pub open spec fn after_store(s: BatchState, ok: bool) -> BatchState {
    BatchState {
        current: s.current + 1,
        fetched: if ok {
            s.fetched + 1
        } else {
            s.fetched
        },
        needs_review: if ok && s.storing == Some(true) {
            s.needs_review + 1
        } else {
            s.needs_review
        },
        storing: None,
        ..s
    }
}

/// The decisions of a metadata batch: the caller looks each game up in turn and reports the
/// outcome; the batch says what to do and keeps the counts.
pub struct MetadataBatch {
    total: usize,
    current: usize,
    fetched: usize,
    needs_review: usize,
    storing: Option<bool>,
}

impl View for MetadataBatch {
    type V = BatchState;

    closed spec fn view(&self) -> BatchState {
        BatchState {
            total: self.total as nat,
            current: self.current as nat,
            fetched: self.fetched as nat,
            needs_review: self.needs_review as nat,
            storing: self.storing,
        }
    }
}

impl MetadataBatch {
    #[verifier::type_invariant]
    spec fn counts_fit(self) -> bool {
        is_consistent(self@)
    }

    /// A batch over `total` games.
    pub fn new(total: usize) -> (b: Self)
        ensures
            b@ == batch_start(total as nat),
            is_consistent(b@),
    {
        MetadataBatch { total, current: 0, fetched: 0, needs_review: 0, storing: None }
    }

    /// Whether every game is done.
    pub fn is_done(&self) -> (b: bool)
        ensures
            b == (self@.current == self@.total),
            is_consistent(self@),
    {
        proof {
            use_type_invariant(self);
        }
        self.current == self.total
    }

    /// Whether a match's metadata is being stored.
    pub fn is_storing(&self) -> (b: bool)
        ensures
            b == self@.storing is Some,
    {
        self.storing.is_some()
    }

    /// The progress so far.
    pub fn progress(&self) -> (p: BatchProgress)
        ensures
            p.current == self@.current,
            p.total == self@.total,
            p.fetched == self@.fetched,
            p.needs_review == self@.needs_review,
    {
        BatchProgress {
            current: self.current,
            total: self.total,
            fetched: self.fetched,
            needs_review: self.needs_review,
        }
    }

    /// The result of the batch: (games that got metadata, games that need a review).
    pub fn counts(&self) -> (r: (usize, usize))
        ensures
            r.0 == self@.fetched,
            r.1 == self@.needs_review,
    {
        (self.fetched, self.needs_review)
    }

    /// Reports the lookup of the current game; says what to do about it.
    pub fn on_lookup(&mut self, outcome: LookupOutcome) -> (r: BatchReaction)
        requires
            old(self)@.storing is None,
            old(self)@.current < old(self)@.total,
        ensures
            final(self)@ == after_lookup(old(self)@, outcome),
            r == reaction_to(outcome),
            is_consistent(final(self)@),
    {
        proof {
            use_type_invariant(&*self);
        }
        match outcome {
            LookupOutcome::Matched { similarity } => {
                let review = similarity < AUTO_ACCEPT_THRESHOLD_BITS;
                *self = MetadataBatch { storing: Some(review), ..*self };
                BatchReaction::StoreMetadata { needs_review: review }
            },
            LookupOutcome::NotFound => {
                *self = MetadataBatch {
                    current: self.current + 1,
                    needs_review: self.needs_review + 1,
                    ..*self
                };
                BatchReaction::FlagForReview
            },
            LookupOutcome::RateLimited => {
                *self = MetadataBatch { current: self.current + 1, ..*self };
                BatchReaction::PauseForRateLimit
            },
            LookupOutcome::InvalidApiKey => BatchReaction::Abort(AppError::InvalidApiKey),
            LookupOutcome::Failed => {
                *self = MetadataBatch { current: self.current + 1, ..*self };
                BatchReaction::Skip
            },
        }
    }

    /// Reports whether the metadata of the current game was stored.
    pub fn on_stored(&mut self, ok: bool)
        requires
            old(self)@.storing is Some,
        ensures
            final(self)@ == after_store(old(self)@, ok),
            is_consistent(final(self)@),
    {
        proof {
            use_type_invariant(&*self);
        }
        let review = self.storing == Some(true);
        let fetched = if ok {
            self.fetched + 1
        } else {
            self.fetched
        };
        let needs_review = if ok && review {
            self.needs_review + 1
        } else {
            self.needs_review
        };
        *self = MetadataBatch {
            current: self.current + 1,
            fetched,
            needs_review,
            storing: None,
            ..*self
        };
    }
}

/// Every step of a batch keeps its counts consistent, from the start on: so a batch never
/// reports more fetched or flagged games than it went through, nor more than it has.
pub proof fn law_batch_stays_consistent(s: BatchState, o: LookupOutcome, ok: bool, total: nat)
    ensures
        is_consistent(batch_start(total)),
        is_consistent(s) && s.storing is None && s.current < s.total ==> is_consistent(
            after_lookup(s, o),
        ),
        is_consistent(s) && s.storing is Some ==> is_consistent(after_store(s, ok)),
{
}

/// Each lookup either finishes the current game or, for a match, starts storing it; the store
/// then finishes it. A refused key stops the batch where it is.
pub proof fn law_batch_advances(s: BatchState, o: LookupOutcome, ok: bool)
    ensures
        o !is InvalidApiKey && o !is Matched ==> after_lookup(s, o).current == s.current + 1,
        o is Matched ==> after_lookup(s, o).current == s.current && after_lookup(s, o).storing is Some,
        o is InvalidApiKey ==> after_lookup(s, o) == s,
        after_store(s, ok).current == s.current + 1 && after_store(s, ok).storing is None,
{
}


/// One game of a batch, from its lookup to its end: the lookup's outcome and, for a match,
/// whether its metadata was stored.
pub open spec fn game_step(s: BatchState, o: LookupOutcome, stored: bool) -> BatchState {
    if o is Matched {
        after_store(after_lookup(s, o), stored)
    } else {
        after_lookup(s, o)
    }
}

/// A whole batch run from state `s`, one game per entry of `games`.
pub open spec fn run_games(s: BatchState, games: Seq<(LookupOutcome, bool)>) -> BatchState
    decreases games.len(),
{
    if games.len() == 0 {
        s
    } else {
        run_games(game_step(s, games[0].0, games[0].1), games.drop_first())
    }
}

/// How many games of `games` got their metadata stored.
pub open spec fn count_fetched(games: Seq<(LookupOutcome, bool)>) -> nat
    decreases games.len(),
{
    if games.len() == 0 {
        0
    } else {
        (if games[0].0 is Matched && games[0].1 {
            1nat
        } else {
            0nat
        }) + count_fetched(games.drop_first())
    }
}

/// How many games of `games` need a review: a stored match below the threshold, or a game
/// for which nothing was found.
pub open spec fn count_needing_review(games: Seq<(LookupOutcome, bool)>) -> nat
    decreases games.len(),
{
    if games.len() == 0 {
        0
    } else {
        (if (games[0].0 matches LookupOutcome::Matched { similarity } && games[0].1 && similarity
            < AUTO_ACCEPT_THRESHOLD_BITS) || games[0].0 is NotFound {
            1nat
        } else {
            0nat
        }) + count_needing_review(games.drop_first())
    }
}

/// The counts over a run of games, from any state on which no store is under way.
proof fn lemma_run_games(s: BatchState, games: Seq<(LookupOutcome, bool)>)
    requires
        s.storing is None,
        forall|k: int| 0 <= k < games.len() ==> !(#[trigger] games[k].0 is InvalidApiKey),
    ensures
        run_games(s, games).total == s.total,
        run_games(s, games).current == s.current + games.len(),
        run_games(s, games).fetched == s.fetched + count_fetched(games),
        run_games(s, games).needs_review == s.needs_review + count_needing_review(games),
        run_games(s, games).storing is None,
    decreases games.len(),
{
    if games.len() > 0 {
        let rest = games.drop_first();
        assert forall|k: int| 0 <= k < rest.len() implies !(#[trigger] rest[k].0 is InvalidApiKey) by {
            assert(rest[k] == games[k + 1]);
        }
        assert(!(games[0].0 is InvalidApiKey));
        lemma_run_games(game_step(s, games[0].0, games[0].1), rest);
    }
}

/// A whole batch over `n` games in which no lookup meets a refused key ends after the `n`
/// games with: fetched = the games whose match was stored; needing a review = the stored
/// matches below the threshold plus the games for which nothing was found. Both are at most `n`.
pub proof fn law_batch_totals(n: nat, games: Seq<(LookupOutcome, bool)>)
    requires
        games.len() == n,
        forall|k: int| 0 <= k < games.len() ==> !(#[trigger] games[k].0 is InvalidApiKey),
    ensures
        run_games(batch_start(n), games).current == n,
        run_games(batch_start(n), games).fetched == count_fetched(games),
        run_games(batch_start(n), games).needs_review == count_needing_review(games),
        count_fetched(games) <= n,
        count_needing_review(games) <= n,
{
    lemma_run_games(batch_start(n), games);
    lemma_counts_bounded(games);
}

/// Neither count exceeds the number of games.
proof fn lemma_counts_bounded(games: Seq<(LookupOutcome, bool)>)
    ensures
        count_fetched(games) <= games.len(),
        count_needing_review(games) <= games.len(),
    decreases games.len(),
{
    if games.len() > 0 {
        lemma_counts_bounded(games.drop_first());
    }
}


/// A match is stored flagged for review exactly when the batch counts it as needing one, and
/// that is exactly when its similarity is below 0.85: a match at or above the threshold is
/// never flagged, and raising the similarity never brings a flag.
pub proof fn law_review_flag_follows_threshold(s: BatchState, sim: u64, higher: u64)
    ensures
        reaction_to(LookupOutcome::Matched { similarity: sim }) matches BatchReaction::StoreMetadata {
            needs_review,
        } && after_lookup(s, LookupOutcome::Matched { similarity: sim }).storing == Some(
            needs_review,
        ) && (needs_review <==> sim < 0x3FEB_3333_3333_3333),
        sim >= AUTO_ACCEPT_THRESHOLD_BITS ==> reaction_to(LookupOutcome::Matched { similarity: sim })
            == (BatchReaction::StoreMetadata { needs_review: false }),
        higher >= sim && reaction_to(LookupOutcome::Matched { similarity: sim })
            == (BatchReaction::StoreMetadata { needs_review: false }) ==> reaction_to(
            LookupOutcome::Matched { similarity: higher },
        ) == (BatchReaction::StoreMetadata { needs_review: false }),
{
}

} // verus!
