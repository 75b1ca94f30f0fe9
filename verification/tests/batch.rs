use iso_library::batch::{BatchReaction, LookupOutcome, MetadataBatch};
use iso_library::error::AppError;

fn high() -> u64 {
    0.9f64.to_bits()
}

fn low() -> u64 {
    0.5f64.to_bits()
}

#[test]
fn empty_batch_is_done_at_once() {
    let batch = MetadataBatch::new(0);
    assert!(batch.is_done());
    assert_eq!(batch.counts(), (0, 0));
}

#[test]
fn batch_counts_fetched_and_reviewed_games() {
    let mut batch = MetadataBatch::new(4);
    let p = batch.progress();
    assert_eq!((p.current, p.total, p.fetched, p.needs_review), (0, 4, 0, 0));
    assert_eq!(batch.on_lookup(LookupOutcome::Matched { similarity: high() }), BatchReaction::StoreMetadata { needs_review: false });
    assert!(batch.is_storing());
    batch.on_stored(true);
    assert_eq!(batch.on_lookup(LookupOutcome::Matched { similarity: low() }), BatchReaction::StoreMetadata { needs_review: true });
    batch.on_stored(true);
    assert_eq!(batch.on_lookup(LookupOutcome::NotFound), BatchReaction::FlagForReview);
    assert_eq!(batch.on_lookup(LookupOutcome::Matched { similarity: high() }), BatchReaction::StoreMetadata { needs_review: false });
    batch.on_stored(false);
    assert!(batch.is_done());
    assert_eq!(batch.counts(), (2, 2));
    let p = batch.progress();
    assert_eq!((p.current, p.total), (4, 4));
}

#[test]
fn failures_and_rate_limits_skip_the_game() {
    let mut batch = MetadataBatch::new(2);
    assert_eq!(batch.on_lookup(LookupOutcome::RateLimited), BatchReaction::PauseForRateLimit);
    assert_eq!(batch.on_lookup(LookupOutcome::Failed), BatchReaction::Skip);
    assert!(batch.is_done());
    assert_eq!(batch.counts(), (0, 0));
}

#[test]
fn refused_key_aborts_the_batch() {
    let mut batch = MetadataBatch::new(3);
    assert_eq!(batch.on_lookup(LookupOutcome::InvalidApiKey), BatchReaction::Abort(AppError::InvalidApiKey));
    assert_eq!(batch.progress().current, 0);
}

#[test]
fn batch_totals_count_stored_matches_and_misses() {
    let mut batch = MetadataBatch::new(5);
    let run = [
        (LookupOutcome::Matched { similarity: high() }, true),
        (LookupOutcome::NotFound, false),
        (LookupOutcome::Matched { similarity: low() }, true),
        (LookupOutcome::Matched { similarity: low() }, false),
        (LookupOutcome::Failed, false),
    ];
    for (outcome, stored) in run {
        if let BatchReaction::StoreMetadata { .. } = batch.on_lookup(outcome) {
            batch.on_stored(stored);
        }
    }
    assert!(batch.is_done());
    assert_eq!(batch.counts(), (2, 2));
}
