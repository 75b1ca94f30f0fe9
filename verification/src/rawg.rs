use vstd::prelude::*;

use crate::error::AppError;

pub use crate::cleaning::{clean_filename_for_search, MAX_QUERY_LEN};

verus! {

/// Delay between two requests of a metadata batch, in milliseconds.
pub const RATE_LIMIT_DELAY_MS: u64 = 200;

/// Timeout of one request to RAWG, in seconds.
pub const REQUEST_TIMEOUT_SECS: u64 = 10;

/// Pause after RAWG answered 429, in seconds.
pub const RATE_LIMIT_PAUSE_SECS: u64 = 5;

/// How many results a candidate search asks RAWG for.
pub const SEARCH_PAGE_SIZE: usize = 10;

/// How many candidates a search keeps.
pub const MAX_CANDIDATES: usize = 5;

/// The confidence threshold 0.85 below which a match needs a manual review.
///
/// Similarity scores lie in [0, 1] and are carried as the bit pattern of their `f64`
/// (`f64::to_bits`); for numbers that are not negative the bit patterns order exactly
/// as the numbers do, so this is the bit pattern of 0.85.
pub const AUTO_ACCEPT_THRESHOLD_BITS: u64 = 0x3FEB_3333_3333_3333;

/// A match whose similarity is below the threshold needs a manual review.
pub fn needs_review(similarity: u64) -> (b: bool)
    ensures
        b == (similarity < AUTO_ACCEPT_THRESHOLD_BITS),
{
    similarity < AUTO_ACCEPT_THRESHOLD_BITS
}

/// What RAWG's HTTP status means: 200 goes on, 401 is a refused key, 429 a rate limit,
/// anything else an unexpected answer.
pub open spec fn status_verdict(code: u16) -> Result<(), AppError> {
    if code == 200 {
        Ok(())
    } else if code == 401 {
        Err(AppError::InvalidApiKey)
    } else if code == 429 {
        Err(AppError::RateLimited)
    } else {
        Err(AppError::UnexpectedApiResponse(code))
    }
}

/// Checks RAWG's HTTP status.
pub fn check_response_status(code: u16) -> (r: Result<(), AppError>)
    ensures
        r == status_verdict(code),
{
    if code == 200 {
        Ok(())
    } else if code == 401 {
        Err(AppError::InvalidApiKey)
    } else if code == 429 {
        Err(AppError::RateLimited)
    } else {
        Err(AppError::UnexpectedApiResponse(code))
    }
}

/// Checks a candidate search before it is sent: the query holds at most `MAX_QUERY_LEN`
/// bytes, and there is a key.
pub fn check_search_request(query: &str, api_key: &str) -> (r: Result<(), AppError>)
    ensures
        r == if query.len() > MAX_QUERY_LEN {
            Err(AppError::QueryTooLong)
        } else if api_key@.len() == 0 {
            Err(AppError::MissingApiKey)
        } else {
            Ok(())
        },
{
    if query.len() > MAX_QUERY_LEN {
        Err(AppError::QueryTooLong)
    } else if api_key.is_empty() {
        Err(AppError::MissingApiKey)
    } else {
        Ok(())
    }
}

/// Checks a request for a game's details before it is sent: there is a key.
pub fn check_details_request(api_key: &str) -> (r: Result<(), AppError>)
    ensures
        r == if api_key@.len() == 0 {
            Err(AppError::MissingApiKey)
        } else {
            Ok(())
        },
{
    if api_key.is_empty() {
        Err(AppError::MissingApiKey)
    } else {
        Ok(())
    }
}

// ---------------------------------------------------------------------------
// Ranking of the candidates
// ---------------------------------------------------------------------------

/// Candidate `a` ranks before candidate `b`: a higher similarity, or the same one and an
/// earlier place among RAWG's results (the sort is stable).
pub open spec fn ranks_before(sims: Seq<u64>, a: int, b: int) -> bool {
    sims[a] > sims[b] || (sims[a] == sims[b] && a < b)
}

/// How many candidates a search over `n` results keeps.
pub open spec fn kept_count(n: nat) -> nat {
    if n < MAX_CANDIDATES {
        n
    } else {
        MAX_CANDIDATES as nat
    }
}

/// `order` lists the best candidates, best first: the first `kept_count` of the results
/// sorted by decreasing similarity, ties in RAWG's order.
pub open spec fn is_ranking(sims: Seq<u64>, order: Seq<usize>) -> bool {
    &&& order.len() == kept_count(sims.len())
    &&& forall|i: int| 0 <= i < order.len() ==> #[trigger] order[i] < sims.len()
    &&& forall|i: int, j: int|
        0 <= i < j < order.len() ==> ranks_before(sims, #[trigger] order[i] as int, #[trigger] order[j] as int)
    &&& forall|c: int, i: int|
        #![trigger order[i], sims[c]]
        0 <= c < sims.len() && !order.contains(c as usize) && 0 <= i < order.len() ==> ranks_before(
            sims,
            order[i] as int,
            c,
        )
}

/// Ranks search results by similarity: the positions of the (at most `MAX_CANDIDATES`)
/// best results, best first.
pub fn rank_candidates(similarities: &[u64]) -> (order: Vec<usize>)
    ensures
        is_ranking(similarities@, order@),
{
    let n = similarities.len();
    let ghost sims = similarities@;
    let keep = if n < MAX_CANDIDATES {
        n
    } else {
        MAX_CANDIDATES
    };
    let mut chosen: Vec<bool> = Vec::new();
    let mut i: usize = 0;
    while i < n
        invariant
            i <= n,
            chosen@.len() == i,
            forall|c: int| 0 <= c < i ==> !chosen@[c],
        decreases n - i,
    {
        chosen.push(false);
        i += 1;
    }
    let mut order: Vec<usize> = Vec::new();
    while order.len() < keep
        invariant
            n == sims.len(),
            similarities@ == sims,
            keep == kept_count(n as nat),
            order@.len() <= keep,
            chosen@.len() == n,
            forall|c: int| 0 <= c < n ==> (chosen@[c] <==> order@.contains(c as usize)),
            forall|i: int| 0 <= i < order@.len() ==> #[trigger] order@[i] < n,
            forall|i: int, j: int|
                0 <= i < j < order@.len() ==> ranks_before(sims, #[trigger] order@[i] as int, #[trigger] order@[j] as int),
            forall|c: int, i: int|
                #![trigger order@[i], chosen@[c]]
                0 <= c < n && !chosen@[c] && 0 <= i < order@.len() ==> ranks_before(
                    sims,
                    order@[i] as int,
                    c,
                ),
        decreases keep - order@.len(),
    {
        // There is an unchosen result, since fewer than `keep <= n` are chosen.
        proof {
            if forall|c: int| 0 <= c < n ==> chosen@[c] {
                assert forall|c: usize| c < n implies order@.contains(c) by {
                    assert(chosen@[c as int]);
                }
                lemma_covering_is_long(order@, n);
            }
        }
        let mut best: usize = n;
        let mut c: usize = 0;
        while c < n
            invariant
                n == sims.len(),
                similarities@ == sims,
                chosen@.len() == n,
                c <= n,
                best == n || (best < c && !chosen@[best as int]),
                best < n ==> forall|d: int|
                    0 <= d < c && !chosen@[d] ==> d == best || ranks_before(sims, best as int, d),
                best == n ==> forall|d: int| 0 <= d < c ==> chosen@[d],
            decreases n - c,
        {
            if !chosen[c] {
                if best == n || similarities[c] > similarities[best] {
                    best = c;
                }
            }
            c += 1;
        }
        assert(best < n) by {
            if best == n {
                let u = choose|u: int| 0 <= u < n && !chosen@[u];
            }
        }
        let ghost old_order = order@;
        order.push(best);
        chosen.set(best, true);
        assert forall|c2: int| 0 <= c2 < n implies (chosen@[c2] <==> order@.contains(c2 as usize)) by {
            if c2 == best {
                assert(order@[order@.len() - 1] == best);
            } else if order@.contains(c2 as usize) {
                let k = choose|k: int| 0 <= k < order@.len() && order@[k] == c2 as usize;
                assert(k < old_order.len());
                assert(old_order.contains(c2 as usize));
            } else {
                assert(!old_order.contains(c2 as usize)) by {
                    if old_order.contains(c2 as usize) {
                        let k = choose|k: int| 0 <= k < old_order.len() && old_order[k] == c2 as usize;
                        assert(order@[k] == c2 as usize);
                    }
                }
            }
        }
    }
    assert forall|c: int, i: int|
        0 <= c < n && !order@.contains(c as usize) && 0 <= i < order@.len() implies ranks_before(
        sims,
        order@[i] as int,
        c,
    ) by {
        assert(!chosen@[c]);
    }
    order
}

/// A sequence of positions below `n` that holds every one of them is at least `n` long.
proof fn lemma_covering_is_long(order: Seq<usize>, n: usize)
    requires
        forall|c: usize| c < n ==> order.contains(c),
    ensures
        order.len() >= n,
{
    broadcast use vstd::seq_lib::seq_to_set_is_finite;

    let all = vstd::set_lib::set_int_range(0, n as int);
    vstd::set_lib::lemma_int_range(0, n as int);
    let f = |x: usize| x as int;
    let seen = order.to_set().map(f);
    assert forall|c: int| all.contains(c) implies seen.contains(c) by {
        assert(order.contains(c as usize));
        assert(order.to_set().contains(c as usize));
        assert(f(c as usize) == c);
    }
    order.lemma_cardinality_of_set();
    vstd::set_lib::lemma_map_size_bound(order.to_set(), seen, f);
    vstd::set_lib::lemma_len_subset(all, seen);
}

/// Result `i` ranks before every other result.
pub open spec fn is_best_candidate(sims: Seq<u64>, i: int) -> bool {
    &&& 0 <= i < sims.len()
    &&& forall|c: int| 0 <= c < sims.len() && c != i ==> ranks_before(sims, i, c)
}

/// The automatic choice of a batch: the best search result, unless its similarity is below
/// the threshold (or there is no result), in which case the game is left for a manual review.
pub fn pick_auto_match(similarities: &[u64]) -> (r: Option<usize>)
    ensures
        match r {
            Some(i) => is_best_candidate(similarities@, i as int) && similarities@[i as int]
                >= AUTO_ACCEPT_THRESHOLD_BITS,
            None => forall|c: int|
                0 <= c < similarities@.len() ==> similarities@[c] < AUTO_ACCEPT_THRESHOLD_BITS,
        },
{
    let ghost sims = similarities@;
    let order = rank_candidates(similarities);
    if order.len() == 0 {
        None
    } else {
        let b = order[0];
        assert forall|c: int| 0 <= c < sims.len() && c != b implies ranks_before(sims, b as int, c) by {
            assert(sims.len() == similarities.len());
            assert((c as usize) as int == c);
            if order@.contains(c as usize) {
                let k = choose|k: int| 0 <= k < order@.len() && order@[k] == c as usize;
                assert(k != 0);
                assert(ranks_before(sims, order@[0] as int, order@[k] as int));
            } else {
                assert(sims[c] == sims[c]);
                assert(ranks_before(sims, order@[0] as int, c));
            }
        }
        if needs_review(similarities[b]) {
            None
        } else {
            Some(b)
        }
    }
}

} // verus!
