use iso_library::error::AppError;
use iso_library::rawg::{
    check_details_request, check_response_status, check_search_request, needs_review,
    pick_auto_match, rank_candidates, AUTO_ACCEPT_THRESHOLD_BITS, MAX_CANDIDATES,
};

fn bits(scores: &[f64]) -> Vec<u64> {
    scores.iter().map(|s| s.to_bits()).collect()
}

/// The ranking as written with floats: a stable sort by decreasing score, then the first five.
fn reference_ranking(scores: &[f64]) -> Vec<usize> {
    let mut idx: Vec<usize> = (0..scores.len()).collect();
    idx.sort_by(|a, b| scores[*b].partial_cmp(&scores[*a]).unwrap_or(std::cmp::Ordering::Equal));
    idx.truncate(5);
    idx
}

#[test]
fn threshold_is_the_bit_pattern_of_085() {
    assert_eq!(AUTO_ACCEPT_THRESHOLD_BITS, 0.85f64.to_bits());
}

#[test]
fn review_is_needed_below_085() {
    assert!(needs_review(0.84f64.to_bits()));
    assert!(needs_review(0.0f64.to_bits()));
    assert!(!needs_review(0.85f64.to_bits()));
    assert!(!needs_review(1.0f64.to_bits()));
}

#[test]
fn status_codes_map_to_errors() {
    assert_eq!(check_response_status(200), Ok(()));
    assert_eq!(check_response_status(401), Err(AppError::InvalidApiKey));
    assert_eq!(check_response_status(429), Err(AppError::RateLimited));
    assert_eq!(check_response_status(403), Err(AppError::UnexpectedApiResponse(403)));
    assert_eq!(check_response_status(500), Err(AppError::UnexpectedApiResponse(500)));
}

#[test]
fn search_request_checks_length_in_bytes_then_key() {
    assert_eq!(check_search_request(&"a".repeat(100), "k"), Ok(()));
    assert_eq!(check_search_request(&"a".repeat(101), "k"), Err(AppError::QueryTooLong));
    assert_eq!(check_search_request(&"é".repeat(51), "k"), Err(AppError::QueryTooLong));
    assert_eq!(check_search_request(&"é".repeat(50), ""), Err(AppError::MissingApiKey));
    assert_eq!(check_search_request(&"a".repeat(101), ""), Err(AppError::QueryTooLong));
    assert_eq!(check_details_request(""), Err(AppError::MissingApiKey));
    assert_eq!(check_details_request("key"), Ok(()));
}

#[test]
fn ranking_keeps_five_best_in_stable_order() {
    let scores = [0.5, 0.9, 0.7, 0.9, 0.1, 0.8, 0.6, 0.95];
    assert_eq!(rank_candidates(&bits(&scores)), vec![7, 1, 3, 5, 2]);
    assert_eq!(rank_candidates(&[]), Vec::<usize>::new());
    assert_eq!(rank_candidates(&bits(&[0.3, 0.3])), vec![0, 1]);
    assert_eq!(MAX_CANDIDATES, 5);
}

#[test]
fn ranking_agrees_with_sorting_floats() {
    let mut seed: u64 = 7;
    for round in 0..2000 {
        seed = seed.wrapping_mul(6364136223846793005).wrapping_add(1442695040888963407);
        let n = (seed >> 60) as usize;
        let mut scores = Vec::new();
        for k in 0..n {
            let x = seed.rotate_left((7 * k + round % 13) as u32);
            scores.push(((x % 11) as f64) / 10.0);
        }
        assert_eq!(rank_candidates(&bits(&scores)), reference_ranking(&scores), "{:?}", scores);
    }
}

#[test]
fn automatic_match_takes_the_best_above_threshold() {
    assert_eq!(pick_auto_match(&bits(&[0.5, 0.9, 0.95, 0.95])), Some(2));
    assert_eq!(pick_auto_match(&bits(&[0.5, 0.84])), None);
    assert_eq!(pick_auto_match(&[]), None);
    assert_eq!(pick_auto_match(&bits(&[0.85])), Some(0));
}

#[test]
fn long_accented_search_name_is_too_long_for_a_request() {
    let name = iso_library::rawg::clean_filename_for_search(&format!("{}.iso", "é".repeat(120)));
    assert_eq!(name.chars().count(), 100);
    assert_eq!(check_search_request(&name, "k"), Err(AppError::QueryTooLong));
    let ascii = iso_library::rawg::clean_filename_for_search(&format!("{}.iso", "e".repeat(120)));
    assert_eq!(check_search_request(&ascii, "k"), Ok(()));
}
