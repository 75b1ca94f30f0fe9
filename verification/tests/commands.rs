use iso_library::commands::{
    check_scan_dir_room, get_api_stats, interpret_key_test, key_worth_testing, prepare_search_query,
    ApiKeyStore, ApiUsage, MAX_SCAN_DIRS, RAWG_FREE_MONTHLY_LIMIT,
};
use iso_library::error::AppError;

#[test]
fn at_most_twenty_directories() {
    let dirs: Vec<String> = (0..MAX_SCAN_DIRS).map(|i| format!("/d{}", i)).collect();
    assert_eq!(check_scan_dir_room(&dirs), Err(AppError::TooManyDirectories { max: 20 }));
    assert_eq!(check_scan_dir_room(&dirs[..19]), Ok(()));
    assert_eq!(check_scan_dir_room(&[]), Ok(()));
}

#[test]
fn key_is_read_back_after_it_is_set() {
    let mut store = ApiKeyStore::new(None);
    assert!(!store.has_api_key());
    assert_eq!(store.api_key(), Err(AppError::MissingApiKey));
    assert_eq!(store.set_api_key("abc-DEF_123".to_string()), Ok(()));
    assert!(store.has_api_key());
    assert_eq!(store.api_key(), Ok("abc-DEF_123".to_string()));
}

#[test]
fn empty_key_is_refused_and_changes_nothing() {
    let mut store = ApiKeyStore::new(Some("old".to_string()));
    assert_eq!(store.set_api_key(String::new()), Err(AppError::MissingApiKey));
    assert_eq!(store.api_key(), Ok("old".to_string()));
    let mut empty = ApiKeyStore::new(None);
    assert_eq!(empty.set_api_key(String::new()), Err(AppError::MissingApiKey));
    assert!(!empty.has_api_key());
}

#[test]
fn malformed_key_is_refused_and_changes_nothing() {
    let mut store = ApiKeyStore::new(Some("old".to_string()));
    assert_eq!(store.set_api_key("bad key".to_string()), Err(AppError::MissingApiKey));
    assert_eq!(store.set_api_key("clé".to_string()), Err(AppError::MissingApiKey));
    assert_eq!(store.set_api_key("a".repeat(129)), Err(AppError::MissingApiKey));
    assert_eq!(store.api_key(), Ok("old".to_string()));
    assert_eq!(store.set_api_key("a".repeat(128)), Ok(()));
}

#[test]
fn only_shaped_keys_are_worth_testing() {
    assert!(key_worth_testing("abc123"));
    assert!(!key_worth_testing(""));
    assert!(!key_worth_testing("a b"));
    assert!(!key_worth_testing(&"x".repeat(129)));
}

#[test]
fn key_test_answers() {
    assert_eq!(interpret_key_test(200), Ok(true));
    assert_eq!(interpret_key_test(401), Ok(false));
    assert_eq!(interpret_key_test(403), Ok(false));
    assert_eq!(interpret_key_test(429), Err(AppError::RateLimited));
    assert_eq!(interpret_key_test(502), Err(AppError::UnexpectedApiResponse(502)));
}

#[test]
fn search_query_is_trimmed_and_bounded_in_bytes() {
    assert_eq!(prepare_search_query("  Halo 3 \n"), Ok("Halo 3".to_string()));
    assert_eq!(prepare_search_query(&format!("  {}  ", "a".repeat(100))), Ok("a".repeat(100)));
    assert_eq!(prepare_search_query(&"a".repeat(101)), Err(AppError::QueryTooLong));
    assert_eq!(prepare_search_query(&"é".repeat(51)), Err(AppError::QueryTooLong));
    assert_eq!(prepare_search_query("\u{3000}"), Ok(String::new()));
}

#[test]
fn request_counter_counts_and_wraps() {
    let mut usage = ApiUsage::new();
    assert_eq!(get_api_stats(&usage), (0, RAWG_FREE_MONTHLY_LIMIT));
    usage.record(2);
    usage.record(1);
    assert_eq!(get_api_stats(&usage), (3, 20_000));
    usage.record(u64::MAX);
    assert_eq!(usage.used(), 2);
}

#[test]
fn search_query_trims_as_str_trim_does() {
    let alphabet: Vec<char> = "a \t\n\u{85}\u{a0}\u{2009}\u{3000}é-".chars().collect();
    let mut x: u64 = 99;
    for _ in 0..5000 {
        x = x.wrapping_mul(6364136223846793005).wrapping_add(1442695040888963407);
        let len = (x >> 59) as usize;
        let mut s = String::new();
        let mut y = x;
        for _ in 0..len {
            y = y.wrapping_mul(6364136223846793005).wrapping_add(1442695040888963407);
            s.push(alphabet[((y >> 33) as usize) % alphabet.len()]);
        }
        assert_eq!(prepare_search_query(&s), Ok(s.trim().to_string()), "{:?}", s);
    }
}

#[test]
fn shaped_key_has_one_byte_per_character() {
    let key = "Az09-_".repeat(21);
    assert_eq!(key.len(), key.chars().count());
    assert!(key_worth_testing(&key[..126]));
}
