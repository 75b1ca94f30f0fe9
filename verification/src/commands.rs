use vstd::prelude::*;

use crate::chars::{char_is_ascii_alnum, chars_of, is_ascii_alnum, string_of, trim_chars, trimmed, utf8_len};
use crate::cleaning::MAX_QUERY_LEN;
use crate::error::AppError;

verus! {

/// Monthly request limit of RAWG's free plan.
pub const RAWG_FREE_MONTHLY_LIMIT: u64 = 20_000;

/// Highest number of library directories.
pub const MAX_SCAN_DIRS: usize = 20;

/// Highest length of an API key, in bytes.
pub const MAX_API_KEY_LEN: usize = 128;

// ---------------------------------------------------------------------------
// Library directories
// ---------------------------------------------------------------------------

/// Checks that the library, which holds `current_dirs`, has room for one more directory:
/// it holds at most `MAX_SCAN_DIRS`. The directory itself is then checked by
/// `validate_directory`.
pub fn check_scan_dir_room(current_dirs: &[String]) -> (r: Result<(), AppError>)
    ensures
        r is Err <==> current_dirs@.len() >= MAX_SCAN_DIRS,
        r is Err ==> r == Err::<(), AppError>(AppError::TooManyDirectories { max: MAX_SCAN_DIRS }),
{
    if current_dirs.len() >= MAX_SCAN_DIRS {
        return Err(AppError::TooManyDirectories { max: MAX_SCAN_DIRS });
    }
    Ok(())
}

// ---------------------------------------------------------------------------
// The API key
// ---------------------------------------------------------------------------

/// The characters an API key may hold: ASCII letters and digits, `-` and `_`.
pub open spec fn is_api_key_char(c: char) -> bool {
    is_ascii_alnum(c) || c == '-' || c == '_'
}

/// A valid API key: 1 to `MAX_API_KEY_LEN` bytes, allowed characters only
/// (`[A-Za-z0-9_-]{1,128}`).
pub open spec fn is_valid_api_key(key: Seq<char>) -> bool {
    &&& key.len() > 0
    &&& utf8_len(key) <= MAX_API_KEY_LEN
    &&& forall|i: int| 0 <= i < key.len() ==> is_api_key_char(#[trigger] key[i])
}

/// Whether `key` is a valid API key.
pub fn api_key_is_valid(key: &str) -> (b: bool)
    ensures
        b == is_valid_api_key(key@),
{
    if key.is_empty() || key.len() > MAX_API_KEY_LEN {
        return false;
    }
    let cs = chars_of(key);
    let mut i: usize = 0;
    while i < cs.len()
        invariant
            cs@ == key@,
            i <= cs@.len(),
            forall|j: int| 0 <= j < i ==> is_api_key_char(#[trigger] key@[j]),
        decreases cs@.len() - i,
    {
        let c = cs[i];
        if !(char_is_ascii_alnum(c) || c == '-' || c == '_') {
            return false;
        }
        i += 1;
    }
    true
}

/// A valid key has one byte per character.
pub proof fn law_valid_key_is_ascii(key: Seq<char>)
    requires
        is_valid_api_key(key),
    ensures
        vstd::utf8::encode_utf8(key).len() == key.len(),
{
    assert(vstd::utf8::is_ascii_chars(key)) by {
        assert forall|i: int| 0 <= i < key.len() implies '\0' <= #[trigger] key[i] <= '\u{7f}' by {
            assert(is_api_key_char(key[i]));
        }
    }
    vstd::utf8::is_ascii_chars_encode_utf8(key);
}

/// The key the library holds after `set_api_key(key)`, when it held `before`.
pub open spec fn key_after_set(before: Option<Seq<char>>, key: Seq<char>) -> Option<Seq<char>> {
    if is_valid_api_key(key) {
        Some(key)
    } else {
        before
    }
}

/// The RAWG API key of the library, if one is set.
pub struct ApiKeyStore {
    key: Option<String>,
}

impl View for ApiKeyStore {
    type V = Option<Seq<char>>;

    closed spec fn view(&self) -> Option<Seq<char>> {
        match self.key {
            Some(k) => Some(k@),
            None => None,
        }
    }
}

impl ApiKeyStore {
    /// The store holding the key read from the settings at start-up, as it was saved.
    pub fn new(stored: Option<String>) -> (s: Self)
        ensures
            s@ == match stored {
                Some(k) => Some(k@),
                None => None::<Seq<char>>,
            },
    {
        ApiKeyStore { key: stored }
    }

    /// Sets the key. An invalid key, the empty one among them, is refused with
    /// `MissingApiKey` and changes nothing.
    pub fn set_api_key(&mut self, key: String) -> (r: Result<(), AppError>)
        ensures
            r is Ok <==> is_valid_api_key(key@),
            r is Err ==> r == Err::<(), AppError>(AppError::MissingApiKey),
            final(self)@ == key_after_set(old(self)@, key@),
    {
        if !api_key_is_valid(key.as_str()) {
            return Err(AppError::MissingApiKey);
        }
        self.key = Some(key);
        Ok(())
    }

    /// Whether a key is set.
    pub fn has_api_key(&self) -> (b: bool)
        ensures
            b == self@ is Some,
    {
        self.key.is_some()
    }

    /// The key, or `MissingApiKey` when none is set.
    pub fn api_key(&self) -> (r: Result<String, AppError>)
        ensures
            match self@ {
                Some(k) => r matches Ok(s) && s@ == k,
                None => r == Err::<String, AppError>(AppError::MissingApiKey),
            },
    {
        match &self.key {
            Some(k) => Ok(k.clone()),
            None => Err(AppError::MissingApiKey),
        }
    }
}

/// What one reads back of a write: after a valid key is set the store holds it; an invalid
/// key (the empty one too) leaves the store as it was; setting a key twice is setting it once.
pub proof fn law_key_read_after_write(before: Option<Seq<char>>, key: Seq<char>)
    ensures
        is_valid_api_key(key) ==> key_after_set(before, key) == Some(key),
        !is_valid_api_key(key) ==> key_after_set(before, key) == before,
        key_after_set(key_after_set(before, key), key) == key_after_set(before, key),
{
}

/// Whether a key is worth a test request: it is valid.
pub fn key_worth_testing(key: &str) -> (b: bool)
    ensures
        b == is_valid_api_key(key@),
{
    api_key_is_valid(key)
}

/// What RAWG's answer to a test request says of the key: 200 accepts it, 401 and 403
/// refuse it, 429 is a rate limit, anything else an unexpected answer.
pub open spec fn key_test_verdict(code: u16) -> Result<bool, AppError> {
    if code == 200 {
        Ok(true)
    } else if code == 401 || code == 403 {
        Ok(false)
    } else if code == 429 {
        Err(AppError::RateLimited)
    } else {
        Err(AppError::UnexpectedApiResponse(code))
    }
}

/// Reads RAWG's answer to a test request.
pub fn interpret_key_test(code: u16) -> (r: Result<bool, AppError>)
    ensures
        r == key_test_verdict(code),
{
    if code == 200 {
        Ok(true)
    } else if code == 401 || code == 403 {
        Ok(false)
    } else if code == 429 {
        Err(AppError::RateLimited)
    } else {
        Err(AppError::UnexpectedApiResponse(code))
    }
}

// ---------------------------------------------------------------------------
// Manual search
// ---------------------------------------------------------------------------

/// Prepares the text that the user typed for a candidate search: trimmed, and at most
/// `MAX_QUERY_LEN` bytes.
pub fn prepare_search_query(query: &str) -> (r: Result<String, AppError>)
    ensures
        utf8_len(trimmed(query@)) > MAX_QUERY_LEN ==> r == Err::<String, AppError>(
            AppError::QueryTooLong,
        ),
        utf8_len(trimmed(query@)) <= MAX_QUERY_LEN ==> (r matches Ok(q) && q@ == trimmed(query@)),
{
    let cs = chars_of(query);
    let t = trim_chars(&cs);
    let q = string_of(&t);
    if q.as_str().len() > MAX_QUERY_LEN {
        Err(AppError::QueryTooLong)
    } else {
        Ok(q)
    }
}

// ---------------------------------------------------------------------------
// Request accounting
// ---------------------------------------------------------------------------

/// `used + requests`, wrapping around as the counter's `u64` does.
pub open spec fn counted(used: u64, requests: u64) -> u64 {
    if used + requests > u64::MAX {
        (used + requests - 0x1_0000_0000_0000_0000) as u64
    } else {
        (used + requests) as u64
    }
}

/// How many requests the library has sent to RAWG since it started.
pub struct ApiUsage {
    used: u64,
}

impl View for ApiUsage {
    type V = u64;

    closed spec fn view(&self) -> u64 {
        self.used
    }
}

impl ApiUsage {
    /// No request yet.
    pub fn new() -> (u: Self)
        ensures
            u@ == 0,
    {
        ApiUsage { used: 0 }
    }

    /// Counts `requests` more requests.
    pub fn record(&mut self, requests: u64)
        ensures
            final(self)@ == counted(old(self)@, requests),
    {
        self.used = self.used.wrapping_add(requests);
    }

    /// The requests counted so far.
    pub fn used(&self) -> (n: u64)
        ensures
            n == self@,
    {
        self.used
    }
}

/// Counting `a` requests, then `b` more, counts what counting them at once would (the
/// counter wraps around as its `u64` does).
pub proof fn law_counts_add_up(u: u64, a: u64, b: u64)
    ensures
        counted(counted(u, a), b) == counted(u, counted(a, b)),
{
}

/// The counter after `n` single requests from `u`.
pub open spec fn counted_one_by_one(u: u64, n: nat) -> u64
    decreases n,
{
    if n == 0 {
        u
    } else {
        counted(counted_one_by_one(u, (n - 1) as nat), 1)
    }
}

/// Counting `n` requests one by one counts `n`: the statistics grow by the number of
/// requests sent.
pub proof fn law_counter_counts_each_request(u: u64, n: u64)
    ensures
        counted_one_by_one(u, n as nat) == counted(u, n),
    decreases n,
{
    if n > 0 {
        law_counter_counts_each_request(u, (n - 1) as u64);
        law_counts_add_up(u, (n - 1) as u64, 1);
    }
}

/// The request statistics: (requests since start-up, monthly limit of the free plan).
pub fn get_api_stats(usage: &ApiUsage) -> (r: (u64, u64))
    ensures
        r == (usage@, RAWG_FREE_MONTHLY_LIMIT),
{
    (usage.used(), RAWG_FREE_MONTHLY_LIMIT)
}


/// Every ASCII letter and digit, `-` and `_` may stand in a key, and nothing else: every key
/// of 1 to 128 such characters is valid (and is then stored by `set_api_key`), and a valid key
/// holds no other character.
pub proof fn law_key_alphabet(key: Seq<char>)
    ensures
        forall|c: char|
            ('a' <= c <= 'z' || 'A' <= c <= 'Z' || '0' <= c <= '9' || c == '-' || c == '_')
                <==> #[trigger] is_api_key_char(c),
        0 < key.len() <= 128 && (forall|i: int|
            0 <= i < key.len() ==> ({
                let c = #[trigger] key[i];
                'a' <= c <= 'z' || 'A' <= c <= 'Z' || '0' <= c <= '9' || c == '-' || c == '_'
            })) ==> is_valid_api_key(key) && key_after_set(None, key) == Some(key),
{
    if 0 < key.len() <= 128 && (forall|i: int|
        0 <= i < key.len() ==> ({
            let c = #[trigger] key[i];
            'a' <= c <= 'z' || 'A' <= c <= 'Z' || '0' <= c <= '9' || c == '-' || c == '_'
        })) {
        assert forall|i: int| 0 <= i < key.len() implies is_api_key_char(#[trigger] key[i]) by {}
        assert(vstd::utf8::is_ascii_chars(key)) by {
            assert forall|i: int| 0 <= i < key.len() implies '\0' <= #[trigger] key[i] <= '\u{7f}' by {
                assert(is_api_key_char(key[i]));
            }
        }
        vstd::utf8::is_ascii_chars_encode_utf8(key);
    }
}

} // verus!
