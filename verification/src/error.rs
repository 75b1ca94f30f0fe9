use vstd::prelude::*;

use crate::chars::{chars_of, decimal, push_decimal, string_of};

verus! {

/// The errors of the library. The first three carry the message of the failure that the
/// database, the network or the JSON encoder reported; a network failure is built with
/// `network_error`, which masks the API key in it.
#[derive(Debug, Clone, PartialEq, Eq)]
pub enum AppError {
    Database(String),
    Network(String),
    Serialization(String),
    InvalidDirectory,
    ForbiddenPath(String),
    MissingApiKey,
    InvalidApiKey,
    RateLimited,
    UnexpectedApiResponse(u16),
    TooManyDirectories { max: usize },
    QueryTooLong,
}

/// The message shown to the user (and written to the log) for an error.
pub open spec fn error_message(e: AppError) -> Seq<char> {
    match e {
        AppError::Database(m) => "Erreur base de données: "@ + m@,
        AppError::Network(m) => "Erreur réseau: "@ + m@,
        AppError::Serialization(m) => "Erreur de sérialisation: "@ + m@,
        AppError::InvalidDirectory => "Répertoire invalide ou inaccessible"@,
        AppError::ForbiddenPath(m) => "Chemin interdit: "@ + m@,
        AppError::MissingApiKey => "Clé API manquante - veuillez la configurer dans les paramètres"@,
        AppError::InvalidApiKey => "Clé API invalide (réponse 401 de RAWG)"@,
        AppError::RateLimited => "Limite de taux RAWG atteinte, réessayez dans quelques secondes"@,
        AppError::UnexpectedApiResponse(code) => "Réponse RAWG inattendue: code "@ + decimal(
            code as nat,
        ),
        AppError::TooManyDirectories { max } => "Trop de répertoires configurés (max "@ + decimal(
            max as nat,
        ) + ")"@,
        AppError::QueryTooLong => "Nom de jeu trop long pour la recherche"@,
    }
}

impl AppError {
    /// The message shown to the user for this error.
    pub fn message(&self) -> (r: String)
        ensures
            r@ == error_message(*self),
    {
        match self {
            AppError::Database(m) => {
                let mut r = String::from_str("Erreur base de données: ");
                r.append(m.as_str());
                r
            },
            AppError::Network(m) => {
                let mut r = String::from_str("Erreur réseau: ");
                r.append(m.as_str());
                r
            },
            AppError::Serialization(m) => {
                let mut r = String::from_str("Erreur de sérialisation: ");
                r.append(m.as_str());
                r
            },
            AppError::InvalidDirectory => String::from_str("Répertoire invalide ou inaccessible"),
            AppError::ForbiddenPath(m) => {
                let mut r = String::from_str("Chemin interdit: ");
                r.append(m.as_str());
                r
            },
            AppError::MissingApiKey => String::from_str(
                "Clé API manquante - veuillez la configurer dans les paramètres",
            ),
            AppError::InvalidApiKey => String::from_str("Clé API invalide (réponse 401 de RAWG)"),
            AppError::RateLimited => String::from_str(
                "Limite de taux RAWG atteinte, réessayez dans quelques secondes",
            ),
            AppError::UnexpectedApiResponse(code) => {
                let mut r = String::from_str("Réponse RAWG inattendue: code ");
                push_decimal(&mut r, *code as u64);
                r
            },
            AppError::TooManyDirectories { max } => {
                let mut r = String::from_str("Trop de répertoires configurés (max ");
                push_decimal(&mut r, *max as u64);
                r.append(")");
                r
            },
            AppError::QueryTooLong => String::from_str("Nom de jeu trop long pour la recherche"),
        }
    }
}


// ---------------------------------------------------------------------------
// Masking the API key
// ---------------------------------------------------------------------------

/// `k` occurs in `s` at position `i`.
pub open spec fn occurs_at(s: Seq<char>, k: Seq<char>, i: int) -> bool {
    0 <= i && i + k.len() <= s.len() && s.subrange(i, i + k.len()) == k
}

/// `k` occurs somewhere in `s`.
pub open spec fn contains_text(s: Seq<char>, k: Seq<char>) -> bool {
    exists|i: int| occurs_at(s, k, i)
}

/// The mask that replaces a secret.
pub open spec fn mask() -> Seq<char> {
    seq!['*', '*', '*']
}

/// `s` with each occurrence of `k`, read from left to right, replaced by `***`.
pub open spec fn redacted(s: Seq<char>, k: Seq<char>) -> Seq<char>
    decreases s.len(),
{
    if k.len() == 0 || s.len() == 0 {
        s
    } else if occurs_at(s, k, 0) {
        mask() + redacted(s.skip(k.len() as int), k)
    } else {
        seq![s[0]] + redacted(s.drop_first(), k)
    }
}

/// Whether `k` occurs in `s` at position `i`.
fn occurs_in_at(s: &[char], k: &[char], i: usize) -> (b: bool)
    ensures
        b == occurs_at(s@, k@, i as int),
{
    if i > s.len() || k.len() > s.len() - i {
        return false;
    }
    let mut j: usize = 0;
    while j < k.len()
        invariant
            i + k@.len() <= s@.len(),
            s@.len() <= usize::MAX,
            j <= k@.len(),
            forall|m: int| 0 <= m < j ==> s@[i + m] == k@[m],
        decreases k@.len() - j,
    {
        if s[i + j] != k[j] {
            assert(s@.subrange(i as int, i + k@.len())[j as int] != k@[j as int]);
            return false;
        }
        j += 1;
    }
    assert(s@.subrange(i as int, i + k@.len()) =~= k@);
    true
}

/// `text` with each occurrence of `secret` replaced by `***`.
pub fn redact(text: &str, secret: &str) -> (r: String)
    ensures
        r@ == redacted(text@, secret@),
{
    let s = chars_of(text);
    let k = chars_of(secret);
    let n = s.len();
    let mut out: Vec<char> = Vec::new();
    if k.len() == 0 {
        return string_of(&s);
    }
    let mut i: usize = 0;
    assert(s@.skip(0) =~= s@);
    assert(out@ + redacted(s@, k@) =~= redacted(s@, k@));
    while i < n
        invariant
            n == s@.len(),
            k@.len() > 0,
            i <= n,
            redacted(s@, k@) == out@ + redacted(s@.skip(i as int), k@),
        decreases n - i,
    {
        let ghost t = s@.skip(i as int);
        if occurs_in_at(&s, &k, i) {
            assert(t.subrange(0, k@.len() as int) =~= s@.subrange(i as int, i + k@.len()));
            assert(t.skip(k@.len() as int) =~= s@.skip(i + k@.len()));
            let ghost before = out@;
            out.push('*');
            out.push('*');
            out.push('*');
            assert(out@ =~= before + mask());
            i += k.len();
            assert(out@ + redacted(s@.skip(i as int), k@) =~= before + (mask() + redacted(
                s@.skip(i as int),
                k@,
            )));
        } else {
            assert(!occurs_at(t, k@, 0)) by {
                if occurs_at(t, k@, 0) {
                    assert(t.subrange(0, k@.len() as int) =~= s@.subrange(i as int, i + k@.len()));
                }
            }
            assert(t[0] == s@[i as int]);
            assert(t.drop_first() =~= s@.skip(i + 1));
            let ghost before = out@;
            out.push(s[i]);
            i += 1;
            assert(out@ + redacted(s@.skip(i as int), k@) =~= before + (seq![s@[i - 1]]
                + redacted(s@.skip(i as int), k@)));
        }
    }
    assert(s@.skip(n as int) =~= Seq::<char>::empty());
    assert(out@ + Seq::<char>::empty() =~= out@);
    string_of(&out)
}

/// A network failure, told without the API key: each occurrence of `api_key` in what the
/// HTTP client reported (its messages name the request's address, key included) is masked.
pub fn network_error(detail: &str, api_key: &str) -> (e: AppError)
    ensures
        e matches AppError::Network(m) && m@ == redacted(detail@, api_key@),
{
    AppError::Network(redact(detail, api_key))
}

/// A prefix of the masked text that holds no `*` is the same prefix of the text.
proof fn lemma_redacted_prefix(t: Seq<char>, k: Seq<char>, m: int)
    requires
        k.len() > 0,
        0 <= m <= redacted(t, k).len(),
        forall|q: int| 0 <= q < m ==> redacted(t, k)[q] != '*',
    ensures
        m <= t.len(),
        redacted(t, k).subrange(0, m) == t.subrange(0, m),
    decreases t.len(),
{
    let r = redacted(t, k);
    if m == 0 {
        assert(r.subrange(0, 0) =~= t.subrange(0, 0));
    } else if t.len() == 0 {
    } else if occurs_at(t, k, 0) {
        assert(r[0] == '*');
    } else {
        let r2 = redacted(t.drop_first(), k);
        assert(r == seq![t[0]] + r2);
        assert forall|q: int| 0 <= q < m - 1 implies r2[q] != '*' by {
            assert(r[q + 1] == r2[q]);
        }
        lemma_redacted_prefix(t.drop_first(), k, m - 1);
        assert(r.subrange(0, m) =~= seq![t[0]] + r2.subrange(0, m - 1));
        assert(t.subrange(0, m) =~= seq![t[0]] + t.drop_first().subrange(0, m - 1));
    }
}

/// A secret without `*` never occurs in a text once it is masked.
pub proof fn law_redacted_hides_secret(s: Seq<char>, k: Seq<char>)
    requires
        k.len() > 0,
        forall|q: int| 0 <= q < k.len() ==> #[trigger] k[q] != '*',
    ensures
        !contains_text(redacted(s, k), k),
    decreases s.len(),
{
    let r = redacted(s, k);
    if s.len() == 0 {
        assert forall|i: int| !occurs_at(r, k, i) by {}
    } else if occurs_at(s, k, 0) {
        let t = s.skip(k.len() as int);
        law_redacted_hides_secret(t, k);
        let r2 = redacted(t, k);
        assert(r == mask() + r2);
        assert forall|i: int| !occurs_at(r, k, i) by {
            if occurs_at(r, k, i) {
                if i < 3 {
                    assert(r.subrange(i, i + k.len())[0] == r[i]);
                    assert(k[0] == '*');
                } else {
                    assert(r2.subrange(i - 3, i - 3 + k.len()) =~= r.subrange(i, i + k.len()));
                    assert(occurs_at(r2, k, i - 3));
                }
            }
        }
    } else {
        let t = s.drop_first();
        law_redacted_hides_secret(t, k);
        let r2 = redacted(t, k);
        assert(r == seq![s[0]] + r2);
        assert forall|i: int| !occurs_at(r, k, i) by {
            if occurs_at(r, k, i) {
                if i == 0 {
                    let m = k.len() - 1;
                    assert forall|q: int| 0 <= q < m implies r2[q] != '*' by {
                        assert(r2[q] == r[q + 1]);
                        assert(r.subrange(0, k.len() as int)[q + 1] == k[q + 1]);
                    }
                    lemma_redacted_prefix(t, k, m);
                    assert(s.subrange(0, k.len() as int) =~= seq![s[0]] + t.subrange(0, m));
                    assert(r.subrange(0, k.len() as int) =~= seq![s[0]] + r2.subrange(0, m));
                } else {
                    assert(r2.subrange(i - 1, i - 1 + k.len()) =~= r.subrange(i, i + k.len()));
                    assert(occurs_at(r2, k, i - 1));
                }
            }
        }
    }
}

/// The message of a network failure holds the API key nowhere but, possibly, inside its
/// fixed opening words `Erreur réseau: `: the detail it reports is masked.
pub proof fn law_network_message_hides_key(detail: Seq<char>, key: Seq<char>, e: AppError)
    requires
        e matches AppError::Network(m) && m@ == redacted(detail, key),
        key.len() > 0,
        forall|q: int| 0 <= q < key.len() ==> #[trigger] key[q] != '*' && key[q] != ' ',
    ensures
        forall|i: int|
            occurs_at(error_message(e), key, i) ==> i + key.len() <= "Erreur réseau: "@.len(),
{
    reveal_strlit("Erreur réseau: ");
    let p = "Erreur réseau: "@;
    let r = redacted(detail, key);
    law_redacted_hides_secret(detail, key);
    let msg = error_message(e);
    assert(msg == p + r);
    assert forall|i: int| occurs_at(msg, key, i) implies i + key.len() <= p.len() by {
        if i + key.len() > p.len() {
            if i >= p.len() {
                assert(r.subrange(i - p.len(), i - p.len() + key.len()) =~= msg.subrange(
                    i,
                    i + key.len(),
                ));
                assert(occurs_at(r, key, i - p.len()));
            } else {
                let q = p.len() - 1 - i;
                assert(msg[p.len() - 1] == ' ');
                assert(msg.subrange(i, i + key.len())[q] == key[q]);
            }
        }
    }
}

} // verus!
