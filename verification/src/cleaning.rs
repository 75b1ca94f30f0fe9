use vstd::prelude::*;

use crate::chars::{
    char_is_ascii_alnum, char_is_ascii_letter, char_is_white_space, chars_of, is_ascii_alnum,
    is_ascii_letter, is_white_space, string_of,
};

verus! {

/// Highest number of characters kept in a cleaned search name.
pub const MAX_QUERY_LEN: usize = 100;

// ---------------------------------------------------------------------------
// The steps of the cleaning, each as a function on character sequences
// ---------------------------------------------------------------------------

/// `i` is the position of the last `.` in `s`.
pub open spec fn is_last_dot(s: Seq<char>, i: int) -> bool {
    &&& 0 <= i < s.len()
    &&& s[i] == '.'
    &&& forall|j: int| i < j < s.len() ==> s[j] != '.'
}

/// The name without its extension: what precedes the last `.`; a name without `.` is kept whole.
pub open spec fn stem_of(s: Seq<char>) -> Seq<char> {
    if exists|i: int| is_last_dot(s, i) {
        s.take(choose|i: int| is_last_dot(s, i))
    } else {
        s
    }
}

/// The letters of the roman numerals that number games (`II`, `IV`, `XIII`, ...).
pub open spec fn is_roman_digit(c: char) -> bool {
    c == 'I' || c == 'V' || c == 'X'
}

/// A scene group tag starts at `i`: a `-`, an ASCII letter, then at least two more
/// ASCII letters or digits that run to the end of `s`; a roman numeral such as `III`
/// (upper-case `I`, `V` and `X` only) is part of the title, not a tag.
pub open spec fn is_scene_tag_at(s: Seq<char>, i: int) -> bool {
    &&& 0 <= i
    &&& i + 4 <= s.len()
    &&& s[i] == '-'
    &&& is_ascii_letter(s[i + 1])
    &&& forall|j: int| i + 2 <= j < s.len() ==> is_ascii_alnum(#[trigger] s[j])
    &&& !(forall|j: int| i + 1 <= j < s.len() ==> is_roman_digit(#[trigger] s[j]))
}

/// `s` without its trailing scene group tag (`Kingdom.Hearts.III-Mephisto` loses `-Mephisto`;
/// `Kingdom.Hearts-III` keeps `-III`).
pub open spec fn without_scene_tag(s: Seq<char>) -> Seq<char> {
    if exists|i: int| is_scene_tag_at(s, i) {
        s.take(choose|i: int| is_scene_tag_at(s, i))
    } else {
        s
    }
}

/// The characters that separate words in file names.
pub open spec fn is_name_separator(c: char) -> bool {
    c == '.' || c == '_' || c == '-'
}

/// A separator becomes a space; any other character stays.
pub open spec fn separator_as_space(c: char) -> char {
    if is_name_separator(c) {
        ' '
    } else {
        c
    }
}

/// `s` with every `.`, `_` and `-` replaced by a space.
pub open spec fn with_separators_as_spaces(s: Seq<char>) -> Seq<char> {
    s.map_values(|c: char| separator_as_space(c))
}

/// `(` and `[` open a tag.
pub open spec fn is_opening_bracket(c: char) -> bool {
    c == '(' || c == '['
}

/// The character that closes a tag opened by `c`.
pub open spec fn closing_bracket(c: char) -> char {
    if c == '(' {
        ')'
    } else {
        ']'
    }
}

/// `s` opens a tag at its start, and `k` is the first position after it that closes that tag.
pub open spec fn is_first_close(s: Seq<char>, k: int) -> bool {
    &&& s.len() > 0
    &&& is_opening_bracket(s[0])
    &&& 1 <= k < s.len()
    &&& s[k] == closing_bracket(s[0])
    &&& forall|m: int| 1 <= m < k ==> #[trigger] s[m] != closing_bracket(s[0])
}

/// `s` with its tags removed, read from left to right: a `(` up to the next `)`,
/// and a `[` up to the next `]`. An opening bracket that nothing closes stays.
pub open spec fn without_bracket_tags(s: Seq<char>) -> Seq<char>
    decreases s.len(),
{
    if s.len() == 0 {
        s
    } else if exists|k: int| is_first_close(s, k) {
        without_bracket_tags(s.skip((choose|k: int| is_first_close(s, k)) + 1))
    } else {
        seq![s[0]] + without_bracket_tags(s.drop_first())
    }
}

/// The words of `s`: its maximal runs of characters that are not white space, in order.
pub open spec fn words(s: Seq<char>) -> Seq<Seq<char>>
    decreases s.len(),
{
    if s.len() == 0 {
        Seq::empty()
    } else {
        let before = words(s.drop_last());
        let c = s.last();
        if is_white_space(c) {
            before
        } else if s.len() >= 2 && !is_white_space(s[s.len() - 2]) {
            before.update(before.len() - 1, before.last().push(c))
        } else {
            before.push(seq![c])
        }
    }
}

/// The words joined by single spaces.
pub open spec fn joined(ws: Seq<Seq<char>>) -> Seq<char>
    decreases ws.len(),
{
    if ws.len() == 0 {
        Seq::empty()
    } else if ws.len() == 1 {
        ws[0]
    } else {
        joined(ws.drop_last()) + seq![' '] + ws.last()
    }
}

/// `s` with its white space trimmed at both ends and each run of it inside made one space.
pub open spec fn collapsed_white_space(s: Seq<char>) -> Seq<char> {
    joined(words(s))
}

/// The first `n` characters of `s`, or `s` when it is shorter.
pub open spec fn truncated(s: Seq<char>, n: nat) -> Seq<char> {
    if s.len() <= n {
        s
    } else {
        s.take(n as int)
    }
}

/// The search name that the library derives from a file name.
pub open spec fn cleaned_name(file_name: Seq<char>) -> Seq<char> {
    truncated(
        collapsed_white_space(
            without_bracket_tags(with_separators_as_spaces(without_scene_tag(stem_of(file_name)))),
        ),
        MAX_QUERY_LEN as nat,
    )
}

// ---------------------------------------------------------------------------
// Executable steps
// ---------------------------------------------------------------------------

/// The first `k` characters of `v`.
fn prefix_of(v: &[char], k: usize) -> (r: Vec<char>)
    requires
        k <= v@.len(),
    ensures
        r@ == v@.take(k as int),
{
    let mut r: Vec<char> = Vec::new();
    let mut i: usize = 0;
    while i < k
        invariant
            k <= v@.len(),
            i <= k,
            r@ == v@.take(i as int),
        decreases k - i,
    {
        r.push(v[i]);
        i += 1;
        assert(r@ =~= v@.take(i as int));
    }
    r
}

/// Drops the extension: keeps what precedes the last `.`.
pub fn file_stem(name: &[char]) -> (r: Vec<char>)
    ensures
        r@ == stem_of(name@),
{
    let n = name.len();
    let mut j: usize = n;
    while j > 0 && name[j - 1] != '.'
        invariant
            n == name@.len(),
            j <= n,
            forall|k: int| j <= k < n ==> name@[k] != '.',
        decreases j,
    {
        j -= 1;
    }
    if j == 0 {
        assert(!exists|i: int| is_last_dot(name@, i));
        prefix_of(name, n)
    } else {
        let d = j - 1;
        assert(is_last_dot(name@, d as int));
        assert forall|i: int| is_last_dot(name@, i) implies i == d by {
            if i < d {
                assert(name@[d as int] != '.');
            } else if i > d {
                assert(name@[i] != '.');
            }
        }
        let r = prefix_of(name, d);
        assert(name@.take(n as int) =~= name@);
        r
    }
}

/// Whether `c` is a letter of roman numerals.
fn is_roman_letter(c: char) -> (b: bool)
    ensures
        b == is_roman_digit(c),
{
    c == 'I' || c == 'V' || c == 'X'
}

/// Drops a trailing scene group tag such as `-Mephisto` (but not a roman numeral such as `-III`).
pub fn strip_scene_tag(s: &[char]) -> (r: Vec<char>)
    ensures
        r@ == without_scene_tag(s@),
{
    let n = s.len();
    let mut j: usize = n;
    while j > 0 && char_is_ascii_alnum(s[j - 1])
        invariant
            n == s@.len(),
            j <= n,
            forall|k: int| j <= k < n ==> is_ascii_alnum(#[trigger] s@[k]),
        decreases j,
    {
        j -= 1;
    }
    // Any tag starts right before the run of letters and digits that ends `s`.
    assert forall|i: int| is_scene_tag_at(s@, i) implies i + 1 == j by {
        assert(is_ascii_alnum(s@[i + 1]));
        if j > i + 1 {
            assert(is_ascii_alnum(s@[j - 1]));
        }
        if j < i + 1 {
            assert(is_ascii_alnum(s@[i as int]));
        }
    }
    // Whether that run is a roman numeral.
    let mut k: usize = j;
    while k < n && is_roman_letter(s[k])
        invariant
            n == s@.len(),
            j <= k <= n,
            forall|m: int| j <= m < k ==> is_roman_digit(#[trigger] s@[m]),
        decreases n - k,
    {
        k += 1;
    }
    let roman = k == n;
    assert(roman == forall|m: int| j <= m < n ==> is_roman_digit(#[trigger] s@[m])) by {
        if k < n {
            assert(!is_roman_digit(s@[k as int]));
        }
    }
    if j >= 1 && s[j - 1] == '-' && n - j >= 3 && char_is_ascii_letter(s[j]) && !roman {
        let t = j - 1;
        assert(is_scene_tag_at(s@, t as int));
        prefix_of(s, t)
    } else {
        assert(!exists|i: int| is_scene_tag_at(s@, i));
        prefix_of(s, n)
    }
}


/// Replaces every `.`, `_` and `-` by a space.
pub fn separators_to_spaces(s: &[char]) -> (r: Vec<char>)
    ensures
        r@ == with_separators_as_spaces(s@),
{
    let mut r: Vec<char> = Vec::new();
    let mut i: usize = 0;
    while i < s.len()
        invariant
            i <= s@.len(),
            r@ == with_separators_as_spaces(s@.take(i as int)),
        decreases s@.len() - i,
    {
        let c = s[i];
        let d = if c == '.' || c == '_' || c == '-' {
            ' '
        } else {
            c
        };
        r.push(d);
        i += 1;
        assert(r@ =~= with_separators_as_spaces(s@.take(i as int)));
    }
    assert(s@.take(s@.len() as int) =~= s@);
    r
}

/// Removes the tags in parentheses and in square brackets, from left to right.
pub fn strip_bracket_tags(s: &[char]) -> (r: Vec<char>)
    ensures
        r@ == without_bracket_tags(s@),
{
    let n = s.len();
    let mut r: Vec<char> = Vec::new();
    let mut i: usize = 0;
    assert(s@.skip(0) =~= s@);
    assert(r@ + without_bracket_tags(s@) =~= without_bracket_tags(s@));
    while i < n
        invariant
            n == s@.len(),
            i <= n,
            without_bracket_tags(s@) == r@ + without_bracket_tags(s@.skip(i as int)),
        decreases n - i,
    {
        let ghost t = s@.skip(i as int);
        let c = s[i];
        assert(t[0] == c);
        if c == '(' || c == '[' {
            let close = if c == '(' {
                ')'
            } else {
                ']'
            };
            let mut j: usize = i + 1;
            while j < n && s[j] != close
                invariant
                    n == s@.len(),
                    i < j <= n,
                    forall|m: int| i < m < j ==> s@[m] != close,
                decreases n - j,
            {
                j += 1;
            }
            if j < n {
                let ghost k = (j - i) as int;
                assert(is_first_close(t, k));
                assert forall|k2: int| is_first_close(t, k2) implies k2 == k by {
                    if k2 < k {
                        assert(t[k2] == s@[i + k2]);
                    } else if k2 > k {
                        assert(t[k] == s@[j as int]);
                    }
                }
                assert(t.skip(k + 1) =~= s@.skip(j + 1));
                i = j + 1;
            } else {
                assert forall|k2: int| !is_first_close(t, k2) by {
                    if is_first_close(t, k2) {
                        assert(t[k2] == s@[i + k2]);
                    }
                }
                assert(t.drop_first() =~= s@.skip(i + 1));
                r.push(c);
                i += 1;
                assert(r@ + without_bracket_tags(s@.skip(i as int)) =~= r@.drop_last() + (seq![c]
                    + without_bracket_tags(s@.skip(i as int))));
            }
        } else {
            assert(!exists|k2: int| is_first_close(t, k2));
            assert(t.drop_first() =~= s@.skip(i + 1));
            r.push(c);
            i += 1;
            assert(r@ + without_bracket_tags(s@.skip(i as int)) =~= r@.drop_last() + (seq![c]
                + without_bracket_tags(s@.skip(i as int))));
        }
    }
    assert(s@.skip(n as int) =~= Seq::<char>::empty());
    assert(r@ + Seq::<char>::empty() =~= r@);
    r
}

/// Joining one more word puts a space before it.
proof fn lemma_joined_push(ws: Seq<Seq<char>>, w: Seq<char>)
    ensures
        joined(ws.push(w)) == if ws.len() == 0 {
            w
        } else {
            joined(ws) + seq![' '] + w
        },
{
    assert(ws.push(w).drop_last() =~= ws);
}

/// Growing the last word grows the joined text by the same character.
proof fn lemma_joined_extend_last(ws: Seq<Seq<char>>, c: char)
    requires
        ws.len() > 0,
    ensures
        joined(ws.update(ws.len() - 1, ws.last().push(c))) == joined(ws).push(c),
{
    let u = ws.update(ws.len() - 1, ws.last().push(c));
    if ws.len() == 1 {
    } else {
        assert(u.drop_last() =~= ws.drop_last());
        assert(joined(u) =~= joined(ws).push(c));
    }
}

/// Trims the white space at both ends and makes each run of it inside one space.
pub fn collapse_white_space(s: &[char]) -> (r: Vec<char>)
    ensures
        r@ == collapsed_white_space(s@),
{
    let n = s.len();
    let mut r: Vec<char> = Vec::new();
    let mut i: usize = 0;
    while i < n
        invariant
            n == s@.len(),
            i <= n,
            r@ == joined(words(s@.take(i as int))),
            (r@.len() == 0) == (words(s@.take(i as int)).len() == 0),
            i > 0 && !is_white_space(s@[i - 1]) ==> words(s@.take(i as int)).len() > 0,
        decreases n - i,
    {
        let ghost before = words(s@.take(i as int));
        let ghost p = s@.take(i + 1);
        assert(p.drop_last() =~= s@.take(i as int));
        let c = s[i];
        assert(p.last() == c);
        if char_is_white_space(c) {
            assert(words(p) == before);
        } else if i > 0 && !char_is_white_space(s[i - 1]) {
            assert(p[p.len() - 2] == s@[i - 1]);
            assert(words(p) == before.update(before.len() - 1, before.last().push(c)));
            proof {
                lemma_joined_extend_last(before, c);
            }
            r.push(c);
        } else {
            assert(i > 0 ==> p[p.len() - 2] == s@[i - 1]);
            assert(words(p) == before.push(seq![c]));
            proof {
                lemma_joined_push(before, seq![c]);
            }
            if r.len() > 0 {
                r.push(' ');
            }
            r.push(c);
            assert(r@ =~= joined(before.push(seq![c])));
        }
        i += 1;
    }
    assert(s@.take(n as int) =~= s@);
    r
}

/// Keeps at most the first `max` characters.
pub fn truncate_chars(s: &[char], max: usize) -> (r: Vec<char>)
    ensures
        r@ == truncated(s@, max as nat),
{
    if s.len() <= max {
        let r = prefix_of(s, s.len());
        assert(s@.take(s@.len() as int) =~= s@);
        r
    } else {
        prefix_of(s, max)
    }
}

/// Derives the name under which a game is searched from its file name:
/// the extension and a trailing scene group tag go, `.`, `_` and `-` become spaces,
/// tags in parentheses and square brackets go, white space is collapsed,
/// and at most `MAX_QUERY_LEN` characters are kept.
pub fn clean_filename_for_search(filename: &str) -> (r: String)
    ensures
        r@ == cleaned_name(filename@),
{
    let name = chars_of(filename);
    let stem = file_stem(&name);
    let untagged = strip_scene_tag(&stem);
    let spaced = separators_to_spaces(&untagged);
    let bare = strip_bracket_tags(&spaced);
    let collapsed = collapse_white_space(&bare);
    let kept = truncate_chars(&collapsed, MAX_QUERY_LEN);
    string_of(&kept)
}


// ---------------------------------------------------------------------------
// Laws of the cleaning
// ---------------------------------------------------------------------------

/// Every character that the tag removal keeps comes from its input, so a property of all
/// the input's characters holds of all the output's.
pub proof fn lemma_bracket_tags_keep(s: Seq<char>, p: spec_fn(char) -> bool)
    requires
        forall|i: int| 0 <= i < s.len() ==> p(#[trigger] s[i]),
    ensures
        forall|i: int|
            0 <= i < without_bracket_tags(s).len() ==> p(#[trigger] without_bracket_tags(s)[i]),
    decreases s.len(),
{
    if s.len() == 0 {
    } else if exists|k: int| is_first_close(s, k) {
        let k = choose|k: int| is_first_close(s, k);
        let t = s.skip(k + 1);
        assert forall|i: int| 0 <= i < t.len() implies p(#[trigger] t[i]) by {
            assert(t[i] == s[k + 1 + i]);
        }
        lemma_bracket_tags_keep(t, p);
        assert(without_bracket_tags(s) == without_bracket_tags(t));
    } else {
        let t = s.drop_first();
        assert forall|i: int| 0 <= i < t.len() implies p(#[trigger] t[i]) by {
            assert(t[i] == s[1 + i]);
        }
        lemma_bracket_tags_keep(t, p);
        let r = without_bracket_tags(s);
        assert(r == seq![s[0]] + without_bracket_tags(t));
        assert forall|i: int| 0 <= i < r.len() implies p(#[trigger] r[i]) by {
            if i > 0 {
                assert(r[i] == without_bracket_tags(t)[i - 1]);
            }
        }
    }
}

/// A bracket that opens `s` and is closed somewhere has a first closing position.
proof fn lemma_first_close_exists(s: Seq<char>, k: int)
    requires
        s.len() > 0,
        is_opening_bracket(s[0]),
        1 <= k < s.len(),
        s[k] == closing_bracket(s[0]),
    ensures
        exists|k2: int| is_first_close(s, k2),
    decreases k,
{
    if exists|m: int| 1 <= m < k && #[trigger] s[m] == closing_bracket(s[0]) {
        let m = choose|m: int| 1 <= m < k && #[trigger] s[m] == closing_bracket(s[0]);
        lemma_first_close_exists(s, m);
    } else {
        assert(is_first_close(s, k));
    }
}

/// After the tag removal no opening bracket is followed, anywhere later, by the bracket
/// that would close it: every tag is gone.
pub proof fn law_no_tag_survives(s: Seq<char>)
    ensures
        forall|i: int, j: int|
            0 <= i < j < without_bracket_tags(s).len() && is_opening_bracket(
                without_bracket_tags(s)[i],
            ) ==> without_bracket_tags(s)[j] != closing_bracket(without_bracket_tags(s)[i]),
    decreases s.len(),
{
    let r = without_bracket_tags(s);
    if s.len() == 0 {
    } else if exists|k: int| is_first_close(s, k) {
        let k = choose|k: int| is_first_close(s, k);
        law_no_tag_survives(s.skip(k + 1));
        assert(r == without_bracket_tags(s.skip(k + 1)));
    } else {
        let c = s[0];
        let t = s.drop_first();
        let rt = without_bracket_tags(t);
        law_no_tag_survives(t);
        assert(r == seq![c] + rt);
        if is_opening_bracket(c) {
            let close = closing_bracket(c);
            assert forall|m: int| 0 <= m < t.len() implies #[trigger] t[m] != close by {
                if t[m] == close {
                    lemma_first_close_exists(s, m + 1);
                }
            }
            let p = |x: char| x != close;
            lemma_bracket_tags_keep(t, p);
        }
        assert forall|i: int, j: int|
            0 <= i < j < r.len() && is_opening_bracket(r[i]) implies r[j] != closing_bracket(
            r[i],
        ) by {
            assert(r[j] == rt[j - 1]);
            if i > 0 {
                assert(r[i] == rt[i - 1]);
            } else {
                assert(r[i] == c);
            }
        }
    }
}

/// A word: not empty, no white space, and every character has the property `p`.
pub open spec fn is_word_with(w: Seq<char>, p: spec_fn(char) -> bool) -> bool {
    &&& w.len() > 0
    &&& forall|i: int| 0 <= i < w.len() ==> !is_white_space(#[trigger] w[i]) && p(w[i])
}

/// The words of a text whose other characters have the property `p` are words with it.
proof fn lemma_words_with(s: Seq<char>, p: spec_fn(char) -> bool)
    requires
        forall|i: int| 0 <= i < s.len() ==> is_white_space(#[trigger] s[i]) || p(s[i]),
    ensures
        forall|k: int| 0 <= k < words(s).len() ==> is_word_with(#[trigger] words(s)[k], p),
        s.len() > 0 && !is_white_space(s.last()) ==> words(s).len() > 0,
    decreases s.len(),
{
    if s.len() > 0 {
        let d = s.drop_last();
        assert forall|i: int| 0 <= i < d.len() implies is_white_space(#[trigger] d[i]) || p(d[i]) by {
            assert(d[i] == s[i]);
        }
        lemma_words_with(d, p);
        let before = words(d);
        let c = s.last();
        let ws = words(s);
        if is_white_space(c) {
        } else if s.len() >= 2 && !is_white_space(s[s.len() - 2]) {
            assert(d.last() == s[s.len() - 2]);
            let w = before.last().push(c);
            assert(is_word_with(before[before.len() - 1], p));
            assert forall|i: int| 0 <= i < w.len() implies !is_white_space(#[trigger] w[i]) && p(
                w[i],
            ) by {
                if i < w.len() - 1 {
                    assert(w[i] == before[before.len() - 1][i]);
                }
            }
            assert forall|k: int| 0 <= k < ws.len() implies is_word_with(#[trigger] ws[k], p) by {
                if k < ws.len() - 1 {
                    assert(ws[k] == before[k]);
                }
            }
        } else {
            let w = seq![c];
            assert(is_word_with(w, p));
            assert forall|k: int| 0 <= k < ws.len() implies is_word_with(#[trigger] ws[k], p) by {
                if k < ws.len() - 1 {
                    assert(ws[k] == before[k]);
                }
            }
        }
    }
}

/// The shape of words joined by single spaces.
pub open spec fn is_spaced_text_with(r: Seq<char>, p: spec_fn(char) -> bool) -> bool {
    &&& forall|i: int| 0 <= i < r.len() ==> (#[trigger] r[i] == ' ' || (!is_white_space(r[i]) && p(r[i])))
    &&& r.len() > 0 ==> !is_white_space(r[0]) && !is_white_space(r.last())
    &&& forall|i: int|
        0 <= i < r.len() - 1 ==> !(is_white_space(#[trigger] r[i]) && is_white_space(r[i + 1]))
}

/// Words joined by single spaces: no white space but single spaces between the words.
proof fn lemma_joined_spaced(ws: Seq<Seq<char>>, p: spec_fn(char) -> bool)
    requires
        forall|k: int| 0 <= k < ws.len() ==> is_word_with(#[trigger] ws[k], p),
    ensures
        is_spaced_text_with(joined(ws), p),
        ws.len() > 0 ==> joined(ws).len() > 0,
    decreases ws.len(),
{
    let r = joined(ws);
    if ws.len() == 0 {
    } else if ws.len() == 1 {
        assert(is_word_with(ws[0], p));
    } else {
        let dl = ws.drop_last();
        assert forall|k: int| 0 <= k < dl.len() implies is_word_with(#[trigger] dl[k], p) by {
            assert(dl[k] == ws[k]);
        }
        lemma_joined_spaced(dl, p);
        let a = joined(dl);
        let w = ws.last();
        assert(is_word_with(ws[ws.len() - 1], p));
        assert(r == a + seq![' '] + w);
        assert(is_white_space(' '));
        assert forall|i: int| 0 <= i < r.len() implies (#[trigger] r[i] == ' ' || (
        !is_white_space(r[i]) && p(r[i]))) by {
            if i < a.len() {
                assert(r[i] == a[i]);
            } else if i > a.len() {
                assert(r[i] == w[i - a.len() - 1]);
            }
        }
        assert(r[0] == a[0]);
        assert(r.last() == w[w.len() - 1]);
        assert forall|i: int| 0 <= i < r.len() - 1 implies !(is_white_space(#[trigger] r[i])
            && is_white_space(r[i + 1])) by {
            if i < a.len() - 1 {
                assert(r[i] == a[i]);
                assert(r[i + 1] == a[i + 1]);
            } else if i == a.len() - 1 {
                assert(r[i] == a.last());
            } else if i == a.len() {
                assert(r[i + 1] == w[0]);
            } else {
                assert(r[i] == w[i - a.len() - 1]);
            }
        }
    }
}

/// The shape of every search name: at most `MAX_QUERY_LEN` characters; no `.`, `_` or `-`;
/// no white space but single spaces between words, none at the start, and none at the end
/// unless the name was cut at `MAX_QUERY_LEN` characters.
pub proof fn law_cleaned_name_shape(file_name: Seq<char>)
    ensures
        cleaned_name(file_name).len() <= MAX_QUERY_LEN,
        forall|i: int|
            0 <= i < cleaned_name(file_name).len() ==> !is_name_separator(
                #[trigger] cleaned_name(file_name)[i],
            ),
        forall|i: int|
            0 <= i < cleaned_name(file_name).len() && is_white_space(
                #[trigger] cleaned_name(file_name)[i],
            ) ==> cleaned_name(file_name)[i] == ' ',
        cleaned_name(file_name).len() > 0 ==> cleaned_name(file_name)[0] != ' ',
        0 < cleaned_name(file_name).len() < MAX_QUERY_LEN ==> !is_white_space(
            cleaned_name(file_name).last(),
        ),
        forall|i: int|
            0 <= i < cleaned_name(file_name).len() - 1 ==> !(#[trigger] cleaned_name(file_name)[i]
                == ' ' && cleaned_name(file_name)[i + 1] == ' '),
{
    let p = |c: char| !is_name_separator(c);
    let spaced = with_separators_as_spaces(without_scene_tag(stem_of(file_name)));
    assert forall|i: int| 0 <= i < spaced.len() implies p(#[trigger] spaced[i]) by {}
    lemma_bracket_tags_keep(spaced, p);
    let bare = without_bracket_tags(spaced);
    lemma_words_with(bare, p);
    lemma_joined_spaced(words(bare), p);
    let text = collapsed_white_space(bare);
    let r = cleaned_name(file_name);
    assert(is_spaced_text_with(text, p));
    assert(r.len() <= text.len());
    assert forall|i: int| 0 <= i < r.len() implies #[trigger] r[i] == text[i] by {}
    assert(is_white_space(' '));
    assert forall|i: int| 0 <= i < r.len() - 1 implies !(#[trigger] r[i] == ' ' && r[i + 1] == ' ') by {
        assert(r[i] == text[i]);
        assert(r[i + 1] == text[i + 1]);
    }
}

/// A search name made of ASCII characters fits the length limit of a search request, which
/// counts bytes. (A name of other characters may not: 100 `é` are 200 bytes.)
pub proof fn law_ascii_search_name_fits_request(file_name: Seq<char>)
    requires
        vstd::utf8::is_ascii_chars(cleaned_name(file_name)),
    ensures
        vstd::utf8::encode_utf8(cleaned_name(file_name)).len() <= MAX_QUERY_LEN,
{
    law_cleaned_name_shape(file_name);
    vstd::utf8::is_ascii_chars_encode_utf8(cleaned_name(file_name));
}


/// No opening bracket of `s` is followed, anywhere later, by the bracket that closes it.
pub open spec fn has_no_tag(s: Seq<char>) -> bool {
    forall|i: int, j: int|
        0 <= i < j < s.len() && is_opening_bracket(#[trigger] s[i]) ==> #[trigger] s[j]
            != closing_bracket(s[i])
}

/// Collapsing white space appends to the collapsed text of the text without its last character.
proof fn lemma_collapsed_step(s: Seq<char>)
    requires
        s.len() > 0,
    ensures
        ({
            let d = s.drop_last();
            let c = s.last();
            let prev = collapsed_white_space(d);
            let now = collapsed_white_space(s);
            if is_white_space(c) {
                now == prev
            } else if d.len() > 0 && !is_white_space(d.last()) {
                now == prev.push(c)
            } else if prev.len() == 0 {
                now == seq![c]
            } else {
                now == prev + seq![' '] + seq![c]
            }
        }),
{
    let d = s.drop_last();
    let c = s.last();
    let before = words(d);
    let t = |x: char| true;
    lemma_words_with(d, t);
    if is_white_space(c) {
    } else if d.len() > 0 && !is_white_space(d.last()) {
        assert(s[s.len() - 2] == d.last());
        lemma_joined_extend_last(before, c);
    } else {
        if s.len() >= 2 {
            assert(s[s.len() - 2] == d.last());
        }
        lemma_joined_push(before, seq![c]);
        if before.len() > 0 {
            lemma_joined_spaced(before, t);
        }
    }
}

/// Collapsing white space brings back no tag.
proof fn lemma_collapse_keeps_no_tag(s: Seq<char>)
    requires
        has_no_tag(s),
    ensures
        has_no_tag(collapsed_white_space(s)),
    decreases s.len(),
{
    if s.len() > 0 {
        let d = s.drop_last();
        let c = s.last();
        assert(has_no_tag(d)) by {
            assert forall|i: int, j: int|
                0 <= i < j < d.len() && is_opening_bracket(#[trigger] d[i]) implies #[trigger] d[j]
                != closing_bracket(d[i]) by {
                assert(d[i] == s[i] && d[j] == s[j]);
            }
        }
        lemma_collapse_keeps_no_tag(d);
        lemma_collapsed_step(s);
        let prev = collapsed_white_space(d);
        let now = collapsed_white_space(s);
        // No character of the collapsed prefix opens a tag that `c` closes.
        let p = |x: char| !(is_opening_bracket(x) && closing_bracket(x) == c);
        assert forall|i: int| 0 <= i < d.len() implies is_white_space(#[trigger] d[i]) || p(d[i]) by {
            assert(d[i] == s[i]);
            assert(s[s.len() - 1] == c);
        }
        lemma_words_with(d, p);
        lemma_joined_spaced(words(d), p);
        assert forall|i: int, j: int|
            0 <= i < j < now.len() && is_opening_bracket(#[trigger] now[i]) implies #[trigger] now[j]
            != closing_bracket(now[i]) by {
            if j < prev.len() {
                assert(now[i] == prev[i] && now[j] == prev[j]);
            } else if i < prev.len() {
                assert(now[i] == prev[i]);
                assert(prev[i] == ' ' || p(prev[i]));
                if now[j] != c {
                    assert(now[j] == ' ');
                }
            } else {
                assert(now[i] == ' ' || now[i] == c);
                if now[i] == c {
                    assert(now[j] == c);
                }
            }
        }
    }
}

/// No tag in parentheses or square brackets survives in a search name: no `(` is followed,
/// anywhere later, by `)`, and no `[` by `]`.
pub proof fn law_cleaned_name_has_no_tag(file_name: Seq<char>)
    ensures
        has_no_tag(cleaned_name(file_name)),
{
    let spaced = with_separators_as_spaces(without_scene_tag(stem_of(file_name)));
    let bare = without_bracket_tags(spaced);
    law_no_tag_survives(spaced);
    lemma_collapse_keeps_no_tag(bare);
    let text = collapsed_white_space(bare);
    let r = cleaned_name(file_name);
    assert forall|i: int, j: int|
        0 <= i < j < r.len() && is_opening_bracket(#[trigger] r[i]) implies #[trigger] r[j]
        != closing_bracket(r[i]) by {
        assert(r[i] == text[i] && r[j] == text[j]);
    }
}


/// `s` without one trailing white-space character, if it ends with one.
pub open spec fn without_trailing_space(s: Seq<char>) -> Seq<char> {
    if s.len() > 0 && is_white_space(s.last()) {
        s.drop_last()
    } else {
        s
    }
}

/// Removing tags from a text without tags changes nothing.
proof fn lemma_no_tag_strip_is_identity(s: Seq<char>)
    requires
        has_no_tag(s),
    ensures
        without_bracket_tags(s) == s,
    decreases s.len(),
{
    if s.len() > 0 {
        if exists|k: int| is_first_close(s, k) {
            let k = choose|k: int| is_first_close(s, k);
            assert(s[k] == closing_bracket(s[0]));
        } else {
            let t = s.drop_first();
            assert(has_no_tag(t)) by {
                assert forall|i: int, j: int|
                    0 <= i < j < t.len() && is_opening_bracket(#[trigger] t[i]) implies #[trigger] t[j]
                    != closing_bracket(t[i]) by {
                    assert(t[i] == s[i + 1] && t[j] == s[j + 1]);
                }
            }
            lemma_no_tag_strip_is_identity(t);
            assert(seq![s[0]] + t =~= s);
        }
    }
}

/// Words already joined by single spaces (and perhaps one trailing space) collapse to
/// themselves, the trailing space gone.
proof fn lemma_collapse_spaced(s: Seq<char>)
    requires
        forall|i: int| 0 <= i < s.len() && is_white_space(#[trigger] s[i]) ==> s[i] == ' ',
        s.len() > 0 ==> !is_white_space(s[0]),
        forall|i: int|
            0 <= i < s.len() - 1 ==> !(is_white_space(#[trigger] s[i]) && is_white_space(s[i + 1])),
    ensures
        collapsed_white_space(s) == without_trailing_space(s),
    decreases s.len(),
{
    if s.len() > 0 {
        let d = s.drop_last();
        let c = s.last();
        assert forall|i: int| 0 <= i < d.len() - 1 implies !(is_white_space(#[trigger] d[i])
            && is_white_space(d[i + 1])) by {
            assert(d[i] == s[i] && d[i + 1] == s[i + 1]);
        }
        assert forall|i: int| 0 <= i < d.len() && is_white_space(#[trigger] d[i]) implies d[i]
            == ' ' by {
            assert(d[i] == s[i]);
        }
        assert(d.len() > 0 ==> d[0] == s[0]);
        lemma_collapse_spaced(d);
        lemma_collapsed_step(s);
        if d.len() > 0 {
            assert(d.last() == s[s.len() - 2]);
        }
        if is_white_space(c) {
            assert(s.len() >= 2);
        } else if d.len() > 0 && !is_white_space(d.last()) {
            assert(d.push(c) =~= s);
        } else if d.len() == 0 {
            assert(seq![c] =~= s);
        } else {
            assert(d.len() >= 2);
            let e = d.drop_last();
            assert(e.len() > 0 && e[0] == s[0]);
            assert(d.last() == ' ');
            assert(e + seq![' '] + seq![c] =~= s);
        }
    }
}

/// Cleaning a search name again changes nothing but a trailing space left where the name was
/// cut at `MAX_QUERY_LEN` characters.
pub proof fn law_cleaning_is_idempotent(file_name: Seq<char>)
    ensures
        cleaned_name(cleaned_name(file_name)) == without_trailing_space(cleaned_name(file_name)),
{
    let r = cleaned_name(file_name);
    law_cleaned_name_shape(file_name);
    law_cleaned_name_has_no_tag(file_name);
    assert(!exists|i: int| is_last_dot(r, i)) by {
        if exists|i: int| is_last_dot(r, i) {
            let i = choose|i: int| is_last_dot(r, i);
            assert(!is_name_separator(r[i]));
        }
    }
    assert(stem_of(r) == r);
    assert(!exists|i: int| is_scene_tag_at(r, i)) by {
        if exists|i: int| is_scene_tag_at(r, i) {
            let i = choose|i: int| is_scene_tag_at(r, i);
            assert(!is_name_separator(r[i]));
        }
    }
    assert(without_scene_tag(r) == r);
    assert(with_separators_as_spaces(r) =~= r) by {
        assert forall|i: int| 0 <= i < r.len() implies #[trigger] with_separators_as_spaces(r)[i]
            == r[i] by {
            assert(!is_name_separator(r[i]));
        }
    }
    lemma_no_tag_strip_is_identity(r);
    assert(without_bracket_tags(with_separators_as_spaces(r)) == r);
    assert(is_white_space(' '));
    assert forall|i: int| 0 <= i < r.len() - 1 implies !(is_white_space(#[trigger] r[i])
        && is_white_space(r[i + 1])) by {
        if is_white_space(r[i]) && is_white_space(r[i + 1]) {
            assert(r[i] == ' ' && r[i + 1] == ' ');
        }
    }
    lemma_collapse_spaced(r);
}


/// Only `.`, `_` and `-` become spaces: every other character of the text, an apostrophe or
/// any other punctuation among them, stays where it is, and the length does not change.
pub proof fn law_only_separators_become_spaces(s: Seq<char>)
    ensures
        with_separators_as_spaces(s).len() == s.len(),
        forall|i: int|
            0 <= i < s.len() && s[i] != '.' && s[i] != '_' && s[i] != '-' ==> #[trigger] with_separators_as_spaces(s)[i] == s[i],
        forall|i: int|
            0 <= i < s.len() && (s[i] == '.' || s[i] == '_' || s[i] == '-') ==> #[trigger] with_separators_as_spaces(s)[i] == ' ',
{
}

} // verus!
