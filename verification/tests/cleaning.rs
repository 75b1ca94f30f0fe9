use iso_library::chars::char_is_white_space;
use iso_library::cleaning::{
    collapse_white_space, file_stem, separators_to_spaces, strip_bracket_tags, strip_scene_tag,
    truncate_chars,
};
use iso_library::rawg::{clean_filename_for_search, MAX_QUERY_LEN};

fn cs(s: &str) -> Vec<char> {
    s.chars().collect()
}

fn st(v: &[char]) -> String {
    v.iter().collect()
}

/// The cleaning as written with regular expressions.
fn reference_clean(filename: &str) -> String {
    let parens = regex_lite::Regex::new(r"\([^)]*\)|\[[^\]]*\]").unwrap();
    let scene = regex_lite::Regex::new(r"-[A-Za-z][A-Za-z0-9]{2,}$").unwrap();
    let stem = filename.rsplit_once('.').map(|(s, _)| s).unwrap_or(filename);
    // A roman numeral after the dash is part of the title.
    let stem = match scene.find(stem) {
        Some(m) if !m.as_str()[1..].chars().all(|c| "IVX".contains(c)) => &stem[..m.start()],
        _ => stem,
    };
    let cleaned = stem.replace('.', " ");
    let cleaned = cleaned.replace('_', " ");
    let cleaned = cleaned.replace('-', " ");
    let cleaned = parens.replace_all(&cleaned, "");
    let cleaned: String = cleaned.split_whitespace().collect::<Vec<_>>().join(" ");
    cleaned.chars().take(MAX_QUERY_LEN).collect()
}

#[test]
fn scene_name_loses_extension_and_group_tag() {
    assert_eq!(clean_filename_for_search("Kingdom.Hearts.III-Mephisto.iso"), "Kingdom Hearts III");
}

#[test]
fn region_tag_in_parentheses_is_removed() {
    assert_eq!(clean_filename_for_search("Super.Mario.Galaxy.(USA).iso"), "Super Mario Galaxy");
}

#[test]
fn underscores_and_bracket_tag_are_removed() {
    assert_eq!(clean_filename_for_search("Gran_Turismo_4 [NTSC-U].iso"), "Gran Turismo 4");
}

#[test]
fn short_suffix_is_not_a_group_tag() {
    assert_eq!(clean_filename_for_search("Final.Fantasy-IV.iso"), "Final Fantasy IV");
    assert_eq!(clean_filename_for_search("Game-III.iso"), "Game III");
    assert_eq!(clean_filename_for_search("Kingdom.Hearts-III.iso"), "Kingdom Hearts III");
    assert_eq!(clean_filename_for_search("Final.Fantasy-XIII.iso"), "Final Fantasy XIII");
    assert_eq!(clean_filename_for_search("Game-CODEX.iso"), "Game");
    assert_eq!(clean_filename_for_search("Game-DVD.iso"), "Game");
    assert_eq!(clean_filename_for_search("Game-4ab.iso"), "Game 4ab");
}

#[test]
fn name_without_extension_is_kept_whole() {
    assert_eq!(clean_filename_for_search("Halo"), "Halo");
    assert_eq!(clean_filename_for_search(""), "");
    assert_eq!(clean_filename_for_search(".iso"), "");
}

#[test]
fn unclosed_bracket_stays() {
    assert_eq!(clean_filename_for_search("Game (Rev 1.iso"), "Game (Rev 1");
    assert_eq!(clean_filename_for_search("A ((b) c).iso"), "A c)");
}

#[test]
fn long_name_is_truncated_to_max_query_len() {
    let name = format!("{}.iso", "a".repeat(150));
    assert_eq!(clean_filename_for_search(&name).chars().count(), MAX_QUERY_LEN);
    assert_eq!(clean_filename_for_search(&name), "a".repeat(100));
    let accented = format!("{}.iso", "é".repeat(120));
    assert_eq!(clean_filename_for_search(&accented), "é".repeat(100));
}

#[test]
fn truncation_may_end_in_a_space() {
    let name = format!("{} b.iso", "a".repeat(99));
    let cleaned = clean_filename_for_search(&name);
    assert_eq!(cleaned.chars().count(), 100);
    assert!(cleaned.ends_with(' '));
}

#[test]
fn each_step_on_its_own() {
    assert_eq!(st(&file_stem(&cs("a.b.c"))), "a.b");
    assert_eq!(st(&file_stem(&cs("abc"))), "abc");
    assert_eq!(st(&strip_scene_tag(&cs("Kingdom.Hearts.III-Mephisto"))), "Kingdom.Hearts.III");
    assert_eq!(st(&strip_scene_tag(&cs("x-1bc"))), "x-1bc");
    assert_eq!(st(&separators_to_spaces(&cs("a.b_c-d"))), "a b c d");
    assert_eq!(st(&strip_bracket_tags(&cs("a (x) b [y] c"))), "a  b  c");
    assert_eq!(st(&collapse_white_space(&cs("  a \t b\u{3000}c  "))), "a b c");
    assert_eq!(st(&truncate_chars(&cs("abcdef"), 3)), "abc");
    assert_eq!(st(&truncate_chars(&cs("ab"), 3)), "ab");
}

#[test]
fn white_space_is_unicode_white_space() {
    for u in 0u32..=0x10FFFF {
        if let Some(c) = char::from_u32(u) {
            assert_eq!(char_is_white_space(c), c.is_whitespace(), "{:x}", u);
        }
    }
}

#[test]
fn cleaning_agrees_with_regular_expressions() {
    let alphabet: Vec<char> = "aZ09.-_()[] \t\u{3000}éKIVX".chars().collect();
    let mut seed: u64 = 0x2545F4914F6CDD1D;
    for _ in 0..20000 {
        seed ^= seed << 13;
        seed ^= seed >> 7;
        seed ^= seed << 17;
        let len = (seed % 24) as usize;
        let mut s = String::new();
        let mut x = seed;
        for _ in 0..len {
            x = x.wrapping_mul(6364136223846793005).wrapping_add(1442695040888963407);
            s.push(alphabet[((x >> 33) as usize) % alphabet.len()]);
        }
        let cleaned = clean_filename_for_search(&s);
        assert_eq!(cleaned, reference_clean(&s), "input {:?}", s);
        assert_eq!(clean_filename_for_search(&cleaned), cleaned.trim_end(), "input {:?}", s);
    }
}

#[test]
fn cleaning_a_cleaned_name_only_drops_a_cut_space() {
    let name = format!("{} b.iso", "a".repeat(99));
    let once = clean_filename_for_search(&name);
    assert_eq!(clean_filename_for_search(&once), "a".repeat(99));
    let title = clean_filename_for_search("Super.Mario.Galaxy.(USA).iso");
    assert_eq!(clean_filename_for_search(&title), title);
}
