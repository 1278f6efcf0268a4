use red::entry::fold;
use red::text::{chars_of, contains, split_list, starts_with_char, string_of, trim, with_slashes};
use red::wild::matches_any;

fn strings(items: &[&str]) -> Vec<String> {
    items.iter().map(|s| s.to_string()).collect()
}

#[test]
fn comma_list_is_split_trimmed_and_filtered() {
    assert_eq!(
        split_list(" desktop.ini,Thumbs.db ,, .DS_Store,", ','),
        strings(&["desktop.ini", "Thumbs.db", ".DS_Store"])
    );
}

#[test]
fn line_list_keeps_inner_blanks_and_commas() {
    assert_eq!(
        split_list("System Volume Information\r\n\n  a,b \n", '\n'),
        strings(&["System Volume Information", "a,b"])
    );
}

#[test]
fn list_of_blanks_is_empty() {
    assert!(split_list("", ',').is_empty());
    assert!(split_list(" , \t,\u{3000}", ',').is_empty());
}

#[test]
fn trimming_knows_wide_white_space() {
    assert_eq!(trim(&chars_of("\u{3000} x y\u{2003}")), "x y");
    assert_eq!(trim(&chars_of("\u{200b}x")), "\u{200b}x");
}

#[test]
fn list_items_are_clean() {
    for item in split_list(" a ;b b; ;\tc", ';') {
        assert!(!item.is_empty());
        assert!(!item.contains(';'));
        assert_eq!(item.trim(), item);
    }
}

#[test]
fn backslashes_become_slashes() {
    assert_eq!(with_slashes("C:\\Dir/sub\\x"), "C:/Dir/sub/x");
}

#[test]
fn folding_takes_case_and_slashes_away() {
    assert_eq!(fold("C:\\ÄRGER"), "c:/ärger");
    assert_eq!(fold("ΟΔΟΣ"), "οδος");
}

#[test]
fn substrings_are_found_anywhere() {
    assert!(contains("/a/backup/b", "backup"));
    assert!(contains("abc", "abc"));
    assert!(contains("abc", "c"));
    assert!(contains("abc", ""));
    assert!(contains("", ""));
    assert!(!contains("abc", "abcd"));
    assert!(!contains("abc", "ac"));
}

#[test]
fn first_character_is_looked_at() {
    assert!(starts_with_char(".git", '.'));
    assert!(!starts_with_char("git.", '.'));
    assert!(!starts_with_char("", '.'));
}

#[test]
fn characters_come_and_go() {
    let v = chars_of("aéz");
    assert_eq!(v, vec!['a', 'é', 'z']);
    assert_eq!(string_of(&v, 1, 3), "éz");
    assert_eq!(string_of(&v, 2, 2), "");
}

#[test]
fn wildcards_match_whole_names() {
    let patterns = strings(&["*.tmp", "Thumbs.db", "log?"]);
    assert!(matches_any(&patterns, "x.tmp"));
    assert!(matches_any(&patterns, ".tmp"));
    assert!(matches_any(&patterns, "Thumbs.db"));
    assert!(matches_any(&patterns, "log1"));
    assert!(!matches_any(&patterns, "log"));
    assert!(!matches_any(&patterns, "thumbs.db"));
    assert!(!matches_any(&patterns, "x.tmp.bak"));
    assert!(!matches_any(&strings(&[]), "x"));
    assert!(matches_any(&strings(&["**a*b**"]), "xxaayb"));
    assert!(!matches_any(&strings(&["?*?"]), "x"));
    assert!(matches_any(&strings(&[""]), ""));
    assert!(!matches_any(&strings(&[""]), "x"));
}

#[test]
fn white_space_is_what_the_property_lists() {
    for c in '\0'..=char::MAX {
        let listed = matches!(
            c,
            '\u{9}'..='\u{d}'
                | '\u{20}'
                | '\u{85}'
                | '\u{a0}'
                | '\u{1680}'
                | '\u{2000}'..='\u{200a}'
                | '\u{2028}'
                | '\u{2029}'
                | '\u{202f}'
                | '\u{205f}'
                | '\u{3000}'
        );
        assert_eq!(trim(&vec![c]).is_empty(), listed, "{:?}", c);
    }
}
