use model_scan::order::{group_less_eq, insert_group, insert_text, same_text, text_less_eq};
use model_scan::paths::{normalize_directory, strip_first_segment, strip_root, trim_end_matches};
use model_scan::text::{
    chars_of, contains, ends_with, find, joined, matches_at, slice, starts_with, string_of,
    to_lower,
};

fn chars(text: &str) -> Vec<char> {
    text.chars().collect()
}

fn texts(items: &[&str]) -> Vec<Vec<char>> {
    items.iter().map(|item| chars(item)).collect()
}

#[test]
fn strings_and_characters_convert_both_ways() {
    assert_eq!(chars_of("a\u{e9}\u{4e2d}"), vec!['a', '\u{e9}', '\u{4e2d}']);
    assert_eq!(chars_of(""), Vec::<char>::new());
    assert_eq!(string_of(&vec!['a', '\u{e9}', '\u{4e2d}']), "a\u{e9}\u{4e2d}");
    assert_eq!(string_of(&Vec::new()), "");
}

#[test]
fn lowercase_is_the_standard_one() {
    assert_eq!(to_lower(&chars("Model.MOC3")), chars("model.moc3"));
    assert_eq!(to_lower(&chars("\u{c9}COLE")), chars("\u{e9}cole"));
    assert_eq!(to_lower(&chars("\u{39f}\u{3a3}")), chars("\u{3bf}\u{3c2}"));
    assert_eq!(to_lower(&chars("\u{130}")), chars("i\u{307}"));
}

#[test]
fn find_gives_the_first_occurrence() {
    assert_eq!(find(&chars("a.moc.moc3"), &chars(".moc")), Some(1));
    assert_eq!(find(&chars("a.moc.moc3"), &chars(".moc3")), Some(5));
    assert_eq!(find(&chars("a.moc"), &chars(".moc3")), None);
    assert_eq!(find(&chars("abc"), &chars("")), Some(0));
    assert_eq!(find(&chars(""), &chars("")), Some(0));
    assert_eq!(find(&chars(""), &chars("a")), None);
    assert_eq!(find(&chars("aab"), &chars("ab")), Some(1));
    assert_eq!(find(&chars("abc"), &chars("abc")), Some(0));
    assert_eq!(find(&chars("abc"), &chars("abcd")), None);
    assert_eq!(find(&chars("abc"), &chars("c")), Some(2));
}

#[test]
fn contains_starts_and_ends() {
    assert!(contains(&chars("model_bg.atlas"), &chars("_bg")));
    assert!(!contains(&chars("model.atlas"), &chars("_bg")));
    assert!(starts_with(&chars("model_bg1.json"), &chars("model_bg")));
    assert!(!starts_with(&chars("xmodel_bg1.json"), &chars("model_bg")));
    assert!(!starts_with(&chars("mod"), &chars("model")));
    assert!(starts_with(&chars("mod"), &chars("")));
    assert!(ends_with(&chars("model_bg1.json"), &chars(".json")));
    assert!(!ends_with(&chars("model_bg1.json5"), &chars(".json")));
    assert!(!ends_with(&chars("on"), &chars(".json")));
    assert!(ends_with(&chars("on"), &chars("")));
    assert!(matches_at(&chars("abcd"), &chars("bc"), 1));
    assert!(!matches_at(&chars("abcd"), &chars("bc"), 2));
    assert!(!matches_at(&chars("abcd"), &chars("d"), 4));
    assert!(matches_at(&chars("abcd"), &chars(""), 4));
    assert!(!matches_at(&chars("abcd"), &chars(""), 5));
}

#[test]
fn slices_and_concatenations() {
    assert_eq!(slice(&chars("model.atlas"), 5, 11), chars(".atlas"));
    assert_eq!(slice(&chars("model.atlas"), 0, 5), chars("model"));
    assert_eq!(slice(&chars("model"), 2, 2), chars(""));
    assert_eq!(joined(&chars("model"), &chars(".skel")), chars("model.skel"));
    assert_eq!(joined(&chars(""), &chars("")), chars(""));
}

#[test]
fn first_segment_is_stripped_at_the_first_slash() {
    assert_eq!(strip_first_segment(&chars("A/B/x.moc3")), chars("B/x.moc3"));
    assert_eq!(strip_first_segment(&chars("A/x.moc3")), chars("x.moc3"));
    assert_eq!(strip_first_segment(&chars("x.moc3")), chars("x.moc3"));
    assert_eq!(strip_first_segment(&chars("/x")), chars("x"));
    assert_eq!(strip_first_segment(&chars("A/")), chars(""));
    assert_eq!(strip_first_segment(&chars("")), chars(""));
}

#[test]
fn trimming_takes_every_repetition_of_the_suffix() {
    assert_eq!(trim_end_matches(&chars("model.json"), &chars(".json")), chars("model"));
    assert_eq!(trim_end_matches(&chars("x.json.json"), &chars(".json")), chars("x"));
    assert_eq!(trim_end_matches(&chars("x.json.skel"), &chars(".json")), chars("x.json.skel"));
    assert_eq!(trim_end_matches(&chars("aaa"), &chars("a")), chars(""));
    assert_eq!(trim_end_matches(&chars("aaa"), &chars("aa")), chars("a"));
    assert_eq!(trim_end_matches(&chars("abc"), &chars("")), chars("abc"));
    assert_eq!(trim_end_matches(&chars(""), &chars("a")), chars(""));
}

#[test]
fn directory_keys_use_slashes_and_end_with_one() {
    assert_eq!(normalize_directory(&chars("C:\\a\\b"), '\\'), chars("C:/a/b/"));
    assert_eq!(normalize_directory(&chars("C:\\a\\b\\"), '\\'), chars("C:/a/b/"));
    assert_eq!(normalize_directory(&chars("/a/b"), '/'), chars("/a/b/"));
    assert_eq!(normalize_directory(&chars("/a/b/"), '/'), chars("/a/b/"));
    assert_eq!(normalize_directory(&chars("a\\b"), '/'), chars("a\\b/"));
    assert_eq!(normalize_directory(&chars("a/b"), '\\'), chars("a/b/"));
    assert_eq!(normalize_directory(&chars(""), '/'), chars("/"));
    assert_eq!(normalize_directory(&chars("/"), '/'), chars("/"));
}

#[test]
fn relative_prefix_is_what_lies_below_the_root() {
    assert_eq!(strip_root(&chars("/r/"), &chars("/r/")), chars(""));
    assert_eq!(strip_root(&chars("/r/"), &chars("/r/A/")), chars("A/"));
    assert_eq!(strip_root(&chars("/r/"), &chars("/r/A/B/")), chars("A/B/"));
    assert_eq!(strip_root(&chars("/r/"), &chars("/rx/A/")), chars(""));
    assert_eq!(strip_root(&chars("/r/"), &chars("/")), chars(""));
}

#[test]
fn texts_are_ordered_by_code_point() {
    assert!(text_less_eq(&chars(""), &chars("")));
    assert!(text_less_eq(&chars(""), &chars("a")));
    assert!(!text_less_eq(&chars("a"), &chars("")));
    assert!(text_less_eq(&chars("a"), &chars("a")));
    assert!(text_less_eq(&chars("a"), &chars("ab")));
    assert!(!text_less_eq(&chars("ab"), &chars("a")));
    assert!(text_less_eq(&chars("Z"), &chars("a")));
    assert!(!text_less_eq(&chars("a"), &chars("Z")));
    assert!(text_less_eq(&chars("_bg10"), &chars("_bg2")));
    assert!(text_less_eq(&chars("z"), &chars("\u{e9}")));
    assert!(text_less_eq(&chars("\u{ffff}"), &chars("\u{10000}")));
    assert!(same_text(&chars("abc"), &chars("abc")));
    assert!(!same_text(&chars("abc"), &chars("abd")));
    assert!(!same_text(&chars("abc"), &chars("ab")));
    for (a, b) in [("a", "b"), ("ab", "a"), ("", "x"), ("\u{e9}", "z"), ("A", "a")] {
        assert_eq!(text_less_eq(&chars(a), &chars(b)), a <= b);
        assert_eq!(text_less_eq(&chars(b), &chars(a)), b <= a);
    }
}

#[test]
fn groups_are_ordered_text_by_text() {
    assert!(group_less_eq(&texts(&["a", "z"]), &texts(&["b", "a"])));
    assert!(!group_less_eq(&texts(&["b", "a"]), &texts(&["a", "z"])));
    assert!(group_less_eq(&texts(&["a", ".moc"]), &texts(&["a", ".moc3"])));
    assert!(!group_less_eq(&texts(&["a", ".moc3"]), &texts(&["a", ".moc"])));
    assert!(group_less_eq(&texts(&["a"]), &texts(&["a", "b"])));
    assert!(!group_less_eq(&texts(&["a", "b"]), &texts(&["a"])));
    assert!(group_less_eq(&texts(&[]), &texts(&[])));
    assert!(group_less_eq(&texts(&["a", "b"]), &texts(&["a", "b"])));
}

#[test]
fn insertion_keeps_a_list_sorted() {
    let mut sorted: Vec<Vec<char>> = Vec::new();
    for item in ["m", "a", "z", "m", "b", ""] {
        insert_text(&mut sorted, chars(item));
    }
    assert_eq!(sorted, texts(&["", "a", "b", "m", "m", "z"]));
    let mut groups: Vec<Vec<Vec<char>>> = Vec::new();
    for item in [&["m", "2"][..], &["a"][..], &["m", "1"][..], &["m"][..]] {
        insert_group(&mut groups, texts(item));
    }
    assert_eq!(
        groups,
        vec![texts(&["a"]), texts(&["m"]), texts(&["m", "1"]), texts(&["m", "2"])]
    );
}
