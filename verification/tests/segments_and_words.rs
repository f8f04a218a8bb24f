use irl_renamer::casing::{
    apply_case, split_words, to_camel_case, to_kebab_case, to_snake_case, to_title_case, CaseType,
};
use irl_renamer::segments::{apply_segments, expand_placeholders, parse_keep_range};

#[test]
fn keep_range_forms() {
    assert_eq!(parse_keep_range("1-3", 5), vec![0, 1, 2]);
    assert_eq!(parse_keep_range("2-", 4), vec![1, 2, 3]);
    assert_eq!(parse_keep_range("-2", 4), vec![0, 1]);
    assert_eq!(parse_keep_range("1,3,5", 4), vec![0, 2]);
    assert_eq!(parse_keep_range(" 1-2 , 4 ", 5), vec![0, 1, 3]);
    assert_eq!(parse_keep_range("x,2", 5), vec![1]);
    assert_eq!(parse_keep_range("0", 3), vec![0]);
    assert_eq!(parse_keep_range("2-9", 3), vec![1, 2]);
    assert_eq!(parse_keep_range("1,,1", 2), vec![0, 0]);
}

#[test]
fn an_unreadable_keep_setting_keeps_everything() {
    assert_eq!(parse_keep_range("x", 3), vec![0, 1, 2]);
    assert_eq!(parse_keep_range(",,", 2), vec![0, 1]);
    assert_eq!(parse_keep_range("a, b", 2), vec![0, 1]);
    assert_eq!(apply_segments("a_b_c", "_", "oops", "", "", "", 1, 0), "a_b_c");
}

#[test]
fn a_readable_keep_setting_may_select_nothing() {
    assert_eq!(parse_keep_range("3-1", 5), Vec::<usize>::new());
    assert_eq!(parse_keep_range("9", 3), Vec::<usize>::new());
    assert_eq!(parse_keep_range("2,7", 3), vec![1]);
    assert_eq!(parse_keep_range("2,1,1", 3), vec![1, 0, 0]);
    assert_eq!(apply_segments("a_b_c", "_", "3-1", "", "_#", "", 1, 0), "_1");
}

#[test]
fn blank_keep_keeps_everything() {
    assert_eq!(parse_keep_range("", 3), vec![0, 1, 2]);
    assert_eq!(parse_keep_range("   ", 2), vec![0, 1]);
    assert_eq!(parse_keep_range("", 0), Vec::<usize>::new());
}

#[test]
fn placeholders_expand() {
    assert_eq!(expand_placeholders("img_##@", 4, "FR"), "img_05FR");
    assert_eq!(expand_placeholders("#", 0, ""), "1");
    assert_eq!(expand_placeholders("#-###", 9, ""), "10-010");
    assert_eq!(expand_placeholders("@@", 0, "ab"), "abab");
}

#[test]
fn plain_template_is_kept() {
    assert_eq!(expand_placeholders("_final v2", 41, "EN"), "_final v2");
    assert_eq!(expand_placeholders("", 3, "X"), "");
}

#[test]
fn segments_with_all_kept_give_the_stem_back() {
    for stem in ["a_b_c", "single", "_lead", "trail_", ""] {
        assert_eq!(apply_segments(stem, "", "", "", "", "", 1, 7), stem);
        assert_eq!(apply_segments(stem, "_", "  ", "", "", "FR,EN", 3, 2), stem);
    }
}

#[test]
fn segments_rejoin_with_another_separator() {
    assert_eq!(apply_segments("a-b-c-d", "-", "1,3", "+", "", "", 1, 0), "a+c");
    assert_eq!(apply_segments("a-b-c-d", "-", "2-", "", "", "", 1, 0), "b-c-d");
    assert_eq!(apply_segments("a--b", "--", "2", "", "@", "X", 1, 0), "bX");
}

#[test]
fn segment_counters_follow_the_cycle() {
    // cycle FR,EN with groups of one: FR, EN, FR, EN ...
    let got: Vec<String> = (0..5)
        .map(|i| apply_segments("s", "_", "", "", "@#", "FR,EN", 1, i))
        .collect();
    assert_eq!(got, vec!["sFR1", "sEN1", "sFR2", "sEN2", "sFR3"]);
    // a value listed twice: FR,FR,EN,DE
    let got: Vec<String> = (0..8)
        .map(|i| apply_segments("s", "_", "", "", "@#", "FR,FR,EN,DE", 0, i))
        .collect();
    assert_eq!(
        got,
        vec!["sFR1", "sFR2", "sEN1", "sDE1", "sFR3", "sFR4", "sEN2", "sDE2"]
    );
}

#[test]
fn empty_cycle_counts_by_index() {
    assert_eq!(apply_segments("s", "_", "", "", "##", " , ,", 1, 6), "s07");
}

#[test]
fn words_are_split_on_separators_and_case_changes() {
    assert_eq!(split_words("helloWorld foo_bar"), vec!["hello", "World", "foo", "bar"]);
    assert_eq!(split_words("__a--b..c  "), vec!["a", "b", "c"]);
    assert_eq!(split_words("ABCdef"), vec!["ABCdef"]);
    assert_eq!(split_words(""), Vec::<String>::new());
    assert_eq!(split_words("éTé"), vec!["é", "Té"]);
}

#[test]
fn words_keep_every_letter() {
    let s = "my_File-name.v2 final";
    let joined: String = split_words(s).concat();
    let without: String = s.chars().filter(|c| !"_-. ".contains(*c)).collect();
    assert_eq!(joined, without);
}

#[test]
fn case_functions() {
    assert_eq!(to_title_case("hELLO wORLD"), "H Ello W Orld");
    assert_eq!(to_title_case("hello WORLD"), "Hello World");
    assert_eq!(to_camel_case("Hello_big-World"), "helloBigWorld");
    assert_eq!(to_snake_case("someCamelCase"), "some_camel_case");
    assert_eq!(to_kebab_case("Some Title Here"), "some-title-here");
    assert_eq!(to_title_case("ß straße"), "SS Straße");
    assert_eq!(to_camel_case(""), "");
    assert_eq!(apply_case("Ab", &CaseType::Upper), "AB");
    assert_eq!(apply_case("Ab", &CaseType::Lower), "ab");
}
