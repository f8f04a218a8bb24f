use irl_renamer::casing::CaseType;
use irl_renamer::renamer::{
    apply_rule, default_group_size, default_padding, default_repad_padding,
    default_segments_separator, default_start, default_step, numbering_fits, split_name_ext,
    NumberPosition, RenamePreview, RenameRule,
};

fn names(v: &[&str]) -> Vec<String> {
    v.iter().map(|s| s.to_string()).collect()
}

fn renamed(previews: &[RenamePreview]) -> Vec<String> {
    previews.iter().map(|p| p.renamed.clone()).collect()
}

#[test]
fn search_replace_rewrites_the_stem_only() {
    let rule = RenameRule::SearchReplace { search: "photo".to_string(), replace: "img".to_string() };
    let r = apply_rule(&names(&["photo_001.photo", "other.txt"]), &rule).unwrap();
    assert_eq!(r.len(), 2);
    assert_eq!(r[0].original, "photo_001.photo");
    assert_eq!(r[0].renamed, "img_001.photo");
    assert!(r[0].changed);
    assert_eq!(r[1].renamed, "other.txt");
    assert!(!r[1].changed);
}

#[test]
fn search_replace_with_empty_search_inserts_everywhere() {
    let rule = RenameRule::SearchReplace { search: String::new(), replace: "-".to_string() };
    let r = apply_rule(&names(&["ab.txt"]), &rule).unwrap();
    assert_eq!(r[0].renamed, "-a-b-.txt");
}

#[test]
fn search_replace_by_itself_changes_nothing() {
    let rule = RenameRule::SearchReplace { search: "ab".to_string(), replace: "ab".to_string() };
    let r = apply_rule(&names(&["abcab.txt", "xyz"]), &rule).unwrap();
    assert_eq!(renamed(&r), names(&["abcab.txt", "xyz"]));
    assert!(!r[0].changed && !r[1].changed);
}

#[test]
fn regex_replace_replaces_every_match() {
    let rule = RenameRule::RegexReplace { pattern: "\\d+".to_string(), replace: "N".to_string() };
    let r = apply_rule(&names(&["a1b22.txt", "none.txt"]), &rule).unwrap();
    assert_eq!(renamed(&r), names(&["aNbN.txt", "none.txt"]));
}

#[test]
fn regex_replace_uses_capture_groups() {
    let rule = RenameRule::RegexReplace {
        pattern: "(\\w+)-(\\w+)".to_string(),
        replace: "$2-$1".to_string(),
    };
    let r = apply_rule(&names(&["left-right.md"]), &rule).unwrap();
    assert_eq!(r[0].renamed, "right-left.md");
}

#[test]
fn invalid_regex_is_refused() {
    let rule = RenameRule::RegexReplace { pattern: "(".to_string(), replace: "x".to_string() };
    let e = apply_rule(&names(&["a.txt"]), &rule).unwrap_err();
    assert!(e.starts_with("Regex invalide: "));
    assert!(e.len() > "Regex invalide: ".len());
}

#[test]
fn invalid_regex_without_names_is_not_compiled() {
    let rule = RenameRule::RegexReplace { pattern: "(".to_string(), replace: "x".to_string() };
    let r = apply_rule(&[], &rule).unwrap();
    assert!(r.is_empty());
}

#[test]
fn prefix_and_suffix_surround_the_stem() {
    let rule = RenameRule::PrefixSuffix { prefix: "pre_".to_string(), suffix: "_suf".to_string() };
    let r = apply_rule(&names(&["x.png", ".bashrc"]), &rule).unwrap();
    assert_eq!(renamed(&r), names(&["pre_x_suf.png", "pre_.bashrc_suf"]));
}

#[test]
fn a_final_dot_is_dropped_even_by_an_empty_rule() {
    let rule = RenameRule::PrefixSuffix { prefix: String::new(), suffix: String::new() };
    let r = apply_rule(&names(&["a.", "b.txt", ".", "plain"]), &rule).unwrap();
    assert_eq!(renamed(&r), names(&["a", "b.txt", ".", "plain"]));
    assert!(r[0].changed);
    assert!(!r[1].changed && !r[2].changed && !r[3].changed);
}

#[test]
fn numbering_as_prefix() {
    let rule = RenameRule::Numbering {
        start: 1,
        step: 1,
        padding: 3,
        position: NumberPosition::Prefix,
        separator: "_".to_string(),
    };
    let r = apply_rule(&names(&["a.txt", "b.txt", "c"]), &rule).unwrap();
    assert_eq!(renamed(&r), names(&["001_a.txt", "002_b.txt", "003_c"]));
}

#[test]
fn numbering_as_suffix_with_step() {
    let rule = RenameRule::Numbering {
        start: 5,
        step: 5,
        padding: 1,
        position: NumberPosition::Suffix,
        separator: "-".to_string(),
    };
    let r = apply_rule(&names(&["a.txt", "b.txt", "c.txt"]), &rule).unwrap();
    assert_eq!(renamed(&r), names(&["a-5.txt", "b-10.txt", "c-15.txt"]));
}

#[test]
fn numbering_fits_checks_overflow() {
    let rule = RenameRule::Numbering {
        start: usize::MAX,
        step: 1,
        padding: 0,
        position: NumberPosition::Prefix,
        separator: String::new(),
    };
    assert!(numbering_fits(&rule, 0));
    assert!(numbering_fits(&rule, 1));
    assert!(!numbering_fits(&rule, 2));
    let other = RenameRule::Repad { padding: 2 };
    assert!(numbering_fits(&other, usize::MAX));
}

#[test]
fn change_case_styles() {
    let cases = [
        (CaseType::Upper, "hello World.txt", "HELLO WORLD.txt"),
        (CaseType::Lower, "Hello WORLD.txt", "hello world.txt"),
        (CaseType::Title, "hello_world-FOO.txt", "Hello World Foo.txt"),
        (CaseType::Camel, "hello_world-foo.txt", "helloWorldFoo.txt"),
        (CaseType::Snake, "HelloWorld Again.txt", "hello_world_again.txt"),
        (CaseType::Kebab, "Hello World_again.txt", "hello-world-again.txt"),
    ];
    for (case_type, input, expected) in cases {
        let rule = RenameRule::ChangeCase { case_type };
        let r = apply_rule(&names(&[input]), &rule).unwrap();
        assert_eq!(r[0].renamed, expected);
    }
}

#[test]
fn repad_detects_the_widest_number() {
    let rule = RenameRule::Repad { padding: 0 };
    let r = apply_rule(&names(&["img1.jpg", "img10.jpg", "img100.jpg"]), &rule).unwrap();
    assert_eq!(renamed(&r), names(&["img001.jpg", "img010.jpg", "img100.jpg"]));
}

#[test]
fn repad_with_a_fixed_width() {
    let rule = RenameRule::Repad { padding: 2 };
    let r = apply_rule(&names(&["a5b007c.txt", "x123.txt", "none.txt"]), &rule).unwrap();
    assert_eq!(renamed(&r), names(&["a05b07c.txt", "x123.txt", "none.txt"]));
}

#[test]
fn repad_reads_leading_zeros_as_the_value() {
    let rule = RenameRule::Repad { padding: 0 };
    let r = apply_rule(&names(&["v0007.txt", "v12.txt"]), &rule).unwrap();
    assert_eq!(renamed(&r), names(&["v07.txt", "v12.txt"]));
}

#[test]
fn segments_keep_and_append() {
    let rule = RenameRule::Segments {
        separator: "_".to_string(),
        keep: "1-2".to_string(),
        join: String::new(),
        append: "_###".to_string(),
        cycle: String::new(),
        group_size: 1,
    };
    let r = apply_rule(&names(&["a_b_c.txt", "d_e_f.txt"]), &rule).unwrap();
    assert_eq!(renamed(&r), names(&["a_b_001.txt", "d_e_002.txt"]));
}

#[test]
fn segments_cycle_with_groups() {
    let rule = RenameRule::Segments {
        separator: String::new(),
        keep: "1".to_string(),
        join: String::new(),
        append: "_@#".to_string(),
        cycle: "FR, EN".to_string(),
        group_size: 2,
    };
    let files = names(&["x_1.mp3", "x_2.mp3", "x_3.mp3", "x_4.mp3", "x_5.mp3", "x_6.mp3"]);
    let r = apply_rule(&files, &rule).unwrap();
    assert_eq!(
        renamed(&r),
        names(&["x_FR1.mp3", "x_FR2.mp3", "x_EN1.mp3", "x_EN2.mp3", "x_FR3.mp3", "x_FR4.mp3"])
    );
}

#[test]
fn split_name_ext_cases() {
    assert_eq!(split_name_ext("archive.tar.gz"), ("archive.tar".to_string(), "gz".to_string()));
    assert_eq!(split_name_ext("noext"), ("noext".to_string(), String::new()));
    assert_eq!(split_name_ext(".bashrc"), (".bashrc".to_string(), String::new()));
    assert_eq!(split_name_ext("a."), ("a".to_string(), String::new()));
    assert_eq!(split_name_ext(""), (String::new(), String::new()));
}

#[test]
fn name_parts_rebuild_the_name() {
    for name in ["photo.jpg", "a.b.c", "x", ".hidden", "été.png"] {
        let (stem, ext) = split_name_ext(name);
        let rebuilt = if ext.is_empty() { stem.clone() } else { format!("{stem}.{ext}") };
        assert_eq!(rebuilt, name);
        assert!(!ext.contains('.'));
    }
}

#[test]
fn defaults() {
    assert_eq!(default_start(), 1);
    assert_eq!(default_step(), 1);
    assert_eq!(default_padding(), 3);
    assert_eq!(default_repad_padding(), 0);
    assert_eq!(default_segments_separator(), "_");
    assert_eq!(default_group_size(), 1);
    assert!(matches!(NumberPosition::default(), NumberPosition::Prefix));
}

#[test]
fn repad_never_fails() {
    let rule = RenameRule::Repad { padding: 0 };
    assert!(apply_rule(&[], &rule).unwrap().is_empty());
    let r = apply_rule(&names(&["no digits", "a1", "b22c333"]), &rule).unwrap();
    assert_eq!(renamed(&r), names(&["no digits", "a001", "b022c333"]));
}

#[test]
fn detected_width_is_the_widest_over_all_names() {
    let rule = RenameRule::Repad { padding: 0 };
    let r = apply_rule(&names(&["x7", "y", "z42"]), &rule).unwrap();
    assert_eq!(renamed(&r), names(&["x07", "y", "z42"]));
}
