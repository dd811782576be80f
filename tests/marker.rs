use exercises::marker::find_marker_end;
use regex::Regex;

fn end_of(line: &str) -> Option<usize> {
    let chars: Vec<char> = line.chars().collect();
    find_marker_end(&chars)
}

#[test]
fn marker_ends_after_done() {
    assert_eq!(end_of("// I AM NOT DONE"), Some(16));
    assert_eq!(end_of("  ///I   am not done yet"), Some(20));
    assert_eq!(end_of("//I AM NOT DONE!"), Some(15));
}

#[test]
fn non_markers_have_no_end() {
    assert_eq!(end_of(""), None);
    assert_eq!(end_of("//"), None);
    assert_eq!(end_of("// I AM NOT DON"), None);
    assert_eq!(end_of("// I AMNOT DONE"), None);
    assert_eq!(end_of("code // I AM NOT DONE"), None);
}

#[test]
fn grammar_agrees_with_the_pattern() {
    let re = Regex::new(r"^\s*///?\s*(?i:I\s+AM\s+NOT\s+DONE)").unwrap();
    let lines = [
        "// I AM NOT DONE",
        "/// I AM NOT DONE",
        "//// I AM NOT DONE",
        "/ I AM NOT DONE",
        "\t \t//I\tAM  NOT DONE and more",
        "// i am not done",
        "//    I    Am    nOt    DoNe",
        "// I AM NOT",
        "// IAM NOT DONE",
        "x // I AM NOT DONE",
        "//\u{2009}I\u{a0}AM\u{3000}NOT\u{85}DONE",
        "// I AM NOT DONE // I AM NOT DONE",
        "",
        "   ",
        "//",
        "///",
    ];
    for l in lines {
        let expected = re.find(l).map(|m| l[..m.end()].chars().count());
        assert_eq!(end_of(l), expected, "{:?}", l);
    }
}
