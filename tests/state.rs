use exercises::exercise::{create_new_exercise, ContextLine, Exercise, Mode, State};

fn ex() -> Exercise {
    create_new_exercise("sample", "sample.cairo", Mode::Build, "")
}

fn line(text: &str, number: usize, important: bool) -> ContextLine {
    ContextLine { line: text.to_string(), number, important }
}

#[test]
fn example_marker_on_second_line() {
    let s = ex().state("fn main() {}\n// I AM NOT DONE\nlet x = 1;\n");
    assert_eq!(
        s,
        State::Pending(vec![
            line("fn main() {}", 1, false),
            line("// I AM NOT DONE", 2, true),
            line("let x = 1;", 3, false),
        ])
    );
}

#[test]
fn example_no_marker_is_done() {
    assert_eq!(ex().state("fn main() {}\n"), State::Done);
}

#[test]
fn example_irregular_spacing_matches() {
    let s = ex().state("///    i am NOT   done");
    assert_eq!(s, State::Pending(vec![line("///    i am NOT   done", 1, true)]));
}

#[test]
fn texts_without_marker_are_done() {
    let texts = [
        "",
        "\n",
        "fn main() {}",
        "x // I AM NOT DONE\n",
        "/ I AM NOT DONE\n",
        "//// I AM NOT DONE\n",
        "// IAM NOT DONE\n",
        "// I AM NOT\nDONE\n",
        "// I AM DONE\n",
        "/* I AM NOT DONE */\n",
    ];
    for t in texts {
        assert_eq!(ex().state(t), State::Done, "{:?}", t);
    }
}

#[test]
fn single_marker_gets_two_lines_each_side() {
    let src = "l0\nl1\nl2\nl3\nl4\n// I AM NOT DONE\nl6\nl7\nl8\nl9\n";
    assert_eq!(
        ex().state(src),
        State::Pending(vec![
            line("l3", 4, false),
            line("l4", 5, false),
            line("// I AM NOT DONE", 6, true),
            line("l6", 7, false),
            line("l7", 8, false),
        ])
    );
}

#[test]
fn marker_on_first_line_starts_context_at_one() {
    let src = "// I AM NOT DONE\na\nb\nc\n";
    assert_eq!(
        ex().state(src),
        State::Pending(vec![
            line("// I AM NOT DONE", 1, true),
            line("a", 2, false),
            line("b", 3, false),
        ])
    );
}

#[test]
fn marker_on_last_line_ends_context_at_last_line() {
    let src = "a\nb\nc\n  //I am not done";
    assert_eq!(
        ex().state(src),
        State::Pending(vec![
            line("b", 2, false),
            line("c", 3, false),
            line("  //I am not done", 4, true),
        ])
    );
}

#[test]
fn first_of_several_markers_is_the_pivot() {
    let src = "a\n// I AM NOT DONE\nb\nc\nd\ne\n// I AM NOT DONE\n";
    assert_eq!(
        ex().state(src),
        State::Pending(vec![
            line("a", 1, false),
            line("// I AM NOT DONE", 2, true),
            line("b", 3, false),
            line("c", 4, false),
        ])
    );
}

#[test]
fn carriage_returns_are_not_part_of_lines() {
    let src = "x\r\n// I AM NOT DONE\r\ny\r\n";
    assert_eq!(
        ex().state(src),
        State::Pending(vec![
            line("x", 1, false),
            line("// I AM NOT DONE", 2, true),
            line("y", 3, false),
        ])
    );
}

#[test]
fn unicode_whitespace_separates_words() {
    let src = "\u{3000}//\u{a0}I\tAM\u{2003}NOT\u{85}DONE\n";
    assert!(matches!(ex().state(src), State::Pending(_)));
}

#[test]
fn looks_done_agrees_with_state() {
    let texts = ["", "fn main() {}\n", "// I AM NOT DONE\n", "a\n   /// i Am NoT dOnE here\n"];
    for t in texts {
        assert_eq!(ex().looks_done(t), ex().state(t) == State::Done, "{:?}", t);
    }
    assert!(ex().looks_done("fn main() {}\n"));
    assert!(!ex().looks_done("// I AM NOT DONE\n"));
}
