use exercises::exercise::{create_new_exercise, Exercise, Mode, State};

fn ex() -> Exercise {
    create_new_exercise("sample", "sample.cairo", Mode::Test, "")
}

#[test]
fn mark_done_on_done_text_changes_nothing() {
    let texts = ["", "fn main() {}\n", "a\r\nb\n\n", "x // I AM NOT DONE\n"];
    for t in texts {
        assert_eq!(ex().mark_done(t), t);
    }
}

#[test]
fn mark_done_removes_every_marker() {
    let src = "a\n  // I AM NOT DONE\nb\n//I am not done trailing\n";
    assert_eq!(ex().mark_done(src), "a\n\nb\n trailing\n");
}

#[test]
fn mark_done_keeps_carriage_returns() {
    let src = "x\r\n/// I AM NOT DONE\r\ny";
    assert_eq!(ex().mark_done(src), "x\r\n\r\ny");
}

#[test]
fn mark_done_then_state_is_done() {
    let src = "fn main() {}\n// I AM NOT DONE\nlet x = 1;\n// i am not done\n";
    let out = ex().mark_done(src);
    assert_eq!(out, "fn main() {}\n\nlet x = 1;\n\n");
    assert_eq!(ex().state(&out), State::Done);
    assert!(ex().looks_done(&out));
}

#[test]
fn mark_done_twice_is_mark_done_once() {
    let src = "a\n// I AM NOT DONE\nb\n";
    let once = ex().mark_done(src);
    assert_eq!(ex().mark_done(&once), once);
}

#[test]
fn stacked_markers_are_all_removed() {
    let src = "// I AM NOT DONE // I AM NOT DONE\n";
    let once = ex().mark_done(src);
    assert_eq!(once, "\n");
    assert!(ex().looks_done(&once));
    assert_eq!(ex().mark_done(&once), once);
}

#[test]
fn back_to_back_markers_are_all_removed() {
    let src = "a\n//I AM NOT DONE//I AM NOT DONE\nb";
    let once = ex().mark_done(src);
    assert_eq!(once, "a\n\nb");
    assert_eq!(ex().state(&once), State::Done);
    assert_eq!(ex().mark_done(&once), once);
}

#[test]
fn text_after_stacked_markers_stays() {
    let src = "/// I AM NOT DONE   //i am not done rest\n";
    assert_eq!(ex().mark_done(src), " rest\n");
}
