use exercises::exercise::{create_new_exercise, parse_mode, Exercise, Mode, State};

const COMPILE_PASS: &str = "fn main() {\n    let x: felt252 = 1;\n    assert(x == 1, 'x should be 1');\n}\n";
const TEST_PASS: &str = "fn add(a: felt252, b: felt252) -> felt252 {\n    a + b\n}\n\n#[test]\nfn test_add() {\n    assert(add(1, 2) == 3, 'sum');\n}\n";

#[test]
fn test_finished_exercise() {
    let exercise = Exercise {
        name: "finished_exercise".into(),
        path: String::from("tests/fixture/cairo/compilePass.cairo"),
        mode: Mode::Build,
        hint: String::new(),
    };

    assert_eq!(exercise.state(COMPILE_PASS), State::Done);
}

#[test]
fn test_cairo_test_passes() {
    let exercise = Exercise {
        name: "testPass".into(),
        path: String::from("tests/fixture/cairo/testPass.cairo"),
        mode: Mode::Build,
        hint: String::new(),
    };

    assert_eq!(exercise.state(TEST_PASS), State::Done);
}

#[test]
fn create_new_exercise_keeps_fields() {
    let e = create_new_exercise("intro1", "exercises/intro/intro1.cairo", Mode::Run, "read it");
    assert_eq!(e.name, "intro1");
    assert_eq!(e.path, "exercises/intro/intro1.cairo");
    assert_eq!(e.mode, Mode::Run);
    assert_eq!(e.hint, "read it");
    assert_eq!(e.to_string(), "exercises/intro/intro1.cairo");
}

#[test]
fn build_run_test_name_the_operation_and_path() {
    let e = create_new_exercise("x", "a/b.cairo", Mode::Test, "");
    let b = e.build();
    assert_eq!(b.action, Mode::Build);
    assert_eq!(b.path, "a/b.cairo");
    let r = e.run();
    assert_eq!(r.action, Mode::Run);
    assert_eq!(r.path, "a/b.cairo");
    let t = e.test();
    assert_eq!(t.action, Mode::Test);
    assert_eq!(t.path, "a/b.cairo");
}

#[test]
fn parse_mode_ignores_letter_case() {
    assert_eq!(parse_mode("build"), Some(Mode::Build));
    assert_eq!(parse_mode("Run"), Some(Mode::Run));
    assert_eq!(parse_mode("TEST"), Some(Mode::Test));
    assert_eq!(parse_mode("tEsT"), Some(Mode::Test));
}

#[test]
fn parse_mode_refuses_other_tokens() {
    assert_eq!(parse_mode(""), None);
    assert_eq!(parse_mode("builds"), None);
    assert_eq!(parse_mode("bui"), None);
    assert_eq!(parse_mode(" run"), None);
    assert_eq!(parse_mode("check"), None);
}
