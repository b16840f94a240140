use evalcore::engine::{Engine, StepOutcome};
use evalcore::error::EvalError;
use evalcore::expr::Expression;
use evalcore::feature::{FeatureGate, UnstableFeature};
use evalcore::scope::{Assignment, EvaluatedValue, Scope};
use evalcore::span::Span;

fn sp(line: usize, col: usize, len: usize) -> Span {
    Span { file_id: 0, start_line: line, start_col: col, end_line: line, end_col: col + len }
}

fn lit(text: &str, line: usize, col: usize) -> Expression {
    Expression::Literal { text: text.to_string(), span: sp(line, col, text.len()) }
}

fn reference(name: &str, line: usize, col: usize) -> Expression {
    Expression::Reference { name: name.to_string(), span: sp(line, col, name.len()) }
}

fn capture(command: &str, line: usize, col: usize) -> Expression {
    Expression::Capture {
        command: command.to_string(),
        span: sp(line, col, command.len() + 2),
    }
}

fn assign(name: &str, value: Expression) -> Assignment {
    Assignment { name: name.to_string(), value, exported: false }
}

fn scope(lazy: Option<bool>, export_setting: bool, assignments: Vec<Assignment>) -> Scope {
    Scope { assignments, lazy_setting: lazy, export_setting, submodules: Vec::new() }
}

fn roots(names: &[&str]) -> Vec<(String, Span)> {
    names.iter().map(|n| (n.to_string(), sp(80, 1, n.len()))).collect()
}

fn drive(
    mut engine: Engine,
    table: &[(&str, i32, &str)],
) -> (Result<Vec<EvaluatedValue>, EvalError>, Vec<String>) {
    let mut requested: Vec<String> = Vec::new();
    loop {
        match engine.step() {
            StepOutcome::Finished => return (Ok(engine.values()), requested),
            StepOutcome::RunCommand { command, span: _ } => {
                requested.push(command.clone());
                let entry = table.iter().find(|t| t.0 == command.as_str());
                let (exit, out) = match entry {
                    Some(t) => (t.1, t.2),
                    None => panic!("unexpected command: {}", command),
                };
                engine.provide(exit, out.to_string());
                if exit != 0 {
                    return (Err(engine.failure.unwrap()), requested);
                }
            }
        }
    }
}

fn value_of<'a>(values: &'a [EvaluatedValue], name: &str) -> Option<&'a str> {
    values
        .iter()
        .find(|v| v.name == name)
        .map(|v| v.string_value.as_str())
}

#[test]
fn gate_messages_are_fixed() {
    let gate = FeatureGate::new(false);
    let expected = [
        (
            UnstableFeature::FormatSubcommand,
            "The `--fmt` command is currently unstable.",
        ),
        (
            UnstableFeature::LazySetting,
            "The `lazy` setting is currently unstable.",
        ),
        (
            UnstableFeature::LogicalOperators,
            "The logical operators `&&` and `||` are currently unstable.",
        ),
        (
            UnstableFeature::WhichFunction,
            "The `which()` function is currently unstable.",
        ),
    ];
    for (feature, message) in expected {
        match gate.check(feature) {
            Err(EvalError::Unstable { feature: f, message: m }) => {
                assert_eq!(f, feature);
                assert_eq!(m, message);
            }
            _ => panic!("expected {} to be gated", message),
        }
    }
}

#[test]
fn gate_opt_in_allows_all_features() {
    let gate = FeatureGate::new(true);
    for feature in [
        UnstableFeature::FormatSubcommand,
        UnstableFeature::LazySetting,
        UnstableFeature::LogicalOperators,
        UnstableFeature::WhichFunction,
    ] {
        assert!(gate.check(feature).is_ok());
    }
}

#[test]
fn capture_memoized_across_two_paths() {
    // shared := `echo hi`; u := shared + shared; v := shared — one run of
    // the command, however many references read the value.
    let s = scope(
        Some(true),
        false,
        vec![
            assign("shared", capture("echo hi", 1, 11)),
            assign(
                "u",
                Expression::Concat {
                    parts: vec![reference("shared", 2, 6), reference("shared", 2, 15)],
                    span: sp(2, 6, 15),
                },
            ),
            assign("v", reference("shared", 3, 6)),
        ],
    );
    let gate = FeatureGate::new(true);
    let engine = Engine::new(s, &roots(&["u", "v"]), &gate).unwrap();
    let (r, requested) = drive(engine, &[("echo hi", 0, "hi\n")]);
    let values = r.unwrap();
    assert_eq!(requested, vec!["echo hi".to_string()]);
    assert_eq!(value_of(&values, "shared"), Some("hi\n"));
    assert_eq!(value_of(&values, "u"), Some("hi\nhi\n"));
    assert_eq!(value_of(&values, "v"), Some("hi\n"));
}

#[test]
fn backtick_span_survives_dependency_hops() {
    // a := b; b := `exit 3` — the error points at the capture's own span,
    // not at the assignment that demanded it.
    let s = scope(
        Some(true),
        false,
        vec![
            assign("a", reference("b", 2, 6)),
            assign("b", capture("exit 3", 5, 9)),
        ],
    );
    let gate = FeatureGate::new(true);
    let engine = Engine::new(s, &roots(&["a"]), &gate).unwrap();
    let (r, _) = drive(engine, &[("exit 3", 3, "")]);
    match r {
        Err(EvalError::BacktickFailed { exit_code, span }) => {
            assert_eq!(exit_code, 3);
            assert_eq!(span.start_line, 5);
            assert_eq!(span.start_col, 9);
            assert_eq!(span.end_col, 17);
        }
        _ => panic!("expected the buried backtick to fail with its own span"),
    }
}

#[test]
fn dependency_cycle_is_detected() {
    let s = scope(
        None,
        false,
        vec![
            assign("a", reference("b", 1, 6)),
            assign("b", reference("a", 2, 6)),
        ],
    );
    let gate = FeatureGate::new(false);
    match Engine::new(s, &roots(&[]), &gate) {
        Err(EvalError::CyclicDependency { cycle_names }) => {
            assert_eq!(cycle_names, vec!["a".to_string(), "b".to_string()]);
        }
        _ => panic!("expected the reference cycle to be reported"),
    }
}

#[test]
fn undefined_reference_reports_name_and_span() {
    let s = scope(None, false, vec![assign("a", reference("nope", 4, 6))]);
    let gate = FeatureGate::new(false);
    match Engine::new(s, &roots(&[]), &gate) {
        Err(EvalError::UndefinedReference { name, span }) => {
            assert_eq!(name, "nope");
            assert_eq!(span.start_line, 4);
            assert_eq!(span.start_col, 6);
        }
        _ => panic!("expected the undefined reference to be reported"),
    }
}

#[test]
fn undefined_external_root_reports_its_span() {
    let s = scope(None, false, Vec::new());
    let gate = FeatureGate::new(false);
    let ext = vec![("ghost".to_string(), sp(7, 12, 5))];
    match Engine::new(s, &ext, &gate) {
        Err(EvalError::UndefinedReference { name, span }) => {
            assert_eq!(name, "ghost");
            assert_eq!(span.start_line, 7);
            assert_eq!(span.start_col, 12);
        }
        _ => panic!("expected the unknown root to be reported"),
    }
}

#[test]
fn unselected_conditional_branch_not_evaluated() {
    // A capture in the unselected branch never runs, even eagerly.
    let cond = Expression::Conditional {
        cond: Box::new(lit("yes", 1, 11)),
        then_branch: Box::new(lit("picked", 1, 17)),
        else_branch: Box::new(capture("exit 1", 1, 26)),
        span: sp(1, 6, 30),
    };
    let s = scope(None, false, vec![assign("a", cond)]);
    let gate = FeatureGate::new(false);
    let engine = Engine::new(s, &roots(&[]), &gate).unwrap();
    let (r, requested) = drive(engine, &[]);
    let values = r.unwrap();
    assert!(requested.is_empty());
    assert_eq!(value_of(&values, "a"), Some("picked"));
}

#[test]
fn empty_conditional_selects_else_branch() {
    let cond = Expression::Conditional {
        cond: Box::new(lit("", 1, 11)),
        then_branch: Box::new(lit("then", 1, 14)),
        else_branch: Box::new(lit("other", 1, 21)),
        span: sp(1, 6, 22),
    };
    let s = scope(None, false, vec![assign("a", cond)]);
    let gate = FeatureGate::new(false);
    let engine = Engine::new(s, &roots(&[]), &gate).unwrap();
    let (r, _) = drive(engine, &[]);
    assert_eq!(value_of(&r.unwrap(), "a"), Some("other"));
}

#[test]
fn concatenation_joins_parts_in_order() {
    let e = Expression::Concat {
        parts: vec![
            lit("pre-", 1, 6),
            capture("echo x", 1, 13),
            reference("tail", 1, 23),
        ],
        span: sp(1, 6, 22),
    };
    let s = scope(
        None,
        false,
        vec![assign("tail", lit("-post", 2, 9)), assign("joined", e)],
    );
    let gate = FeatureGate::new(false);
    let engine = Engine::new(s, &roots(&[]), &gate).unwrap();
    let (r, _) = drive(engine, &[("echo x", 0, "X")]);
    assert_eq!(value_of(&r.unwrap(), "joined"), Some("pre-X-post"));
}

#[test]
fn later_declaration_shadows_earlier() {
    let s = scope(
        None,
        false,
        vec![assign("x", lit("first", 1, 6)), assign("x", lit("second", 2, 6))],
    );
    let gate = FeatureGate::new(false);
    let engine = Engine::new(s, &roots(&[]), &gate).unwrap();
    let (r, _) = drive(engine, &[]);
    let values = r.unwrap();
    assert_eq!(values.len(), 1);
    assert_eq!(value_of(&values, "x"), Some("second"));
}

#[test]
fn error_kind_messages() {
    let unstable = EvalError::Unstable {
        feature: UnstableFeature::LazySetting,
        message: "The `lazy` setting is currently unstable.".to_string(),
    };
    assert_eq!(unstable.kind_message(), "error: unstable feature");
    let backtick = EvalError::BacktickFailed { exit_code: 1, span: sp(1, 1, 1) };
    assert_eq!(
        backtick.kind_message(),
        "error: Backtick failed with exit code"
    );
    let cycle = EvalError::CyclicDependency { cycle_names: vec!["a".to_string()] };
    assert_eq!(cycle.kind_message(), "error: variable dependency cycle");
    let undef = EvalError::UndefinedReference { name: "x".to_string(), span: sp(1, 1, 1) };
    assert_eq!(undef.kind_message(), "error: variable not defined");
}

#[test]
fn eager_order_follows_declaration_for_independent_names() {
    let s = scope(
        None,
        false,
        vec![
            assign("b", lit("1", 1, 6)),
            assign("a", lit("2", 2, 6)),
            assign("c", reference("a", 3, 6)),
        ],
    );
    let gate = FeatureGate::new(false);
    let engine = Engine::new(s, &roots(&[]), &gate).unwrap();
    let (r, _) = drive(engine, &[]);
    let values = r.unwrap();
    let names: Vec<&str> = values.iter().map(|v| v.name.as_str()).collect();
    // Declaration order among ready names: b first, then a, then c, which
    // depends on a.
    assert_eq!(names, vec!["b", "a", "c"]);
}
