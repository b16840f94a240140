use evalcore::engine::{Engine, StepOutcome};
use evalcore::error::EvalError;
use evalcore::expr::Expression;
use evalcore::feature::{FeatureGate, UnstableFeature};
use evalcore::scope::{Assignment, EvaluatedValue, Scope, Submodule};
use evalcore::span::Span;

fn sp(line: usize, col: usize, len: usize) -> Span {
    Span { file_id: 0, start_line: line, start_col: col, end_line: line, end_col: col + len }
}

fn lit(text: &str, line: usize, col: usize) -> Expression {
    Expression::Literal { text: text.to_string(), span: sp(line, col, text.len()) }
}

fn reference(name: &str, line: usize, col: usize) -> Expression {
    Expression::Reference { name: name.to_string(), span: sp(line, col, name.len()) }
}

fn capture(command: &str, line: usize, col: usize) -> Expression {
    Expression::Capture {
        command: command.to_string(),
        span: sp(line, col, command.len() + 2),
    }
}

fn assign(name: &str, value: Expression) -> Assignment {
    Assignment { name: name.to_string(), value, exported: false }
}

fn export(name: &str, value: Expression) -> Assignment {
    Assignment { name: name.to_string(), value, exported: true }
}

fn scope(lazy: Option<bool>, export_setting: bool, assignments: Vec<Assignment>) -> Scope {
    Scope { assignments, lazy_setting: lazy, export_setting, submodules: Vec::new() }
}

fn roots(names: &[&str]) -> Vec<(String, Span)> {
    names.iter().map(|n| (n.to_string(), sp(90, 1, n.len()))).collect()
}

/// Drives an engine against a table of simulated command outcomes,
/// recording every command the engine asks to run.
fn run(
    mut engine: Engine,
    table: &[(&str, i32, &str)],
) -> (Result<Vec<EvaluatedValue>, EvalError>, Vec<String>) {
    let mut requested: Vec<String> = Vec::new();
    loop {
        match engine.step() {
            StepOutcome::Finished => return (Ok(engine.values()), requested),
            StepOutcome::RunCommand { command, span: _ } => {
                requested.push(command.clone());
                let entry = table.iter().find(|t| t.0 == command.as_str());
                let (exit, out) = match entry {
                    Some(t) => (t.1, t.2),
                    None => panic!("unexpected command: {}", command),
                };
                engine.provide(exit, out.to_string());
                if exit != 0 {
                    return (Err(engine.failure.unwrap()), requested);
                }
            }
        }
    }
}

fn value_of<'a>(values: &'a [EvaluatedValue], name: &str) -> Option<&'a str> {
    values
        .iter()
        .find(|v| v.name == name)
        .map(|v| v.string_value.as_str())
}

#[test]
fn lazy_is_unstable() {
    // set lazy
    //
    // foo:
    //   @echo hello
    let s = scope(Some(true), false, Vec::new());
    let gate = FeatureGate::new(false);
    match Engine::new(s, &roots(&[]), &gate) {
        Err(EvalError::Unstable { feature, message }) => {
            assert_eq!(feature, UnstableFeature::LazySetting);
            assert_eq!(message, "The `lazy` setting is currently unstable.");
        }
        _ => panic!("expected the lazy setting to be refused without the opt-in"),
    }
}

#[test]
fn lazy_unused_not_evaluated() {
    // set lazy
    //
    // unused := `exit 1`
    //
    // foo:
    //   @echo hello
    let s = scope(Some(true), false, vec![assign("unused", capture("exit 1", 3, 11))]);
    let gate = FeatureGate::new(true);
    let engine = Engine::new(s, &roots(&[]), &gate).unwrap();
    let (r, requested) = run(engine, &[]);
    let values = r.unwrap();
    assert!(requested.is_empty());
    assert!(value_of(&values, "unused").is_none());
}

#[test]
fn lazy_used_is_evaluated() {
    // set lazy
    //
    // used := `exit 1`
    //
    // @foo:
    //   echo foo
    //   echo {{used}}
    let s = scope(Some(true), false, vec![assign("used", capture("exit 1", 3, 9))]);
    let gate = FeatureGate::new(true);
    let engine = Engine::new(s, &roots(&["used"]), &gate).unwrap();
    let (r, requested) = run(engine, &[("exit 1", 1, "")]);
    assert_eq!(requested, vec!["exit 1".to_string()]);
    match r {
        Err(EvalError::BacktickFailed { exit_code, span }) => {
            assert_eq!(exit_code, 1);
            assert_eq!(span.start_line, 3);
            assert_eq!(span.start_col, 9);
        }
        _ => panic!("expected the used backtick to fail the run"),
    }
}

#[test]
fn eager_unused_evaluated() {
    // unused := `exit 1`
    //
    // foo:
    //   @echo hello
    let s = scope(None, false, vec![assign("unused", capture("exit 1", 1, 11))]);
    let gate = FeatureGate::new(false);
    let engine = Engine::new(s, &roots(&[]), &gate).unwrap();
    let (r, _) = run(engine, &[("exit 1", 1, "")]);
    match r {
        Err(EvalError::BacktickFailed { exit_code, span }) => {
            assert_eq!(exit_code, 1);
            assert_eq!(span.start_line, 1);
            assert_eq!(span.start_col, 11);
        }
        _ => panic!("expected the unused backtick to fail an eager run"),
    }
}

#[test]
fn lazy_exports_always_evaluated() {
    // set lazy
    //
    // export X := 'exported'
    //
    // foo:
    //   @echo $X
    let s = scope(Some(true), false, vec![export("X", lit("exported", 3, 13))]);
    let gate = FeatureGate::new(true);
    let engine = Engine::new(s, &roots(&[]), &gate).unwrap();
    let (r, _) = run(engine, &[]);
    let values = r.unwrap();
    assert_eq!(value_of(&values, "X"), Some("exported"));
}

#[test]
fn lazy_export_setting_evaluates_all() {
    // set lazy
    // set export
    //
    // X := 'exported'
    //
    // foo:
    //   @echo $X
    let s = scope(Some(true), true, vec![assign("X", lit("exported", 4, 6))]);
    let gate = FeatureGate::new(true);
    let engine = Engine::new(s, &roots(&[]), &gate).unwrap();
    let (r, _) = run(engine, &[]);
    let values = r.unwrap();
    assert_eq!(value_of(&values, "X"), Some("exported"));
}

#[test]
fn lazy_submodule_unused_root() {
    // set lazy
    //
    // unused := `exit 1`
    //
    // mod sub
    //
    // sub/mod.just:
    // foo:
    //   @echo hello
    let sub = Scope {
        assignments: Vec::new(),
        lazy_setting: None,
        export_setting: false,
        submodules: Vec::new(),
    };
    let parent = Scope {
        assignments: vec![assign("unused", capture("exit 1", 3, 11))],
        lazy_setting: Some(true),
        export_setting: false,
        submodules: vec![Submodule { name: "sub".to_string(), scope: sub }],
    };
    let gate = FeatureGate::new(true);
    // Invoking a task inside the submodule demands nothing of the parent;
    // the child scope is evaluated on its own, from its own assignments.
    let child = parent.submodule(&"sub".to_string()).expect("submodule");
    let child = Scope {
        assignments: Vec::new(),
        lazy_setting: child.lazy_setting,
        export_setting: child.export_setting,
        submodules: Vec::new(),
    };
    let child_engine = Engine::new(child, &roots(&[]), &gate).unwrap();
    let (r, requested) = run(child_engine, &[]);
    assert!(r.is_ok());
    assert!(requested.is_empty());
    let parent_engine = Engine::new(parent, &roots(&[]), &gate).unwrap();
    let (r, requested) = run(parent_engine, &[]);
    assert!(r.unwrap().is_empty());
    assert!(requested.is_empty());
}

#[test]
fn lazy_transitive_evaluated() {
    // set lazy
    //
    // a := b
    // b := c
    // c := 'value'
    // unused := `exit 1`
    //
    // foo:
    //   @echo {{a}}
    let s = scope(
        Some(true),
        false,
        vec![
            assign("a", reference("b", 3, 6)),
            assign("b", reference("c", 4, 6)),
            assign("c", lit("value", 5, 6)),
            assign("unused", capture("exit 1", 6, 11)),
        ],
    );
    let gate = FeatureGate::new(true);
    let engine = Engine::new(s, &roots(&["a"]), &gate).unwrap();
    let (r, requested) = run(engine, &[]);
    let values = r.unwrap();
    assert!(requested.is_empty());
    // Dependency order: c, then b, then a; unused stays unevaluated.
    let names: Vec<&str> = values.iter().map(|v| v.name.as_str()).collect();
    assert_eq!(names, vec!["c", "b", "a"]);
    assert_eq!(value_of(&values, "a"), Some("value"));
    assert!(value_of(&values, "unused").is_none());
}

#[test]
fn lazy_explicit_true() {
    // set lazy := true
    //
    // unused := `exit 1`
    //
    // foo:
    //   @echo hello
    let s = scope(Some(true), false, vec![assign("unused", capture("exit 1", 3, 11))]);
    let gate = FeatureGate::new(true);
    let engine = Engine::new(s, &roots(&[]), &gate).unwrap();
    let (r, requested) = run(engine, &[]);
    assert!(r.is_ok());
    assert!(requested.is_empty());
}

#[test]
fn lazy_explicit_false() {
    // set lazy := false
    //
    // unused := `exit 1`
    //
    // foo:
    //   @echo hello
    let s = scope(Some(false), false, vec![assign("unused", capture("exit 1", 3, 11))]);
    let gate = FeatureGate::new(true);
    let engine = Engine::new(s, &roots(&[]), &gate).unwrap();
    let (r, _) = run(engine, &[("exit 1", 1, "")]);
    match r {
        Err(EvalError::BacktickFailed { exit_code, span }) => {
            assert_eq!(exit_code, 1);
            assert_eq!(span.start_line, 3);
            assert_eq!(span.start_col, 11);
        }
        _ => panic!("expected eager behavior when lazy is explicitly false"),
    }
}

#[test]
fn lazy_used_variable_evaluated() {
    // set lazy
    //
    // used := 'bar'
    // unused := `exit 1`
    //
    // foo:
    //   @echo {{used}}
    let s = scope(
        Some(true),
        false,
        vec![
            assign("used", lit("bar", 3, 9)),
            assign("unused", capture("exit 1", 4, 11)),
        ],
    );
    let gate = FeatureGate::new(true);
    let engine = Engine::new(s, &roots(&["used"]), &gate).unwrap();
    let (r, requested) = run(engine, &[]);
    let values = r.unwrap();
    assert!(requested.is_empty());
    assert_eq!(value_of(&values, "used"), Some("bar"));
    assert!(value_of(&values, "unused").is_none());
}

#[test]
fn lazy_dependency_variable_evaluated() {
    // set lazy
    //
    // x := 'dep_value'
    // unused := `exit 1`
    //
    // foo: (bar x)
    //
    // bar val:
    //   @echo {{val}}
    let s = scope(
        Some(true),
        false,
        vec![
            assign("x", lit("dep_value", 3, 6)),
            assign("unused", capture("exit 1", 4, 11)),
        ],
    );
    let gate = FeatureGate::new(true);
    let engine = Engine::new(s, &roots(&["x"]), &gate).unwrap();
    let (r, requested) = run(engine, &[]);
    let values = r.unwrap();
    assert!(requested.is_empty());
    assert_eq!(value_of(&values, "x"), Some("dep_value"));
    assert!(value_of(&values, "unused").is_none());
}

#[test]
fn lazy_parameter_default_evaluated() {
    // set lazy
    //
    // x := 'default'
    // unused := `exit 1`
    //
    // foo val=x:
    //   @echo {{val}}
    let s = scope(
        Some(true),
        false,
        vec![
            assign("x", lit("default", 3, 6)),
            assign("unused", capture("exit 1", 4, 11)),
        ],
    );
    let gate = FeatureGate::new(true);
    let engine = Engine::new(s, &roots(&["x"]), &gate).unwrap();
    let (r, requested) = run(engine, &[]);
    let values = r.unwrap();
    assert!(requested.is_empty());
    assert_eq!(value_of(&values, "x"), Some("default"));
    assert!(value_of(&values, "unused").is_none());
}
