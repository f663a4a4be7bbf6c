use polar_analyzer::diagnostics::Diagnostic;
use polar_analyzer::inspect::RuleInfo;
use polar_analyzer::kb::KnowledgeBase;
use polar_analyzer::parser::{ErrorKind, Line, ParseError, ParseResult, PolarError};
use polar_analyzer::polar::{EngineReport, ParseErrors, Polar};
use polar_analyzer::rules::{Parameter, Rule};
use polar_analyzer::sources::{Source, SourceInfo};
use polar_analyzer::terms::{Call, Term, Value};

fn var(name: &str, span: (usize, usize)) -> Term {
    Term { value: Value::Variable(name.to_string()), span: Some(span) }
}

fn lit(text: &str, span: (usize, usize)) -> Term {
    Term { value: Value::Literal(text.to_string()), span: Some(span) }
}

fn call(name: &str, args: Vec<Term>, text: &str, span: (usize, usize)) -> Term {
    Term {
        value: Value::Call(Call { name: name.to_string(), args, text: text.to_string() }),
        span: Some(span),
    }
}

fn all_of(parts: Vec<Term>) -> Term {
    Term { value: Value::Compound(parts), span: None }
}

fn rule(name: &str, params: Vec<&str>, body: Term, text: &str, span: (usize, usize)) -> Rule {
    Rule {
        name: name.to_string(),
        params: params.iter().map(|p| Parameter { text: p.to_string() }).collect(),
        body,
        text: text.to_string(),
        source_info: SourceInfo::Parser { src_id: 0, left: span.0, right: span.1 },
    }
}

fn diagnostic(message: &str, start: usize, end: usize) -> Diagnostic {
    Diagnostic { message: message.to_string(), start, end }
}

fn clean(lines: Vec<Line>, applicable: Vec<bool>) -> EngineReport {
    EngineReport { parsed: Ok((lines, vec![])), rejection: None, applicable }
}

fn broken(kind: ParseError, message: &str) -> EngineReport {
    EngineReport {
        parsed: Err(PolarError { kind: ErrorKind::Parse(kind), message: message.to_string() }),
        rejection: None,
        applicable: vec![],
    }
}

/// The statements of `f(x) if g(x);`.
fn f_if_g() -> Vec<Line> {
    let body = all_of(vec![call("g", vec![var("x", (10, 11))], "g(x)", (8, 12))]);
    vec![Line::Rule(rule("f", vec!["x"], body, "f(x) if g(x);", (0, 13)))]
}

/// The statements of `f(1);`.
fn f_of_one() -> Vec<Line> {
    vec![Line::Rule(rule("f", vec!["1"], all_of(vec![]), "f(1);", (0, 5)))]
}

/// The statements of `g(x) if x = 1; f(2) if g(2); ?= f(1) and k(3);`.
fn three_statements() -> Vec<Line> {
    let g_body = all_of(vec![all_of(vec![var("x", (8, 9)), lit("1", (12, 13))])]);
    let f_body = all_of(vec![call("g", vec![lit("2", (25, 26))], "g(2)", (23, 27))]);
    let query = all_of(vec![
        call("f", vec![lit("1", (34, 35))], "f(1)", (32, 36)),
        call("k", vec![lit("3", (43, 44))], "k(3)", (41, 45)),
    ]);
    vec![
        Line::Rule(rule("g", vec!["x"], g_body, "g(x) if x = 1;", (0, 14))),
        Line::Rule(rule("f", vec!["2"], f_body, "f(2) if g(2);", (15, 28))),
        Line::Query(query),
    ]
}

const THREE: &str = "g(x) if x = 1; f(2) if g(2); ?= f(1) and k(3);";

fn f_of_one_info() -> RuleInfo {
    RuleInfo {
        symbol: "f".to_string(),
        signature: "f(1);".to_string(),
        free_variables: vec![],
        location: (Some("policy.polar".to_string()), 0, 5),
    }
}

#[test]
fn new_analyzer_knows_no_rules() {
    let polar = Polar::new();
    assert_eq!(polar.get_rule_info(), vec![]);
    assert_eq!(polar.get_summary().rules, vec![]);
    assert!(!polar.kb().defines("f"));
}

#[test]
fn call_of_an_undefined_rule_is_reported_on_load() {
    let mut polar = Polar::new();
    let result = polar.load("f(x) if g(x);", "policy.polar", clean(f_if_g(), vec![true]));
    assert_eq!(
        result,
        Ok(ParseErrors {
            errors: vec![],
            unused_rules: vec![diagnostic("There are no rules with the name \"g\"", 8, 12)],
        })
    );
    assert!(polar.kb().defines("f"));
    assert!(!polar.kb().defines("g"));
}

#[test]
fn malformed_text_gives_one_error_at_the_token() {
    let mut polar = Polar::new();
    let report = broken(
        ParseError::UnrecognizedToken { loc: 16 },
        "did not expect to find the token ';' at line 1, column 17",
    );
    let result = polar.load("f(x) if x = 1 + ;", "policy.polar", report);
    assert_eq!(
        result,
        Ok(ParseErrors {
            errors: vec![diagnostic(
                "did not expect to find the token ';' at line 1, column 17",
                16,
                16
            )],
            unused_rules: vec![],
        })
    );
    assert_eq!(polar.get_rule_info(), vec![]);
}

#[test]
fn broken_replacement_keeps_the_loaded_rules() {
    let mut polar = Polar::new();
    let first = polar.load("f(1);", "policy.polar", clean(f_of_one(), vec![]));
    assert_eq!(first, Ok(ParseErrors { errors: vec![], unused_rules: vec![] }));
    assert_eq!(polar.get_rule_info(), vec![f_of_one_info()]);

    let report = broken(ParseError::UnrecognizedEOF { loc: 2 }, "hit the end of the file");
    let second = polar.load("f(", "policy.polar", report);
    assert_eq!(
        second,
        Ok(ParseErrors {
            errors: vec![diagnostic("hit the end of the file", 2, 2)],
            unused_rules: vec![],
        })
    );
    assert_eq!(polar.get_rule_info(), vec![f_of_one_info()]);
    assert_eq!(
        polar.kb().get_source(1),
        Some(Source { filename: Some("policy.polar".to_string()), src: "f(1);".to_string() })
    );
}

#[test]
fn recovered_errors_stop_the_load() {
    let mut polar = Polar::new();
    let report = EngineReport {
        parsed: Ok((f_of_one(), vec![diagnostic("first", 1, 2), diagnostic("second", 3, 4)])),
        rejection: None,
        applicable: vec![false],
    };
    let result = polar.load("f(1); ) )", "policy.polar", report);
    assert_eq!(
        result,
        Ok(ParseErrors {
            errors: vec![diagnostic("first", 1, 2), diagnostic("second", 3, 4)],
            unused_rules: vec![],
        })
    );
    assert_eq!(polar.get_rule_info(), vec![]);
    assert!(!polar.kb().defines("f"));
}

#[test]
fn clean_text_loads_without_errors() {
    let mut polar = Polar::new();
    let result = polar.load(THREE, "policy.polar", clean(three_statements(), vec![true, true, true]));
    assert_eq!(
        result,
        Ok(ParseErrors {
            errors: vec![],
            unused_rules: vec![diagnostic("There are no rules with the name \"k\"", 41, 45)],
        })
    );
    let infos = polar.get_rule_info();
    assert_eq!(infos.len(), 2);
    assert_eq!(infos[0].symbol, "g");
    assert_eq!(infos[0].signature, "g(x) if x = 1;");
    assert_eq!(infos[0].free_variables, vec!["x".to_string()]);
    assert_eq!(infos[1].symbol, "f");
    assert_eq!(infos[1].signature, "f(2) if g(2);");
    assert_eq!(infos[1].location, (Some("policy.polar".to_string()), 15, 28));
}

#[test]
fn unanswerable_call_is_reported_against_the_loaded_text() {
    let mut polar = Polar::new();
    // The matcher finds g(2), but no variant of f for the argument 1.
    let result =
        polar.load(THREE, "policy.polar", clean(three_statements(), vec![true, false, false]));
    assert_eq!(
        result,
        Ok(ParseErrors {
            errors: vec![],
            unused_rules: vec![
                diagnostic(
                    "There are no rules matching the format:\n  f(1)\nFound:\n  f(2) if g(2);\n",
                    32,
                    36
                ),
                diagnostic("There are no rules with the name \"k\"", 41, 45),
            ],
        })
    );
}

#[test]
fn loading_the_same_text_twice_reports_the_same() {
    let mut polar = Polar::new();
    let first = polar.load(THREE, "policy.polar", clean(three_statements(), vec![true, false, true]));
    let infos = polar.get_rule_info();
    let second =
        polar.load(THREE, "policy.polar", clean(three_statements(), vec![true, false, true]));
    assert_eq!(first, second);
    assert_eq!(polar.get_rule_info(), infos);
    assert_eq!(polar.kb().rules().len(), 2);
    assert_eq!(polar.kb().variant_texts("f"), vec!["f(2) if g(2);".to_string()]);
}

#[test]
fn reloading_a_file_replaces_its_rules() {
    let mut polar = Polar::new();
    assert!(polar.load("f(1);", "policy.polar", clean(f_of_one(), vec![])).is_ok());
    let result = polar.load("f(x) if g(x);", "policy.polar", clean(f_if_g(), vec![]));
    assert_eq!(
        result,
        Ok(ParseErrors {
            errors: vec![],
            unused_rules: vec![diagnostic("There are no rules with the name \"g\"", 8, 12)],
        })
    );
    assert_eq!(polar.kb().variant_texts("f"), vec!["f(x) if g(x);".to_string()]);
    assert_eq!(polar.kb().get_source(1), None);
    assert_eq!(
        polar.kb().get_source(2),
        Some(Source { filename: Some("policy.polar".to_string()), src: "f(x) if g(x);".to_string() })
    );
}

#[test]
fn rules_of_other_files_answer_calls() {
    let mut polar = Polar::new();
    let g = vec![Line::Rule(rule("g", vec!["y"], all_of(vec![]), "g(y);", (0, 5)))];
    assert!(polar.load("g(y);", "other.polar", clean(g, vec![])).is_ok());
    let result = polar.load("f(x) if g(x);", "policy.polar", clean(f_if_g(), vec![true]));
    assert_eq!(result, Ok(ParseErrors { errors: vec![], unused_rules: vec![] }));

    // Reloading one file leaves the other file's rules where they are.
    let again = polar.load("f(x) if g(x);", "policy.polar", clean(f_if_g(), vec![false]));
    assert_eq!(
        again,
        Ok(ParseErrors {
            errors: vec![],
            unused_rules: vec![diagnostic(
                "There are no rules matching the format:\n  g(x)\nFound:\n  g(y);\n",
                8,
                12
            )],
        })
    );
    assert_eq!(polar.kb().variant_texts("g"), vec!["g(y);".to_string()]);
    assert_eq!(polar.kb().variant_texts("f"), vec!["f(x) if g(x);".to_string()]);
}

#[test]
fn variants_from_several_files_are_listed_in_load_order() {
    let mut polar = Polar::new();
    assert!(polar.load("f(1);", "a.polar", clean(f_of_one(), vec![])).is_ok());
    assert!(polar.load("f(x) if g(x);", "b.polar", clean(f_if_g(), vec![true])).is_ok());
    assert_eq!(
        polar.kb().variant_texts("f"),
        vec!["f(1);".to_string(), "f(x) if g(x);".to_string()]
    );
    // Reloading the first file moves its variant behind the other.
    assert!(polar.load("f(1);", "a.polar", clean(f_of_one(), vec![])).is_ok());
    assert_eq!(
        polar.kb().variant_texts("f"),
        vec!["f(x) if g(x);".to_string(), "f(1);".to_string()]
    );
    assert_eq!(polar.kb().variant_texts("g"), Vec::<String>::new());
}

#[test]
fn rejected_text_fails_and_changes_nothing() {
    let mut polar = Polar::new();
    assert!(polar.load("f(1);", "policy.polar", clean(f_of_one(), vec![])).is_ok());
    let report = EngineReport {
        parsed: Ok((f_if_g(), vec![])),
        rejection: Some("f is defined twice".to_string()),
        applicable: vec![false],
    };
    let result = polar.load("f(x) if g(x);", "policy.polar", report);
    assert_eq!(result, Err("f is defined twice".to_string()));
    assert_eq!(polar.get_rule_info(), vec![f_of_one_info()]);
    assert_eq!(polar.kb().variant_texts("f"), vec!["f(1);".to_string()]);
}

#[test]
fn parse_errors_come_before_a_rejection() {
    let mut polar = Polar::new();
    let report = EngineReport {
        parsed: Ok((vec![], vec![diagnostic("stray token", 4, 5)])),
        rejection: Some("never looked at".to_string()),
        applicable: vec![],
    };
    let result = polar.load("f(1) )", "policy.polar", report);
    assert_eq!(
        result,
        Ok(ParseErrors { errors: vec![diagnostic("stray token", 4, 5)], unused_rules: vec![] })
    );
}

#[test]
fn load_fails_when_no_source_identifier_is_left() {
    let mut polar = Polar::with_kb(KnowledgeBase::starting_at(u64::MAX));
    let result = polar.load("f(1);", "policy.polar", clean(f_of_one(), vec![]));
    assert_eq!(result, Err("no source identifier is left".to_string()));
    assert_eq!(polar.get_rule_info(), vec![]);
}

#[test]
fn last_source_identifier_can_be_given_out() {
    let mut polar = Polar::with_kb(KnowledgeBase::starting_at(u64::MAX - 1));
    assert!(polar.load("f(1);", "policy.polar", clean(f_of_one(), vec![])).is_ok());
    assert_eq!(polar.kb().rules()[0].source_info, SourceInfo::Parser { src_id: u64::MAX - 1, left: 0, right: 5 });
    let again = polar.load("f(1);", "policy.polar", clean(f_of_one(), vec![]));
    assert_eq!(again, Err("no source identifier is left".to_string()));
    assert_eq!(polar.kb().variant_texts("f"), vec!["f(1);".to_string()]);
}

#[test]
fn first_identifier_is_never_the_placeholders() {
    let mut kb = KnowledgeBase::starting_at(0);
    assert_eq!(kb.load("f(1);", None, f_of_one()), Ok(()));
    assert_eq!(kb.rules()[0].source_info, SourceInfo::Parser { src_id: 1, left: 0, right: 5 });
    assert_eq!(kb.get_source(0), Some(Source { filename: None, src: "<Unknown>".to_string() }));
}

#[test]
fn loaded_rules_are_attributed_to_their_source() {
    let mut kb = KnowledgeBase::new();
    let mut lines = f_of_one();
    lines.push(Line::Rule(Rule {
        name: "h".to_string(),
        params: vec![],
        body: all_of(vec![]),
        text: "h();".to_string(),
        source_info: SourceInfo::Test,
    }));
    assert_eq!(kb.load("f(1); h();", Some("a.polar".to_string()), lines), Ok(()));
    assert_eq!(kb.rules()[0].source_info, SourceInfo::Parser { src_id: 1, left: 0, right: 5 });
    assert_eq!(kb.rules()[1].source_info, SourceInfo::Parser { src_id: 1, left: 0, right: 0 });
    assert_eq!(kb.rules()[1].name, "h");
}

#[test]
fn removed_file_hands_back_its_text() {
    let mut kb = KnowledgeBase::new();
    assert_eq!(kb.load("f(1);", Some("a.polar".to_string()), f_of_one()), Ok(()));
    assert_eq!(kb.load("f(x) if g(x);", Some("b.polar".to_string()), f_if_g()), Ok(()));
    assert_eq!(kb.remove_file("a.polar"), Some("f(1);".to_string()));
    assert_eq!(kb.variant_texts("f"), vec!["f(x) if g(x);".to_string()]);
    assert_eq!(kb.get_source(1), None);
    assert_eq!(kb.remove_file("a.polar"), None);
    assert_eq!(kb.remove_file("c.polar"), None);
    assert_eq!(kb.rules().len(), 1);
}

#[test]
fn text_without_file_cannot_be_unloaded_by_name() {
    let mut kb = KnowledgeBase::new();
    assert_eq!(kb.load("f(1);", None, f_of_one()), Ok(()));
    assert_eq!(kb.load("f(1);", None, f_of_one()), Ok(()));
    assert_eq!(kb.variant_texts("f"), vec!["f(1);".to_string(), "f(1);".to_string()]);
    assert_eq!(kb.remove_file("f(1);"), None);
    assert!(kb.defines("f"));
}

#[test]
fn queries_are_not_kept_as_rules() {
    let mut kb = KnowledgeBase::new();
    assert_eq!(kb.load(THREE, Some("a.polar".to_string()), three_statements()), Ok(()));
    assert_eq!(kb.rules().len(), 2);
    assert!(kb.defines("g"));
    assert!(kb.defines("f"));
    assert!(!kb.defines("k"));
    assert!(!kb.defines(""));
}

#[test]
fn clear_rules_drops_everything() {
    let mut polar = Polar::new();
    assert!(polar.load("f(1);", "policy.polar", clean(f_of_one(), vec![])).is_ok());
    polar.clear_rules();
    assert_eq!(polar.get_rule_info(), vec![]);
    assert!(!polar.kb().defines("f"));
    assert_eq!(polar.kb().get_source(1), None);
    assert_eq!(
        polar.kb().get_source(0),
        Some(Source { filename: None, src: "<Unknown>".to_string() })
    );
    // The file can be loaded anew.
    assert!(polar.load("f(1);", "policy.polar", clean(f_of_one(), vec![])).is_ok());
    assert_eq!(polar.get_rule_info(), vec![f_of_one_info()]);
}

#[test]
fn summary_lists_the_rule_info() {
    let mut polar = Polar::new();
    assert!(polar.load(THREE, "policy.polar", clean(three_statements(), vec![])).is_ok());
    assert_eq!(polar.get_summary().rules, polar.get_rule_info());
    assert_eq!(polar.get_summary().rules.len(), 2);
}

#[test]
fn parse_errors_can_be_asked_for_without_loading() {
    let polar = Polar::new();
    let parsed: ParseResult = Err(PolarError {
        kind: ErrorKind::Parse(ParseError::ReservedWord { loc: 3 }),
        message: "new is a reserved word".to_string(),
    });
    assert_eq!(polar.get_parse_errors(&parsed), vec![diagnostic("new is a reserved word", 3, 3)]);
    assert_eq!(polar.get_rule_info(), vec![]);
}

#[test]
fn unused_rules_can_be_asked_for_without_loading() {
    let mut polar = Polar::new();
    assert!(polar.load("f(1);", "policy.polar", clean(f_of_one(), vec![])).is_ok());
    let parsed: ParseResult = Ok((three_statements(), vec![]));
    assert_eq!(
        polar.get_unused_rules(&parsed, &vec![true, true, true]),
        vec![
            diagnostic("There are no rules with the name \"g\"", 23, 27),
            diagnostic("There are no rules with the name \"k\"", 41, 45),
        ]
    );
    assert_eq!(polar.kb().rules().len(), 1);
}

#[test]
fn default_bundle_is_empty() {
    assert_eq!(ParseErrors::default(), ParseErrors { errors: vec![], unused_rules: vec![] });
}
