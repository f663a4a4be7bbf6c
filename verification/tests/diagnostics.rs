use polar_analyzer::diagnostics::{
    collect_calls, find_parse_errors, find_unused_rules, report_unmatched, Diagnostic,
};
use polar_analyzer::kb::KnowledgeBase;
use polar_analyzer::parser::{ErrorKind, Line, ParseError, ParseResult, PolarError};
use polar_analyzer::rules::{Parameter, Rule};
use polar_analyzer::sources::SourceInfo;
use polar_analyzer::terms::{Call, CallSite, Term, Value};

fn var(name: &str) -> Term {
    Term { value: Value::Variable(name.to_string()), span: None }
}

fn lit(text: &str) -> Term {
    Term { value: Value::Literal(text.to_string()), span: None }
}

fn call(name: &str, args: Vec<Term>, text: &str, span: Option<(usize, usize)>) -> Term {
    Term {
        value: Value::Call(Call { name: name.to_string(), args, text: text.to_string() }),
        span,
    }
}

fn all_of(parts: Vec<Term>) -> Term {
    Term { value: Value::Compound(parts), span: None }
}

fn rule(name: &str, params: Vec<&str>, body: Term, text: &str) -> Rule {
    Rule {
        name: name.to_string(),
        params: params.iter().map(|p| Parameter { text: p.to_string() }).collect(),
        body,
        text: text.to_string(),
        source_info: SourceInfo::Parser { src_id: 0, left: 0, right: text.len() },
    }
}

fn diagnostic(message: &str, start: usize, end: usize) -> Diagnostic {
    Diagnostic { message: message.to_string(), start, end }
}

fn site(name: &str, text: &str, span: Option<(usize, usize)>) -> CallSite {
    CallSite { name: name.to_string(), text: text.to_string(), span }
}

fn stopped(kind: ErrorKind, message: &str) -> ParseResult {
    Err(PolarError { kind, message: message.to_string() })
}

/// A knowledge base that holds `f(1);`, `f(x) if x > 2;` and `h();`.
fn some_rules() -> KnowledgeBase {
    let mut kb = KnowledgeBase::new();
    let lines = vec![
        Line::Rule(rule("f", vec!["1"], all_of(vec![]), "f(1);")),
        Line::Rule(rule("h", vec![], all_of(vec![]), "h();")),
        Line::Rule(rule("f", vec!["x"], all_of(vec![var("x"), lit("2")]), "f(x) if x > 2;")),
    ];
    assert_eq!(kb.load("f(1); h(); f(x) if x > 2;", Some("rules.polar".to_string()), lines), Ok(()));
    kb
}

#[test]
fn recovered_errors_are_returned_in_order() {
    let recovered = vec![diagnostic("first", 3, 5), diagnostic("second", 9, 12)];
    let parsed: ParseResult = Ok((vec![], recovered));
    assert_eq!(
        find_parse_errors(&parsed),
        vec![diagnostic("first", 3, 5), diagnostic("second", 9, 12)]
    );
}

#[test]
fn clean_parse_has_no_errors() {
    let parsed: ParseResult = Ok((vec![Line::Query(var("x"))], vec![]));
    assert_eq!(find_parse_errors(&parsed), vec![]);
}

#[test]
fn located_parse_errors_point_at_their_offset() {
    let kinds = vec![
        ParseError::IntegerOverflow { loc: 4 },
        ParseError::InvalidTokenCharacter { loc: 4 },
        ParseError::InvalidToken { loc: 4 },
        ParseError::UnrecognizedEOF { loc: 4 },
        ParseError::UnrecognizedToken { loc: 4 },
        ParseError::ExtraToken { loc: 4 },
        ParseError::WrongValueType { loc: 4 },
        ParseError::ReservedWord { loc: 4 },
    ];
    for kind in kinds {
        let parsed = stopped(ErrorKind::Parse(kind), "did not expect this");
        assert_eq!(find_parse_errors(&parsed), vec![diagnostic("did not expect this", 4, 4)]);
    }
}

#[test]
fn unlocated_parse_error_points_at_zero() {
    let parsed = stopped(ErrorKind::Parse(ParseError::Unlocated), "duplicate key");
    assert_eq!(find_parse_errors(&parsed), vec![diagnostic("duplicate key", 0, 0)]);
}

#[test]
fn other_error_points_at_zero() {
    let parsed = stopped(ErrorKind::Other, "out of memory");
    assert_eq!(find_parse_errors(&parsed), vec![diagnostic("out of memory", 0, 0)]);
}

#[test]
fn calls_are_collected_depth_first() {
    // a(b(x), c()) and d(), then the query e(a()).
    let first = all_of(vec![
        call(
            "a",
            vec![call("b", vec![var("x")], "b(x)", Some((2, 6))), call("c", vec![], "c()", None)],
            "a(b(x), c())",
            Some((0, 12)),
        ),
        lit("1"),
        call("d", vec![], "d()", Some((17, 20))),
    ]);
    let second = call("e", vec![call("a", vec![], "a()", Some((2, 5)))], "e(a())", Some((0, 6)));
    let lines = vec![Line::Rule(rule("r", vec![], first, "r() if ...;")), Line::Query(second)];
    assert_eq!(
        collect_calls(&lines),
        vec![
            site("a", "a(b(x), c())", Some((0, 12))),
            site("b", "b(x)", Some((2, 6))),
            site("c", "c()", None),
            site("d", "d()", Some((17, 20))),
            site("e", "e(a())", Some((0, 6))),
            site("a", "a()", Some((2, 5))),
        ]
    );
}

#[test]
fn statements_without_calls_have_no_sites() {
    let lines = vec![Line::Query(all_of(vec![var("x"), lit("1")])), Line::Query(var("y"))];
    assert_eq!(collect_calls(&lines), vec![]);
    assert_eq!(collect_calls(&vec![]), vec![]);
}

#[test]
fn call_of_unknown_name_is_reported() {
    let kb = some_rules();
    let sites = vec![site("g", "g(x)", Some((8, 12)))];
    assert_eq!(
        report_unmatched(&kb, &sites, &vec![true]),
        vec![diagnostic("There are no rules with the name \"g\"", 8, 12)]
    );
    assert_eq!(
        report_unmatched(&kb, &sites, &vec![false]),
        vec![diagnostic("There are no rules with the name \"g\"", 8, 12)]
    );
}

#[test]
fn call_without_span_is_reported_at_zero() {
    let kb = some_rules();
    let sites = vec![site("g", "g(x)", None)];
    assert_eq!(
        report_unmatched(&kb, &sites, &vec![]),
        vec![diagnostic("There are no rules with the name \"g\"", 0, 0)]
    );
}

#[test]
fn call_that_no_variant_answers_lists_the_variants() {
    let kb = some_rules();
    let sites = vec![site("f", "f(\"a\")", Some((3, 9)))];
    assert_eq!(
        report_unmatched(&kb, &sites, &vec![false]),
        vec![diagnostic(
            "There are no rules matching the format:\n  f(\"a\")\nFound:\n  f(1);\n  f(x) if x > 2;\n",
            3,
            9
        )]
    );
}

#[test]
fn call_with_one_variant_lists_it_alone() {
    let kb = some_rules();
    let sites = vec![site("h", "h(1)", None)];
    assert_eq!(
        report_unmatched(&kb, &sites, &vec![false]),
        vec![diagnostic("There are no rules matching the format:\n  h(1)\nFound:\n  h();\n", 0, 0)]
    );
}

#[test]
fn answered_call_is_not_reported() {
    let kb = some_rules();
    let sites = vec![site("f", "f(1)", Some((0, 4)))];
    assert_eq!(report_unmatched(&kb, &sites, &vec![true]), vec![]);
}

#[test]
fn call_without_an_answer_is_not_reported() {
    let kb = some_rules();
    let sites = vec![site("f", "f(1)", Some((0, 4))), site("h", "h()", Some((5, 8)))];
    assert_eq!(report_unmatched(&kb, &sites, &vec![]), vec![]);
    assert_eq!(
        report_unmatched(&kb, &sites, &vec![false]),
        vec![diagnostic(
            "There are no rules matching the format:\n  f(1)\nFound:\n  f(1);\n  f(x) if x > 2;\n",
            0,
            4
        )]
    );
}

#[test]
fn every_call_is_judged_on_its_own() {
    let kb = some_rules();
    let sites = vec![
        site("f", "f(1)", Some((0, 4))),
        site("g", "g()", Some((5, 8))),
        site("h", "h(2)", Some((9, 13))),
        site("g", "g(1)", Some((14, 18))),
    ];
    assert_eq!(
        report_unmatched(&kb, &sites, &vec![true, true, false, false]),
        vec![
            diagnostic("There are no rules with the name \"g\"", 5, 8),
            diagnostic("There are no rules matching the format:\n  h(2)\nFound:\n  h();\n", 9, 13),
            diagnostic("There are no rules with the name \"g\"", 14, 18),
        ]
    );
}

#[test]
fn nested_unknown_call_is_reported_once() {
    let kb = some_rules();
    // f(h(g(x))): only g is unknown, three levels down.
    let inner = call("g", vec![var("x")], "g(x)", Some((4, 8)));
    let middle = call("h", vec![inner], "h(g(x))", Some((2, 9)));
    let outer = call("f", vec![middle], "f(h(g(x)))", Some((0, 10)));
    let parsed: ParseResult = Ok((vec![Line::Query(all_of(vec![outer]))], vec![]));
    assert_eq!(
        find_unused_rules(&kb, &parsed, &vec![true, true, true]),
        vec![diagnostic("There are no rules with the name \"g\"", 4, 8)]
    );
}

#[test]
fn reported_call_does_not_hide_its_arguments() {
    let kb = some_rules();
    // g(k()): both names are unknown.
    let inner = call("k", vec![], "k()", Some((2, 5)));
    let outer = call("g", vec![inner], "g(k())", Some((0, 6)));
    let parsed: ParseResult = Ok((vec![Line::Query(outer)], vec![]));
    assert_eq!(
        find_unused_rules(&kb, &parsed, &vec![]),
        vec![
            diagnostic("There are no rules with the name \"g\"", 0, 6),
            diagnostic("There are no rules with the name \"k\"", 2, 5),
        ]
    );
}

#[test]
fn rule_bodies_and_queries_are_both_walked() {
    let kb = some_rules();
    let body = all_of(vec![call("g", vec![], "g()", Some((9, 12)))]);
    let query = call("k", vec![], "k()", Some((14, 17)));
    let parsed: ParseResult =
        Ok((vec![Line::Rule(rule("r", vec![], body, "r() if g();")), Line::Query(query)], vec![]));
    assert_eq!(
        find_unused_rules(&kb, &parsed, &vec![]),
        vec![
            diagnostic("There are no rules with the name \"g\"", 9, 12),
            diagnostic("There are no rules with the name \"k\"", 14, 17),
        ]
    );
}

#[test]
fn stopped_parse_has_no_unmatched_calls() {
    let kb = some_rules();
    let parsed = stopped(ErrorKind::Parse(ParseError::InvalidToken { loc: 2 }), "bad token");
    assert_eq!(find_unused_rules(&kb, &parsed, &vec![false]), vec![]);
}

#[test]
fn empty_knowledge_base_knows_no_name() {
    let kb = KnowledgeBase::new();
    let sites = vec![site("f", "f()", Some((0, 3)))];
    assert_eq!(
        report_unmatched(&kb, &sites, &vec![true]),
        vec![diagnostic("There are no rules with the name \"f\"", 0, 3)]
    );
}

#[test]
fn cloned_diagnostic_equals_the_original() {
    let original = diagnostic("message", 1, 2);
    assert_eq!(original.clone(), original);
}
