use conditional_queries::analyze::analyze;
use conditional_queries::analyze::AnalyzeError;
use conditional_queries::ast::ArmValue;
use conditional_queries::ast::BindingDeclaration;
use conditional_queries::ast::ParsedArm;
use conditional_queries::ast::ParsedConditionalQueryAs;
use conditional_queries::ast::TupleElem;
use conditional_queries::conditional_query_as;
use conditional_queries::expand::expand;
use conditional_queries::expand::expand_compile_time_bindings;
use conditional_queries::expand::ExpandError;
use conditional_queries::lower::lower;
use conditional_queries::DatabaseType;
use conditional_queries::Error;

fn t(s: &str) -> Vec<char> {
    s.chars().collect()
}

fn lit(s: &str) -> ArmValue {
    ArmValue::StringLiteral(t(s))
}

fn tuple(values: &[&str]) -> ArmValue {
    ArmValue::Tuple(values.iter().map(|v| TupleElem::StringLiteral(t(v))).collect())
}

fn arm(pattern: &str, value: ArmValue) -> ParsedArm {
    ParsedArm {
        pattern: t(pattern),
        value,
    }
}

fn decl(names: &[&str], expression: &str, arms: Vec<ParsedArm>) -> BindingDeclaration {
    BindingDeclaration {
        names: names.iter().map(|n| t(n)).collect(),
        expression: t(expression),
        arms,
    }
}

fn template(query: &str, decls: Vec<BindingDeclaration>) -> ParsedConditionalQueryAs {
    ParsedConditionalQueryAs {
        output_type: t("SomeType"),
        query_string: t(query),
        compile_time_bindings: decls,
    }
}

fn two_by_two() -> Vec<BindingDeclaration> {
    vec![
        decl(
            &["a", "b"],
            "c",
            vec![arm("d", tuple(&["e", "f"])), arm("g", tuple(&["h", "i"]))],
        ),
        decl(&["j"], "i", vec![arm("k", lit("l")), arm("m", lit("n"))]),
    ]
}

#[test]
fn variant_count_is_product() {
    let lowered = lower(analyze(template("q", two_by_two())).unwrap());
    assert_eq!(lowered.match_arms.len(), 4);

    let three = vec![
        decl(&["x"], "e1", vec![arm("p1", lit("1")), arm("p2", lit("2")), arm("p3", lit("3"))]),
        decl(&["y"], "e2", vec![arm("q1", lit("4")), arm("q2", lit("5"))]),
    ];
    let lowered = lower(analyze(template("q", three)).unwrap());
    assert_eq!(lowered.match_arms.len(), 6);
}

#[test]
fn zero_declarations_single_variant() {
    let lowered = lower(analyze(template("q", vec![])).unwrap());
    assert_eq!(lowered.match_arms.len(), 1);
    assert_eq!(lowered.match_expressions, vec![t("()")]);
    assert_eq!(lowered.match_arms[0].patterns, vec![t("()")]);
    assert!(lowered.match_arms[0].compile_time_bindings.is_empty());
}

#[test]
fn variant_order_follows_declarations() {
    let lowered = lower(analyze(template("q", two_by_two())).unwrap());
    assert_eq!(lowered.match_expressions, vec![t("c"), t("i")]);
    let patterns: Vec<Vec<Vec<char>>> = lowered
        .match_arms
        .iter()
        .map(|a| a.patterns.clone())
        .collect();
    assert_eq!(
        patterns,
        vec![
            vec![t("d"), t("k")],
            vec![t("d"), t("m")],
            vec![t("g"), t("k")],
            vec![t("g"), t("m")],
        ],
    );
}

#[test]
fn merged_binding_tables() {
    let lowered = lower(analyze(template("q", two_by_two())).unwrap());
    assert_eq!(
        lowered.match_arms[0].compile_time_bindings,
        vec![(t("a"), t("e")), (t("b"), t("f")), (t("j"), t("l"))],
    );
    assert_eq!(
        lowered.match_arms[3].compile_time_bindings,
        vec![(t("a"), t("h")), (t("b"), t("i")), (t("j"), t("n"))],
    );
}

#[test]
fn binding_arity_mismatch() {
    let parsed = template("q", vec![decl(&["a", "b"], "c", vec![arm("d", lit("e"))])]);
    let err = analyze(parsed).unwrap_err();
    assert!(matches!(
        err,
        AnalyzeError::BindingNameValueLengthMismatch {
            names: 2,
            values: 1,
            ..
        }
    ));
}

#[test]
fn arm_value_must_be_literal() {
    let parsed = template(
        "q",
        vec![decl(&["a"], "c", vec![arm("d", ArmValue::Other)])],
    );
    let err = analyze(parsed).unwrap_err();
    assert!(matches!(
        err,
        AnalyzeError::ExpectedStringLiteral {
            declaration: 0,
            arm: 0,
        }
    ));
}

#[test]
fn pass_a_idempotent_on_fixed_point() {
    // Once no fragment contains `{#`, one more compile-time pass only
    // re-splits without changing the text, and a second run on its own
    // output returns it unchanged.
    let fragments = vec![t("some "), t("{x} and {{esc"), t(" tail")];
    let table = vec![(t("x"), t("unused"))];
    let once = expand_compile_time_bindings(&fragments, &table).unwrap();
    let concat_in: String = fragments.iter().flat_map(|f| f.iter()).collect();
    let concat_out: String = once.iter().flat_map(|f| f.iter()).collect();
    assert_eq!(concat_in, concat_out);
    let twice = expand_compile_time_bindings(&once, &table).unwrap();
    assert_eq!(once, twice);
}

#[test]
fn positional_named_round_trip() {
    let lowered = lower(analyze(template("{a} {b} {a}", vec![])).unwrap());
    let expanded = expand(DatabaseType::PostgreSql, lowered).unwrap();
    let arm = &expanded.match_arms[0];
    assert_eq!(
        arm.query_fragments,
        vec![t("$1"), t(" "), t("$2"), t(" "), t("$1")],
    );
    let names: Vec<Vec<char>> = arm.run_time_bindings.iter().map(|b| b.name.clone()).collect();
    assert_eq!(names, vec![t("a"), t("b")]);
}

#[test]
fn positional_anonymous_round_trip() {
    let lowered = lower(analyze(template("{a} {b} {a}", vec![])).unwrap());
    let expanded = expand(DatabaseType::MySql, lowered).unwrap();
    let arm = &expanded.match_arms[0];
    assert_eq!(
        arm.query_fragments,
        vec![t("?"), t(" "), t("?"), t(" "), t("?")],
    );
    let names: Vec<Vec<char>> = arm.run_time_bindings.iter().map(|b| b.name.clone()).collect();
    assert_eq!(names, vec![t("a"), t("b"), t("a")]);
}

#[test]
fn escaped_braces_stay_literal() {
    let lowered = lower(analyze(template("{{literal}}", vec![])).unwrap());
    let expanded = expand(DatabaseType::PostgreSql, lowered).unwrap();
    let arm = &expanded.match_arms[0];
    let text: String = arm.query_fragments.iter().flat_map(|f| f.iter()).collect();
    assert_eq!(text, "{literal}");
    assert!(arm.run_time_bindings.is_empty());
}

#[test]
fn missing_compile_time_binding() {
    let lowered = lower(analyze(template("{#z}", vec![])).unwrap());
    let err = expand(DatabaseType::PostgreSql, lowered).unwrap_err();
    match err {
        ExpandError::MissingCompileTimeBinding(name, _) => assert_eq!(name, t("z")),
        other => panic!("unexpected error: {:?}", discriminant_name(&other)),
    }
}

#[test]
fn underscores_after_binding() {
    // The literal text after a substituted binding must not be taken for a
    // part of a placeholder.
    let parsed = template(
        "{#a}______{c}",
        vec![decl(&["a"], "_", vec![arm("_", lit("b"))])],
    );
    let expanded = conditional_query_as(DatabaseType::PostgreSql, parsed).unwrap();
    let arm = &expanded.match_arms[0];
    assert_eq!(arm.query_fragments, vec![t("b"), t("______"), t("$1")]);
    let names: Vec<Vec<char>> = arm.run_time_bindings.iter().map(|b| b.name.clone()).collect();
    assert_eq!(names, vec![t("c")]);
}

#[test]
fn type_override_recorded() {
    let lowered = lower(analyze(template("{ a :i64} {a}", vec![])).unwrap());
    let expanded = expand(DatabaseType::PostgreSql, lowered).unwrap();
    let arm = &expanded.match_arms[0];
    assert_eq!(arm.query_fragments, vec![t("$1"), t(" "), t("$1")]);
    assert_eq!(arm.run_time_bindings.len(), 1);
    assert_eq!(arm.run_time_bindings[0].name, t("a"));
    assert_eq!(arm.run_time_bindings[0].type_override, Some(t(":i64")));
}

#[test]
fn type_override_parse_error() {
    let lowered = lower(analyze(template("{a:'}", vec![])).unwrap());
    let err = expand(DatabaseType::PostgreSql, lowered).unwrap_err();
    assert!(matches!(
        err,
        ExpandError::BindingReferenceTypeOverrideParseError(_, 0)
    ));
}

#[test]
fn missing_closing_brace() {
    let lowered = lower(analyze(template("x{a", vec![])).unwrap());
    let err = expand(DatabaseType::PostgreSql, lowered).unwrap_err();
    assert!(matches!(err, ExpandError::MissingBindingClosingBrace(1)));
}

#[test]
fn cyclic_binding_rejected() {
    let parsed = template("{#a}", vec![decl(&["a"], "_", vec![arm("_", lit("{#a}!"))])]);
    let err = conditional_query_as(DatabaseType::PostgreSql, parsed).unwrap_err();
    assert!(matches!(
        err,
        Error::ExpandError(ExpandError::CyclicCompileTimeBindings)
    ));
}

#[test]
fn nested_binding_values_expand() {
    // A binding value may reference another binding; the fixed-point loop
    // resolves the chain.
    let parsed = template(
        "SELECT {#a}",
        vec![
            decl(&["a"], "x", vec![arm("p", lit("one {#b}"))]),
            decl(&["b"], "y", vec![arm("q", lit("two"))]),
        ],
    );
    let expanded = conditional_query_as(DatabaseType::PostgreSql, parsed).unwrap();
    let arm = &expanded.match_arms[0];
    let text: String = arm.query_fragments.iter().flat_map(|f| f.iter()).collect();
    assert_eq!(text, "SELECT one two");
}

#[test]
fn analyze_error_propagates() {
    let parsed = template("q", vec![decl(&["a", "b"], "c", vec![arm("d", lit("e"))])]);
    let err = conditional_query_as(DatabaseType::PostgreSql, parsed).unwrap_err();
    assert!(matches!(
        err,
        Error::AnalyzeError(AnalyzeError::BindingNameValueLengthMismatch { .. })
    ));
}

fn discriminant_name(e: &ExpandError) -> &'static str {
    match e {
        ExpandError::MissingCompileTimeBinding(..) => "MissingCompileTimeBinding",
        ExpandError::MissingBindingClosingBrace(..) => "MissingBindingClosingBrace",
        ExpandError::BindingReferenceTypeOverrideParseError(..) => {
            "BindingReferenceTypeOverrideParseError"
        }
        ExpandError::CyclicCompileTimeBindings => "CyclicCompileTimeBindings",
    }
}
