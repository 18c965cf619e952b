use conditional_queries::analyze::analyze;
use conditional_queries::analyze::AnalyzeError;
use conditional_queries::ast::ArmValue;
use conditional_queries::ast::BindingDeclaration;
use conditional_queries::ast::ParsedArm;
use conditional_queries::ast::ParsedConditionalQueryAs;
use conditional_queries::ast::TupleElem;
use conditional_queries::expand::expand;
use conditional_queries::lower::lower;
use conditional_queries::DatabaseType;

fn t(s: &str) -> Vec<char> {
    s.chars().collect()
}

fn lit(s: &str) -> ArmValue {
    ArmValue::StringLiteral(t(s))
}

fn tuple(values: &[&str]) -> ArmValue {
    ArmValue::Tuple(values.iter().map(|v| TupleElem::StringLiteral(t(v))).collect())
}

fn arm(pattern: &str, value: ArmValue) -> ParsedArm {
    ParsedArm {
        pattern: t(pattern),
        value,
    }
}

fn decl(names: &[&str], expression: &str, arms: Vec<ParsedArm>) -> BindingDeclaration {
    BindingDeclaration {
        names: names.iter().map(|n| t(n)).collect(),
        expression: t(expression),
        arms,
    }
}

fn template(output_type: &str, query: &str, decls: Vec<BindingDeclaration>) -> ParsedConditionalQueryAs {
    ParsedConditionalQueryAs {
        output_type: t(output_type),
        query_string: t(query),
        compile_time_bindings: decls,
    }
}

#[test]
fn analyze_valid_syntax() {
    let parsed = template(
        "SomeType",
        "some SQL query",
        vec![
            decl(&["binding"], "foo", vec![arm("bar", lit("baz"))]),
            decl(&["a", "b"], "c", vec![arm("d", tuple(&["e", "f"]))]),
        ],
    );
    let mut analyzed = analyze(parsed).unwrap();

    assert_eq!(analyzed.output_type, t("SomeType"));
    assert_eq!(analyzed.query_string, t("some SQL query"));

    assert_eq!(analyzed.compile_time_bindings.len(), 2);

    {
        let compile_time_binding = analyzed.compile_time_bindings.remove(0);
        assert_eq!(compile_time_binding.expression, t("foo"));

        assert_eq!(compile_time_binding.arms.len(), 1);
        let first = &compile_time_binding.arms[0];
        assert_eq!(first.pattern, t("bar"));
        assert_eq!(first.bindings, vec![(t("binding"), t("baz"))]);
    }

    {
        let compile_time_binding = analyzed.compile_time_bindings.remove(0);
        assert_eq!(compile_time_binding.expression, t("c"));

        let patterns: Vec<Vec<char>> = compile_time_binding
            .arms
            .iter()
            .map(|a| a.pattern.clone())
            .collect();
        assert_eq!(patterns, vec![t("d")]);

        assert_eq!(compile_time_binding.arms.len(), 1);
        let first = &compile_time_binding.arms[0];
        assert_eq!(first.pattern, t("d"));
        assert_eq!(first.bindings, vec![(t("a"), t("e")), (t("b"), t("f"))]);
    }
}

#[test]
fn duplicate_compile_time_bindings() {
    let parsed = template(
        "SomeType",
        "{#a}",
        vec![
            decl(&["a"], "_", vec![arm("_", lit("1"))]),
            decl(&["a"], "_", vec![arm("_", lit("2"))]),
        ],
    );
    let analyzed = analyze(parsed).unwrap_err();

    assert!(matches!(
        analyzed,
        AnalyzeError::DuplicatedCompileTimeBindingsFound { .. }
    ));
}

#[test]
fn codegen_valid_syntax() {
    // The full pipeline on a template with two declarations: what the
    // back-end emitter receives must be ready to use.
    let parsed = template(
        "SomeType",
        "some {#a} {#b} {#j} query",
        vec![
            decl(
                &["a", "b"],
                "c",
                vec![arm("d", tuple(&["e", "f"])), arm("g", tuple(&["h", "i"]))],
            ),
            decl(&["j"], "i", vec![arm("k", lit("l")), arm("m", lit("n"))]),
        ],
    );
    let expanded =
        conditional_queries::conditional_query_as(DatabaseType::PostgreSql, parsed).unwrap();
    assert_eq!(expanded.output_type, t("SomeType"));
    assert_eq!(expanded.match_expressions, vec![t("c"), t("i")]);
    assert_eq!(expanded.match_arms.len(), 4);
}

#[test]
fn expands_compile_time_bindings() {
    let parsed = template(
        "SomeType",
        "some {#a} {#b} {#j} query",
        vec![
            decl(
                &["a", "b"],
                "c",
                vec![arm("d", tuple(&["e", "f"])), arm("g", tuple(&["h", "i"]))],
            ),
            decl(&["j"], "i", vec![arm("k", lit("l")), arm("m", lit("n"))]),
        ],
    );
    let analyzed = analyze(parsed).unwrap();
    let lowered = lower(analyzed);
    let expanded = expand(DatabaseType::PostgreSql, lowered).unwrap();

    assert_eq!(
        expanded.match_arms[0].query_fragments,
        vec![t("some "), t("e"), t(" "), t("f"), t(" "), t("l"), t(" query")],
    );
}

#[test]
fn expands_run_time_bindings() {
    for database_type in [
        DatabaseType::PostgreSql,
        DatabaseType::MySql,
        DatabaseType::Sqlite,
    ] {
        let parsed = template("SomeType", "some {foo} {bar} {foo} query", vec![]);
        let analyzed = analyze(parsed).unwrap();
        let lowered = lower(analyzed);
        let expanded = expand(database_type, lowered).unwrap();

        let expected = match database_type {
            DatabaseType::PostgreSql => vec![
                t("some "),
                t("$1"),
                t(" "),
                t("$2"),
                t(" "),
                t("$1"),
                t(" query"),
            ],
            DatabaseType::MySql | DatabaseType::Sqlite => vec![
                t("some "),
                t("?"),
                t(" "),
                t("?"),
                t(" "),
                t("?"),
                t(" query"),
            ],
        };
        assert_eq!(expanded.match_arms[0].query_fragments, expected);
    }
}

#[test]
fn lower_valid_syntax() {
    let parsed = template(
        "SomeType",
        "some SQL query",
        vec![
            decl(
                &["a", "b"],
                "c",
                vec![arm("d", tuple(&["e", "f"])), arm("g", tuple(&["h", "i"]))],
            ),
            decl(&["j"], "i", vec![arm("k", lit("l")), arm("m", lit("n"))]),
        ],
    );
    let analyzed = analyze(parsed).unwrap();
    let _lowered = lower(analyzed);
}
