//! The analyzer: validates and normalizes the compile-time binding
//! declarations. It rejects a binding name declared twice, turns each arm's
//! value expression into an ordered list of literal strings, and enforces that
//! every arm binds exactly as many values as its declaration names.
//! It never inspects the template string.

use vstd::prelude::*;

use crate::ast::ArmValue;
use crate::ast::ParsedConditionalQueryAs;
use crate::ast::SpecArmValue;
use crate::ast::SpecBindingDeclaration;
use crate::ast::SpecParsedArm;
use crate::ast::SpecParsedConditionalQueryAs;
use crate::ast::SpecTupleElem;
use crate::ast::TupleElem;
use crate::text::clone_text;
use crate::text::text_eq;

verus! {

broadcast use crate::text::lemma_text_deep_view;

// ---------------------------------------------------------------------------
// Mathematical model
// ---------------------------------------------------------------------------

/// Model of one analyzed arm: a pattern and its (name, value) bindings.
#[verifier::ext_equal]
pub struct SpecAnalyzedArm {
    pub pattern: Seq<char>,
    pub bindings: Seq<(Seq<char>, Seq<char>)>,
}

/// Model of one analyzed declaration.
#[verifier::ext_equal]
pub struct SpecCompileTimeBinding {
    pub expression: Seq<char>,
    pub arms: Seq<SpecAnalyzedArm>,
}

/// Model of a fully analyzed template.
#[verifier::ext_equal]
pub struct SpecAnalyzedConditionalQueryAs {
    pub output_type: Seq<char>,
    pub query_string: Seq<char>,
    pub compile_time_bindings: Seq<SpecCompileTimeBinding>,
}

/// Model of an analysis failure. Locations are indices: `declaration` counts
/// declarations in source order, `arm` counts arms within one declaration.
#[verifier::ext_equal]
pub enum SpecAnalyzeError {
    ExpectedStringLiteral { declaration: nat, arm: nat },
    BindingNameValueLengthMismatch { names: nat, values: nat, declaration: nat, arm: nat },
    DuplicatedCompileTimeBindingsFound {
        name: Seq<char>,
        first_declaration: nat,
        second_declaration: nat,
    },
}

/// The ordered value list of a tuple arm value, or `None` if some element is
/// not a string literal.
pub open spec fn spec_tuple_values(elems: Seq<SpecTupleElem>) -> Option<Seq<Seq<char>>>
    decreases elems.len(),
{
    if elems.len() == 0 {
        Some(seq![])
    } else {
        match elems[0] {
            SpecTupleElem::StringLiteral(s) => match spec_tuple_values(elems.skip(1)) {
                Some(rest) => Some(seq![s] + rest),
                None => None,
            },
            SpecTupleElem::Other => None,
        }
    }
}

/// The ordered value list of an arm value: a bare literal yields one value, a
/// tuple of literals one value per element; anything else yields `None`.
pub open spec fn spec_arm_values(v: SpecArmValue) -> Option<Seq<Seq<char>>> {
    match v {
        SpecArmValue::StringLiteral(s) => Some(seq![s]),
        SpecArmValue::Tuple(elems) => spec_tuple_values(elems),
        SpecArmValue::Other => None,
    }
}

/// Positional pairing of binding names with one arm's values.
pub open spec fn zip_bindings(names: Seq<Seq<char>>, values: Seq<Seq<char>>) -> Seq<
    (Seq<char>, Seq<char>),
> {
    Seq::new(names.len(), |i: int| (names[i], values[i]))
}

/// Checks one declaration's names against the names seen so far; on success
/// returns the map extended with each name at declaration `declaration`.
pub open spec fn spec_check_names(
    names: Seq<Seq<char>>,
    seen: Map<Seq<char>, nat>,
    declaration: nat,
) -> Result<Map<Seq<char>, nat>, SpecAnalyzeError>
    decreases names.len(),
{
    if names.len() == 0 {
        Ok(seen)
    } else if seen.contains_key(names[0]) {
        Err(SpecAnalyzeError::DuplicatedCompileTimeBindingsFound {
            name: names[0],
            first_declaration: seen[names[0]],
            second_declaration: declaration,
        })
    } else {
        spec_check_names(names.skip(1), seen.insert(names[0], declaration), declaration)
    }
}

/// Analyzes the arms of one declaration, in order. `arm0` is the index of
/// `arms[0]` within the declaration, used for error locations.
pub open spec fn spec_analyze_arms(
    names: Seq<Seq<char>>,
    arms: Seq<SpecParsedArm>,
    declaration: nat,
    arm0: nat,
) -> Result<Seq<SpecAnalyzedArm>, SpecAnalyzeError>
    decreases arms.len(),
{
    if arms.len() == 0 {
        Ok(seq![])
    } else {
        match spec_arm_values(arms[0].value) {
            None => Err(SpecAnalyzeError::ExpectedStringLiteral { declaration, arm: arm0 }),
            Some(values) => {
                if values.len() != names.len() {
                    Err(SpecAnalyzeError::BindingNameValueLengthMismatch {
                        names: names.len(),
                        values: values.len(),
                        declaration,
                        arm: arm0,
                    })
                } else {
                    match spec_analyze_arms(names, arms.skip(1), declaration, arm0 + 1) {
                        Ok(rest) => Ok(
                            seq![
                                SpecAnalyzedArm {
                                    pattern: arms[0].pattern,
                                    bindings: zip_bindings(names, values),
                                },
                            ] + rest,
                        ),
                        Err(e) => Err(e),
                    }
                }
            },
        }
    }
}

/// Analyzes the declarations in source order, threading the set of names seen
/// so far. `d0` is the index of `decls[0]` in the full declaration list.
pub open spec fn spec_analyze_decls(
    decls: Seq<SpecBindingDeclaration>,
    seen: Map<Seq<char>, nat>,
    d0: nat,
) -> Result<Seq<SpecCompileTimeBinding>, SpecAnalyzeError>
    decreases decls.len(),
{
    if decls.len() == 0 {
        Ok(seq![])
    } else {
        match spec_check_names(decls[0].names, seen, d0) {
            Err(e) => Err(e),
            Ok(seen2) => match spec_analyze_arms(decls[0].names, decls[0].arms, d0, 0) {
                Err(e) => Err(e),
                Ok(arms) => match spec_analyze_decls(decls.skip(1), seen2, d0 + 1) {
                    Ok(rest) => Ok(
                        seq![SpecCompileTimeBinding { expression: decls[0].expression, arms }]
                            + rest,
                    ),
                    Err(e) => Err(e),
                },
            },
        }
    }
}

/// The whole analysis as a function of the parsed template.
pub open spec fn spec_analyze(p: SpecParsedConditionalQueryAs) -> Result<
    SpecAnalyzedConditionalQueryAs,
    SpecAnalyzeError,
> {
    match spec_analyze_decls(p.compile_time_bindings, Map::empty(), 0) {
        Ok(bs) => Ok(
            SpecAnalyzedConditionalQueryAs {
                output_type: p.output_type,
                query_string: p.query_string,
                compile_time_bindings: bs,
            },
        ),
        Err(e) => Err(e),
    }
}

// ---------------------------------------------------------------------------
// Executable representation
// ---------------------------------------------------------------------------

/// One analyzed arm: the arm's pattern and the ordered (name, value) bindings
/// it contributes.
#[derive(Debug)]
pub struct AnalyzedArm {
    pub pattern: Vec<char>,
    pub bindings: Vec<(Vec<char>, Vec<char>)>,
}

/// One analyzed declaration: the matched-upon expression and its arms.
#[derive(Debug)]
pub struct CompileTimeBinding {
    pub expression: Vec<char>,
    pub arms: Vec<AnalyzedArm>,
}

/// The validated template: every arm's values are literal strings, every arm
/// binds exactly its declaration's names, and no name is declared twice.
#[derive(Debug)]
pub struct AnalyzedConditionalQueryAs {
    pub output_type: Vec<char>,
    pub query_string: Vec<char>,
    pub compile_time_bindings: Vec<CompileTimeBinding>,
}

/// An analysis failure. `declaration` and `arm` fields locate the offending
/// declaration (in source order) and arm within it.
#[derive(Debug)]
pub enum AnalyzeError {
    /// An arm's value expression is not a string literal nor a tuple of them.
    ExpectedStringLiteral { declaration: usize, arm: usize },
    /// An arm binds a different number of values than its declaration names.
    BindingNameValueLengthMismatch { names: usize, values: usize, declaration: usize, arm: usize },
    /// The same binding name is declared twice.
    DuplicatedCompileTimeBindingsFound {
        name: Vec<char>,
        first_declaration: usize,
        second_declaration: usize,
    },
}

impl DeepView for AnalyzedArm {
    type V = SpecAnalyzedArm;

    open spec fn deep_view(&self) -> SpecAnalyzedArm {
        SpecAnalyzedArm { pattern: self.pattern@, bindings: self.bindings.deep_view() }
    }
}

impl DeepView for CompileTimeBinding {
    type V = SpecCompileTimeBinding;

    open spec fn deep_view(&self) -> SpecCompileTimeBinding {
        SpecCompileTimeBinding { expression: self.expression@, arms: self.arms.deep_view() }
    }
}

impl DeepView for AnalyzedConditionalQueryAs {
    type V = SpecAnalyzedConditionalQueryAs;

    open spec fn deep_view(&self) -> SpecAnalyzedConditionalQueryAs {
        SpecAnalyzedConditionalQueryAs {
            output_type: self.output_type@,
            query_string: self.query_string@,
            compile_time_bindings: self.compile_time_bindings.deep_view(),
        }
    }
}

impl DeepView for AnalyzeError {
    type V = SpecAnalyzeError;

    open spec fn deep_view(&self) -> SpecAnalyzeError {
        match self {
            AnalyzeError::ExpectedStringLiteral { declaration, arm } => {
                SpecAnalyzeError::ExpectedStringLiteral {
                    declaration: *declaration as nat,
                    arm: *arm as nat,
                }
            },
            AnalyzeError::BindingNameValueLengthMismatch { names, values, declaration, arm } => {
                SpecAnalyzeError::BindingNameValueLengthMismatch {
                    names: *names as nat,
                    values: *values as nat,
                    declaration: *declaration as nat,
                    arm: *arm as nat,
                }
            },
            AnalyzeError::DuplicatedCompileTimeBindingsFound {
                name,
                first_declaration,
                second_declaration,
            } => {
                SpecAnalyzeError::DuplicatedCompileTimeBindingsFound {
                    name: name@,
                    first_declaration: *first_declaration as nat,
                    second_declaration: *second_declaration as nat,
                }
            },
        }
    }
}

// ---------------------------------------------------------------------------
// Executable analysis
// ---------------------------------------------------------------------------

/// The association list `v` of names and declaration indices represents
/// exactly the map `m`.
pub open spec fn seen_matches(v: Seq<(Vec<char>, usize)>, m: Map<Seq<char>, nat>) -> bool {
    &&& forall|k: Seq<char>| #[trigger]
        m.contains_key(k) ==> exists|i: int| 0 <= i < v.len() && (#[trigger] v[i]).0@ == k
    &&& forall|i: int|
        0 <= i < v.len() ==> m.contains_key((#[trigger] v[i]).0@) && m[v[i].0@] == v[i].1 as nat
}

/// First declaration index recorded for `name`, if any.
#[verifier::loop_isolation(false)]
fn seen_lookup(v: &Vec<(Vec<char>, usize)>, name: &Vec<char>, Ghost(m): Ghost<Map<Seq<char>, nat>>)
    -> (r: Option<usize>)
    requires
        seen_matches(v@, m),
    ensures
        match r {
            Some(d) => m.contains_key(name@) && m[name@] == d as nat,
            None => !m.contains_key(name@),
        },
{
    let mut i: usize = 0;
    while i < v.len()
        invariant
            i <= v@.len(),
            seen_matches(v@, m),
            forall|j: int| 0 <= j < i ==> (#[trigger] v@[j]).0@ != name@,
        decreases v@.len() - i,
    {
        if text_eq(&v[i].0, name) {
            return Some(v[i].1);
        }
        i = i + 1;
    }
    None
}

/// The ordered binding values of one arm's value expression, or `None` if any
/// part of it is not a string literal.
#[verifier::loop_isolation(false)]
fn arm_values(value: &ArmValue) -> (r: Option<Vec<Vec<char>>>)
    ensures
        match r {
            Some(vs) => spec_arm_values(value.deep_view()) == Some::<Seq<Seq<char>>>(vs.deep_view()),
            None => spec_arm_values(value.deep_view()) is None,
        },
{
    match value {
        ArmValue::StringLiteral(s) => {
            let mut vs: Vec<Vec<char>> = Vec::new();
            vs.push(clone_text(s));
            proof {
                assert(vs.deep_view() =~= seq![s@]);
            }
            Some(vs)
        },
        ArmValue::Tuple(elems) => {
            let ghost edv = elems.deep_view();
            let mut vs: Vec<Vec<char>> = Vec::new();
            let mut i: usize = 0;
            proof {
                assert(edv.skip(0) =~= edv);
                if spec_tuple_values(edv) is Some {
                    let whole = spec_tuple_values(edv)->Some_0;
                    assert(vs.deep_view() + whole =~= whole);
                }
            }
            while i < elems.len()
                invariant
                    i <= elems@.len(),
                    edv == elems.deep_view(),
                    edv.len() == elems@.len(),
                    match spec_tuple_values(edv.skip(i as int)) {
                        Some(rest) => spec_tuple_values(edv) == Some::<Seq<Seq<char>>>(vs.deep_view() + rest),
                        None => spec_tuple_values(edv) is None,
                    },
                decreases elems@.len() - i,
            {
                proof {
                    assert(edv.skip(i as int).len() > 0);
                    assert(edv.skip(i as int)[0] == edv[i as int]);
                    assert(edv.skip(i as int).skip(1) =~= edv.skip(i + 1));
                }
                match &elems[i] {
                    TupleElem::StringLiteral(s) => {
                        let ghost old_vs = vs.deep_view();
                        vs.push(clone_text(s));
                        proof {
                            assert(vs.deep_view() =~= old_vs + seq![s@]);
                            if spec_tuple_values(edv.skip(i + 1)) is Some {
                                let rest = spec_tuple_values(edv.skip(i + 1))->Some_0;
                                assert((old_vs + seq![s@]) + rest =~= old_vs + (seq![s@] + rest));
                            }
                        }
                    },
                    TupleElem::Other => {
                        proof {
                            assert(spec_tuple_values(edv.skip(i as int)) is None);
                        }
                        return None;
                    },
                }
                i = i + 1;
            }
            proof {
                assert(edv.skip(i as int).len() == 0);
                assert(spec_tuple_values(edv.skip(i as int)) == Some(Seq::<Seq<char>>::empty()));
                assert(vs.deep_view() + Seq::<Seq<char>>::empty() =~= vs.deep_view());
            }
            Some(vs)
        },
        ArmValue::Other => None,
    }
}

/// Validates the declarations and turns each arm's value expression into an
/// ordered list of literal binding values.
///
/// Succeeds exactly when no binding name is declared twice, every arm's value
/// is a string literal or a tuple of string literals, and every arm binds as
/// many values as its declaration names; the result then pairs each arm's
/// pattern with its (name, value) bindings, in declaration and arm order.
#[verifier::loop_isolation(false)]
pub fn analyze(parsed: ParsedConditionalQueryAs) -> (r: Result<
    AnalyzedConditionalQueryAs,
    AnalyzeError,
>)
    ensures
        match r {
            Ok(a) => spec_analyze(parsed.deep_view()) == Ok::<_, SpecAnalyzeError>(a.deep_view()),
            Err(e) => spec_analyze(parsed.deep_view()) == Err::<
                SpecAnalyzedConditionalQueryAs,
                _,
            >(e.deep_view()),
        },
{
    let ghost decls_dv = parsed.compile_time_bindings.deep_view();
    let mut compile_time_bindings: Vec<CompileTimeBinding> = Vec::new();
    let mut known: Vec<(Vec<char>, usize)> = Vec::new();
    let ghost mut seen_m = Map::<Seq<char>, nat>::empty();

    let n = parsed.compile_time_bindings.len();
    let mut d: usize = 0;
    proof {
        assert(decls_dv.skip(0) =~= decls_dv);
    }
    while d < n
        invariant
            n == parsed.compile_time_bindings@.len(),
            d <= n,
            decls_dv == parsed.compile_time_bindings.deep_view(),
            decls_dv.len() == n,
            seen_matches(known@, seen_m),
            match spec_analyze_decls(decls_dv.skip(d as int), seen_m, d as nat) {
                Ok(rest) => spec_analyze_decls(decls_dv, Map::empty(), 0) == Ok::<
                    _,
                    SpecAnalyzeError,
                >(compile_time_bindings.deep_view() + rest),
                Err(e) => spec_analyze_decls(decls_dv, Map::empty(), 0) == Err::<
                    Seq<SpecCompileTimeBinding>,
                    _,
                >(e),
            },
        decreases n - d,
    {
        let decl = &parsed.compile_time_bindings[d];
        let ghost ddv = decl.deep_view();
        proof {
            assert(decls_dv.skip(d as int).len() > 0);
            assert(decls_dv.skip(d as int)[0] == decls_dv[d as int]);
            assert(decls_dv.skip(d as int).skip(1) =~= decls_dv.skip(d + 1));
        }

        // Reject names already declared, recording each fresh name.
        let ghost names_dv = ddv.names;
        let ghost seen_at_start = seen_m;
        let mut j: usize = 0;
        proof {
            assert(names_dv.skip(0) =~= names_dv);
        }
        while j < decl.names.len()
            invariant
                j <= decl.names@.len(),
                names_dv == decl.names.deep_view(),
                names_dv.len() == decl.names@.len(),
                d < n,
                seen_matches(known@, seen_m),
                spec_check_names(names_dv, seen_at_start, d as nat) == spec_check_names(
                    names_dv.skip(j as int),
                    seen_m,
                    d as nat,
                ),
            decreases decl.names@.len() - j,
        {
            proof {
                assert(names_dv.skip(j as int).len() > 0);
                assert(names_dv.skip(j as int)[0] == names_dv[j as int]);
                assert(names_dv.skip(j as int).skip(1) =~= names_dv.skip(j + 1));
            }
            let name = &decl.names[j];
            match seen_lookup(&known, name, Ghost(seen_m)) {
                Some(first) => {
                    proof {
                        let e = SpecAnalyzeError::DuplicatedCompileTimeBindingsFound {
                            name: name@,
                            first_declaration: first as nat,
                            second_declaration: d as nat,
                        };
                        assert(spec_check_names(names_dv.skip(j as int), seen_m, d as nat)
                            == Err::<Map<Seq<char>, nat>, _>(e));
                        assert(spec_check_names(names_dv, seen_at_start, d as nat) == Err::<
                            Map<Seq<char>, nat>,
                            _,
                        >(e));
                        assert(decls_dv.skip(d as int)[0].names == names_dv);
                        assert(spec_analyze_decls(decls_dv.skip(d as int), seen_at_start, d as nat)
                            == Err::<Seq<SpecCompileTimeBinding>, _>(e));
                    }
                    return Err(AnalyzeError::DuplicatedCompileTimeBindingsFound {
                        name: clone_text(name),
                        first_declaration: first,
                        second_declaration: d,
                    });
                },
                None => {
                    let ghost old_known = known@;
                    let ghost old_m = seen_m;
                    known.push((clone_text(name), d));
                    proof {
                        seen_m = seen_m.insert(name@, d as nat);
                        assert forall|k: Seq<char>| #[trigger] seen_m.contains_key(k) implies
                            exists|i: int| 0 <= i < known@.len() && (#[trigger] known@[i]).0@ == k by {
                            if k == name@ {
                                assert(known@[old_known.len() as int].0@ == k);
                            } else {
                                assert(old_m.contains_key(k));
                                let i = choose|i: int|
                                    0 <= i < old_known.len() && (#[trigger] old_known[i]).0@ == k;
                                assert(known@[i].0@ == k);
                            }
                        }
                        assert forall|i: int| 0 <= i < known@.len() implies
                            seen_m.contains_key((#[trigger] known@[i]).0@)
                            && seen_m[known@[i].0@] == known@[i].1 as nat by {
                            if i < old_known.len() {
                                assert(old_m.contains_key(old_known[i].0@));
                            }
                        }
                    }
                },
            }
            j = j + 1;
        }
        proof {
            assert(names_dv.skip(j as int).len() == 0);
            assert(spec_check_names(names_dv, seen_at_start, d as nat) == Ok::<
                _,
                SpecAnalyzeError,
            >(seen_m));
        }

        // Turn each arm's value expression into binding values.
        let ghost arms_dv = ddv.arms;
        let mut arms: Vec<AnalyzedArm> = Vec::new();
        let mut a: usize = 0;
        proof {
            assert(arms_dv.skip(0) =~= arms_dv);
        }
        while a < decl.arms.len()
            invariant
                a <= decl.arms@.len(),
                arms_dv == decl.arms.deep_view(),
                arms_dv.len() == decl.arms@.len(),
                names_dv == decl.names.deep_view(),
                names_dv.len() == decl.names@.len(),
                d < n,
                match spec_analyze_arms(names_dv, arms_dv.skip(a as int), d as nat, a as nat) {
                    Ok(rest) => spec_analyze_arms(names_dv, arms_dv, d as nat, 0) == Ok::<
                        _,
                        SpecAnalyzeError,
                    >(arms.deep_view() + rest),
                    Err(e) => spec_analyze_arms(names_dv, arms_dv, d as nat, 0) == Err::<
                        Seq<SpecAnalyzedArm>,
                        _,
                    >(e),
                },
            decreases decl.arms@.len() - a,
        {
            proof {
                assert(arms_dv.skip(a as int).len() > 0);
                assert(arms_dv.skip(a as int)[0] == arms_dv[a as int]);
                assert(arms_dv.skip(a as int).skip(1) =~= arms_dv.skip(a + 1));
            }
            let arm = &decl.arms[a];
            let values = match arm_values(&arm.value) {
                Some(vs) => vs,
                None => {
                    proof {
                        let e = SpecAnalyzeError::ExpectedStringLiteral {
                            declaration: d as nat,
                            arm: a as nat,
                        };
                        assert(spec_arm_values(arms_dv[a as int].value) is None);
                        assert(spec_analyze_arms(names_dv, arms_dv.skip(a as int), d as nat, a as nat)
                            == Err::<Seq<SpecAnalyzedArm>, _>(e));
                        assert(spec_analyze_arms(names_dv, arms_dv, d as nat, 0) == Err::<
                            Seq<SpecAnalyzedArm>,
                            _,
                        >(e));
                        assert(decls_dv.skip(d as int)[0].names == names_dv);
                        assert(decls_dv.skip(d as int)[0].arms == arms_dv);
                        assert(spec_analyze_decls(decls_dv.skip(d as int), seen_at_start, d as nat)
                            == Err::<Seq<SpecCompileTimeBinding>, _>(e));
                    }
                    return Err(AnalyzeError::ExpectedStringLiteral { declaration: d, arm: a });
                },
            };
            if values.len() != decl.names.len() {
                proof {
                    let e = SpecAnalyzeError::BindingNameValueLengthMismatch {
                        names: names_dv.len(),
                        values: values.deep_view().len(),
                        declaration: d as nat,
                        arm: a as nat,
                    };
                    assert(spec_arm_values(arms_dv[a as int].value) == Some::<Seq<Seq<char>>>(
                        values.deep_view(),
                    ));
                    assert(spec_analyze_arms(names_dv, arms_dv.skip(a as int), d as nat, a as nat)
                        == Err::<Seq<SpecAnalyzedArm>, _>(e));
                    assert(spec_analyze_arms(names_dv, arms_dv, d as nat, 0) == Err::<
                        Seq<SpecAnalyzedArm>,
                        _,
                    >(e));
                    assert(decls_dv.skip(d as int)[0].names == names_dv);
                    assert(decls_dv.skip(d as int)[0].arms == arms_dv);
                    assert(spec_analyze_decls(decls_dv.skip(d as int), seen_at_start, d as nat)
                        == Err::<Seq<SpecCompileTimeBinding>, _>(e));
                    assert(values.deep_view().len() == values@.len());
                }
                return Err(AnalyzeError::BindingNameValueLengthMismatch {
                    names: decl.names.len(),
                    values: values.len(),
                    declaration: d,
                    arm: a,
                });
            }
            // Pair the names with this arm's values, positionally.
            let mut bindings: Vec<(Vec<char>, Vec<char>)> = Vec::new();
            let mut i: usize = 0;
            while i < decl.names.len()
                invariant
                    i <= decl.names@.len(),
                    names_dv == decl.names.deep_view(),
                    names_dv.len() == decl.names@.len(),
                    values.deep_view().len() == names_dv.len(),
                    bindings.deep_view() =~= zip_bindings(names_dv, values.deep_view()).take(
                        i as int,
                    ),
                decreases decl.names@.len() - i,
            {
                let ghost old_b = bindings.deep_view();
                bindings.push((clone_text(&decl.names[i]), clone_text(&values[i])));
                proof {
                    assert(bindings.deep_view() =~= zip_bindings(names_dv, values.deep_view()).take(
                        i + 1,
                    ));
                }
                i = i + 1;
            }
            proof {
                assert(bindings.deep_view() =~= zip_bindings(names_dv, values.deep_view()));
            }
            let ghost old_arms = arms.deep_view();
            arms.push(AnalyzedArm { pattern: clone_text(&arm.pattern), bindings });
            proof {
                let new_arm = SpecAnalyzedArm {
                    pattern: arms_dv[a as int].pattern,
                    bindings: zip_bindings(names_dv, values.deep_view()),
                };
                assert(arms.deep_view() =~= old_arms + seq![new_arm]);
                if spec_analyze_arms(names_dv, arms_dv.skip(a + 1), d as nat, (a + 1) as nat) is Ok {
                    let rest = spec_analyze_arms(
                        names_dv,
                        arms_dv.skip(a + 1),
                        d as nat,
                        (a + 1) as nat,
                    )->Ok_0;
                    assert((old_arms + seq![new_arm]) + rest =~= old_arms + (seq![new_arm] + rest));
                }
            }
            a = a + 1;
        }
        proof {
            assert(arms_dv.skip(a as int).len() == 0);
        }

        let ghost old_bindings = compile_time_bindings.deep_view();
        compile_time_bindings.push(
            CompileTimeBinding { expression: clone_text(&decl.expression), arms },
        );
        proof {
            let new_b = SpecCompileTimeBinding {
                expression: ddv.expression,
                arms: spec_analyze_arms(names_dv, arms_dv, d as nat, 0)->Ok_0,
            };
            assert(compile_time_bindings.deep_view() =~= old_bindings + seq![new_b]);
            if spec_analyze_decls(decls_dv.skip(d + 1), seen_m, (d + 1) as nat) is Ok {
                let rest = spec_analyze_decls(decls_dv.skip(d + 1), seen_m, (d + 1) as nat)->Ok_0;
                assert((old_bindings + seq![new_b]) + rest =~= old_bindings + (seq![new_b] + rest));
            }
        }
        d = d + 1;
    }
    proof {
        assert(decls_dv.skip(d as int).len() == 0);
        assert(compile_time_bindings.deep_view() + Seq::<SpecCompileTimeBinding>::empty()
            =~= compile_time_bindings.deep_view());
    }
    Ok(
        AnalyzedConditionalQueryAs {
            output_type: parsed.output_type,
            query_string: parsed.query_string,
            compile_time_bindings,
        },
    )
}


// ---------------------------------------------------------------------------
// Laws
// ---------------------------------------------------------------------------

/// The arm at index `a` of `decl` has a literal-shaped value expression.
pub open spec fn arm_shape_ok(decl: SpecBindingDeclaration, a: int) -> bool {
    spec_arm_values(decl.arms[a].value) is Some
}

/// The arm at index `a` of `decl` binds exactly as many values as `decl`
/// names.
pub open spec fn arm_arity_ok(decl: SpecBindingDeclaration, a: int) -> bool {
    &&& arm_shape_ok(decl, a)
    &&& spec_arm_values(decl.arms[a].value)->Some_0.len() == decl.names.len()
}

/// Every arm of every declaration is literal-shaped.
pub open spec fn decls_literal_shaped(decls: Seq<SpecBindingDeclaration>) -> bool {
    forall|d: int, a: int|
        0 <= d < decls.len() && 0 <= a < decls[d].arms.len() ==> #[trigger] arm_shape_ok(
            decls[d],
            a,
        )
}

/// Every arm of every declaration binds exactly its declaration's name count.
pub open spec fn decls_arity_ok(decls: Seq<SpecBindingDeclaration>) -> bool {
    forall|d: int, a: int|
        0 <= d < decls.len() && 0 <= a < decls[d].arms.len() ==> #[trigger] arm_arity_ok(
            decls[d],
            a,
        )
}

/// No binding name occurs twice, neither within one declaration nor across
/// declarations.
pub open spec fn names_distinct(decls: Seq<SpecBindingDeclaration>) -> bool {
    forall|d1: int, j1: int, d2: int, j2: int|
        #![trigger decls[d1].names[j1], decls[d2].names[j2]]
        0 <= d1 < decls.len() && 0 <= j1 < decls[d1].names.len() && 0 <= d2 < decls.len() && 0 <= j2
            < decls[d2].names.len() && (d1 != d2 || j1 != j2) ==> decls[d1].names[j1]
            != decls[d2].names[j2]
}

/// No declared name is already present in `seen`.
pub open spec fn names_fresh(decls: Seq<SpecBindingDeclaration>, seen: Map<Seq<char>, nat>) -> bool {
    forall|d: int, j: int|
        0 <= d < decls.len() && 0 <= j < decls[d].names.len() ==> !seen.contains_key(
            #[trigger] decls[d].names[j],
        )
}

proof fn lemma_check_names(names: Seq<Seq<char>>, seen: Map<Seq<char>, nat>, d: nat)
    ensures
        (spec_check_names(names, seen, d) is Ok) <==> ((forall|j: int|
            0 <= j < names.len() ==> !seen.contains_key(#[trigger] names[j])) && (forall|
            j1: int,
            j2: int,
        |
            0 <= j1 < j2 < names.len() ==> names[j1] != names[j2])),
        spec_check_names(names, seen, d) is Ok ==> {
            let m = spec_check_names(names, seen, d)->Ok_0;
            &&& (forall|k: Seq<char>|
                #[trigger] m.contains_key(k) <==> (seen.contains_key(k) || names.contains(k)))
            &&& (forall|k: Seq<char>|
                m.contains_key(k) ==> #[trigger] m[k] == if seen.contains_key(k) {
                    seen[k]
                } else {
                    d
                })
        },
    decreases names.len(),
{
    if names.len() == 0 {
        if spec_check_names(names, seen, d) is Ok {
            let m = spec_check_names(names, seen, d)->Ok_0;
            assert(forall|k: Seq<char>| names.contains(k) ==> 0 < names.len());
        }
    } else if seen.contains_key(names[0]) {
        assert(!((forall|j: int| 0 <= j < names.len() ==> !seen.contains_key(#[trigger] names[j]))))
            by {
            assert(0 <= 0 < names.len() && seen.contains_key(names[0]));
        }
    } else {
        let seen2 = seen.insert(names[0], d);
        lemma_check_names(names.skip(1), seen2, d);
        let tail = names.skip(1);
        assert(forall|j: int| 0 <= j < tail.len() ==> tail[j] == names[j + 1]);
        if spec_check_names(names, seen, d) is Ok {
            // Forward direction: tail checks passed against seen2.
            assert forall|j: int| 0 <= j < names.len() implies !seen.contains_key(
                #[trigger] names[j],
            ) by {
                if j > 0 {
                    assert(!seen2.contains_key(tail[j - 1]));
                }
            }
            assert forall|j1: int, j2: int| 0 <= j1 < j2 < names.len() implies names[j1]
                != names[j2] by {
                if j1 == 0 {
                    assert(!seen2.contains_key(tail[j2 - 1]));
                } else {
                    assert(tail[j1 - 1] == names[j1] && tail[j2 - 1] == names[j2]);
                }
            }
            let m = spec_check_names(names, seen, d)->Ok_0;
            assert forall|k: Seq<char>| #[trigger]
                m.contains_key(k) <==> (seen.contains_key(k) || names.contains(k)) by {
                if m.contains_key(k) {
                    if seen2.contains_key(k) && k != names[0] {
                        assert(seen.contains_key(k));
                    } else if !seen2.contains_key(k) {
                        assert(tail.contains(k));
                        let j = choose|j: int| 0 <= j < tail.len() && tail[j] == k;
                        assert(names[j + 1] == k);
                    } else {
                        assert(names.contains(k)) by {
                            assert(names[0] == k);
                        }
                    }
                } else {
                    assert(!seen2.contains_key(k) && !tail.contains(k));
                    if names.contains(k) {
                        let j = choose|j: int| 0 <= j < names.len() && names[j] == k;
                        if j == 0 {
                            assert(seen2.contains_key(k));
                        } else {
                            assert(tail[j - 1] == k);
                        }
                    }
                }
            }
        } else {
            // Backward direction: if all names are fresh and distinct the
            // tail must also pass, contradiction with the error.
            if (forall|j: int| 0 <= j < names.len() ==> !seen.contains_key(#[trigger] names[j]))
                && (forall|j1: int, j2: int|
                0 <= j1 < j2 < names.len() ==> names[j1] != names[j2]) {
                assert forall|j: int| 0 <= j < tail.len() implies !seen2.contains_key(
                    #[trigger] tail[j],
                ) by {
                    assert(tail[j] == names[j + 1]);
                    assert(names[j + 1] != names[0]);
                }
                assert forall|j1: int, j2: int| 0 <= j1 < j2 < tail.len() implies tail[j1]
                    != tail[j2] by {
                    assert(tail[j1] == names[j1 + 1] && tail[j2] == names[j2 + 1]);
                }
                assert(spec_check_names(names, seen, d) is Ok);
            }
        }
    }
}

proof fn lemma_analyze_arms_status(
    names: Seq<Seq<char>>,
    arms: Seq<SpecParsedArm>,
    d: nat,
    a0: nat,
)
    ensures
        (spec_analyze_arms(names, arms, d, a0) is Ok) <==> (forall|a: int|
            0 <= a < arms.len() ==> (spec_arm_values(#[trigger] arms[a].value) matches Some(vs)
                && vs.len() == names.len())),
        ((forall|a: int| 0 <= a < arms.len() ==> spec_arm_values(#[trigger] arms[a].value) is Some)
            && !(spec_analyze_arms(names, arms, d, a0) is Ok)) ==> spec_analyze_arms(
            names,
            arms,
            d,
            a0,
        ) matches Err(SpecAnalyzeError::BindingNameValueLengthMismatch { .. }),
    decreases arms.len(),
{
    if arms.len() > 0 {
        lemma_analyze_arms_status(names, arms.skip(1), d, a0 + 1);
        let tail = arms.skip(1);
        assert(forall|a: int| 0 <= a < tail.len() ==> tail[a] == arms[a + 1]);
        if spec_analyze_arms(names, arms, d, a0) is Ok {
            assert forall|a: int| 0 <= a < arms.len() implies (spec_arm_values(
                #[trigger] arms[a].value,
            ) matches Some(vs) && vs.len() == names.len()) by {
                if a > 0 {
                    assert(spec_arm_values(tail[a - 1].value) matches Some(vs) && vs.len()
                        == names.len());
                }
            }
        } else {
            if (forall|a: int|
                0 <= a < arms.len() ==> (spec_arm_values(#[trigger] arms[a].value) matches Some(vs)
                    && vs.len() == names.len())) {
                assert forall|a: int| 0 <= a < tail.len() implies (spec_arm_values(
                    #[trigger] tail[a].value,
                ) matches Some(vs) && vs.len() == names.len()) by {
                    assert(tail[a] == arms[a + 1]);
                }
                assert(false);
            }
            if (forall|a: int|
                0 <= a < arms.len() ==> spec_arm_values(#[trigger] arms[a].value) is Some) {
                assert(spec_arm_values(arms[0].value) is Some);
                if spec_arm_values(arms[0].value)->Some_0.len() == names.len() {
                    assert forall|a: int| 0 <= a < tail.len() implies spec_arm_values(
                        #[trigger] tail[a].value,
                    ) is Some by {
                        assert(tail[a] == arms[a + 1]);
                    }
                }
            }
        }
    }
}

proof fn lemma_analyze_decls_status(
    decls: Seq<SpecBindingDeclaration>,
    seen: Map<Seq<char>, nat>,
    d0: nat,
)
    ensures
        (spec_analyze_decls(decls, seen, d0) is Ok) <==> (names_fresh(decls, seen)
            && names_distinct(decls) && decls_arity_ok(decls)),
        (names_fresh(decls, seen) && names_distinct(decls) && decls_literal_shaped(decls)
            && !decls_arity_ok(decls)) ==> spec_analyze_decls(decls, seen, d0) matches Err(
            SpecAnalyzeError::BindingNameValueLengthMismatch { .. },
        ),
    decreases decls.len(),
{
    if decls.len() == 0 {
        assert(names_fresh(decls, seen));
        assert(names_distinct(decls));
        assert(decls_arity_ok(decls));
    } else {
        let head = decls[0];
        let tail = decls.skip(1);
        assert(forall|d: int| 0 <= d < tail.len() ==> tail[d] == decls[d + 1]);
        lemma_check_names(head.names, seen, d0);
        match spec_check_names(head.names, seen, d0) {
            Err(_) => {
                // Some head name is already seen, or repeats within the head.
                assert(!(names_fresh(decls, seen) && names_distinct(decls))) by {
                    if names_fresh(decls, seen) && names_distinct(decls) {
                        assert forall|j: int| 0 <= j < head.names.len() implies !seen.contains_key(
                            #[trigger] head.names[j],
                        ) by {
                            assert(decls[0].names[j] == head.names[j]);
                        }
                        assert forall|j1: int, j2: int|
                            0 <= j1 < j2 < head.names.len() implies head.names[j1]
                            != head.names[j2] by {
                            assert(decls[0].names[j1] == head.names[j1]);
                        }
                        assert(spec_check_names(head.names, seen, d0) is Ok);
                    }
                }
            },
            Ok(seen2) => {
                lemma_analyze_arms_status(head.names, head.arms, d0, 0);
                lemma_analyze_decls_status(tail, seen2, d0 + 1);
                let ok = spec_analyze_decls(decls, seen, d0) is Ok;
                let rhs = names_fresh(decls, seen) && names_distinct(decls) && decls_arity_ok(
                    decls,
                );
                if ok {
                    assert(names_fresh(tail, seen2) && names_distinct(tail) && decls_arity_ok(
                        tail,
                    ));
                    assert forall|d: int, j: int|
                        0 <= d < decls.len() && 0 <= j < decls[d].names.len() implies !seen
                        .contains_key(#[trigger] decls[d].names[j]) by {
                        if d == 0 {
                        } else {
                            assert(!seen2.contains_key(tail[d - 1].names[j]));
                            assert(tail[d - 1].names[j] == decls[d].names[j]);
                        }
                    }
                    assert forall|d1: int, j1: int, d2: int, j2: int|
                        #![trigger decls[d1].names[j1], decls[d2].names[j2]]
                        0 <= d1 < decls.len() && 0 <= j1 < decls[d1].names.len() && 0 <= d2
                            < decls.len() && 0 <= j2 < decls[d2].names.len() && (d1 != d2 || j1
                            != j2) implies decls[d1].names[j1] != decls[d2].names[j2] by {
                        if d1 == 0 && d2 == 0 {
                            assert(head.names[j1] != head.names[j2]);
                        } else if d1 == 0 && d2 > 0 {
                            assert(seen2.contains_key(head.names[j1]));
                            assert(!seen2.contains_key(tail[d2 - 1].names[j2]));
                            assert(tail[d2 - 1].names[j2] == decls[d2].names[j2]);
                        } else if d1 > 0 && d2 == 0 {
                            assert(seen2.contains_key(head.names[j2]));
                            assert(!seen2.contains_key(tail[d1 - 1].names[j1]));
                            assert(tail[d1 - 1].names[j1] == decls[d1].names[j1]);
                        } else {
                            assert(tail[d1 - 1].names[j1] == decls[d1].names[j1]);
                            assert(tail[d2 - 1].names[j2] == decls[d2].names[j2]);
                        }
                    }
                    assert forall|d: int, a: int|
                        0 <= d < decls.len() && 0 <= a < decls[d].arms.len() implies #[trigger]
                        arm_arity_ok(decls[d], a) by {
                        if d == 0 {
                            assert(spec_arm_values(head.arms[a].value) matches Some(vs) && vs.len()
                                == head.names.len());
                        } else {
                            assert(arm_arity_ok(tail[d - 1], a));
                            assert(tail[d - 1] == decls[d]);
                        }
                    }
                } else {
                    if rhs {
                        // All three conditions descend to the tail, so the
                        // recursion must have succeeded: contradiction.
                        assert forall|a: int| 0 <= a < head.arms.len() implies (spec_arm_values(
                            #[trigger] head.arms[a].value,
                        ) matches Some(vs) && vs.len() == head.names.len()) by {
                            assert(arm_arity_ok(decls[0], a));
                        }
                        assert(spec_analyze_arms(head.names, head.arms, d0, 0) is Ok);
                        assert forall|d: int, j: int|
                            0 <= d < tail.len() && 0 <= j < tail[d].names.len() implies !seen2
                            .contains_key(#[trigger] tail[d].names[j]) by {
                            assert(tail[d].names[j] == decls[d + 1].names[j]);
                            assert(!seen.contains_key(decls[d + 1].names[j]));
                            if head.names.contains(tail[d].names[j]) {
                                let j0 = choose|j0: int|
                                    0 <= j0 < head.names.len() && head.names[j0] == tail[
                                        d
                                    ].names[j];
                                assert(decls[0].names[j0] == decls[d + 1].names[j]);
                                assert(false);
                            }
                        }
                        assert forall|d1: int, j1: int, d2: int, j2: int|
                            #![trigger tail[d1].names[j1], tail[d2].names[j2]]
                            0 <= d1 < tail.len() && 0 <= j1 < tail[d1].names.len() && 0 <= d2
                                < tail.len() && 0 <= j2 < tail[d2].names.len() && (d1 != d2 || j1
                                != j2) implies tail[d1].names[j1] != tail[d2].names[j2] by {
                            assert(tail[d1].names[j1] == decls[d1 + 1].names[j1]);
                            assert(tail[d2].names[j2] == decls[d2 + 1].names[j2]);
                        }
                        assert forall|d: int, a: int|
                            0 <= d < tail.len() && 0 <= a < tail[d].arms.len() implies #[trigger]
                            arm_arity_ok(tail[d], a) by {
                            assert(tail[d] == decls[d + 1]);
                            assert(arm_arity_ok(decls[d + 1], a));
                        }
                        assert(spec_analyze_decls(tail, seen2, d0 + 1) is Ok);
                        assert(false);
                    }
                    // Error-kind half.
                    if names_fresh(decls, seen) && names_distinct(decls) && decls_literal_shaped(
                        decls,
                    ) {
                        if !(spec_analyze_arms(head.names, head.arms, d0, 0) is Ok) {
                            assert forall|a: int| 0 <= a < head.arms.len() implies spec_arm_values(
                                #[trigger] head.arms[a].value,
                            ) is Some by {
                                assert(arm_shape_ok(decls[0], a));
                            }
                        } else {
                            assert forall|d: int, j: int|
                                0 <= d < tail.len() && 0 <= j < tail[d].names.len() implies !seen2
                                .contains_key(#[trigger] tail[d].names[j]) by {
                                assert(tail[d].names[j] == decls[d + 1].names[j]);
                                assert(!seen.contains_key(decls[d + 1].names[j]));
                                if head.names.contains(tail[d].names[j]) {
                                    let j0 = choose|j0: int|
                                        0 <= j0 < head.names.len() && head.names[j0] == tail[
                                            d
                                        ].names[j];
                                    assert(decls[0].names[j0] == decls[d + 1].names[j]);
                                    assert(false);
                                }
                            }
                            assert forall|d1: int, j1: int, d2: int, j2: int|
                                #![trigger tail[d1].names[j1], tail[d2].names[j2]]
                                0 <= d1 < tail.len() && 0 <= j1 < tail[d1].names.len() && 0 <= d2
                                    < tail.len() && 0 <= j2 < tail[d2].names.len() && (d1 != d2
                                    || j1 != j2) implies tail[d1].names[j1]
                                != tail[d2].names[j2] by {
                                assert(tail[d1].names[j1] == decls[d1 + 1].names[j1]);
                                assert(tail[d2].names[j2] == decls[d2 + 1].names[j2]);
                            }
                            assert forall|d: int, a: int|
                                0 <= d < tail.len() && 0 <= a < tail[d].arms.len() implies
                                #[trigger] arm_shape_ok(tail[d], a) by {
                                assert(tail[d] == decls[d + 1]);
                                assert(arm_shape_ok(decls[d + 1], a));
                            }
                            assert(!decls_arity_ok(tail)) by {
                                if decls_arity_ok(tail) {
                                    assert forall|d: int, a: int|
                                        0 <= d < decls.len() && 0 <= a
                                            < decls[d].arms.len() implies #[trigger] arm_arity_ok(
                                        decls[d],
                                        a,
                                    ) by {
                                        if d == 0 {
                                            assert(spec_arm_values(head.arms[a].value)
                                                matches Some(vs) && vs.len() == head.names.len());
                                        } else {
                                            assert(arm_arity_ok(tail[d - 1], a));
                                            assert(tail[d - 1] == decls[d]);
                                        }
                                    }
                                    assert(false);
                                }
                            }
                        }
                    }
                }
            },
        }
    }
}

/// Success law: analysis succeeds exactly when no binding name is declared
/// twice and every arm of every declaration is a string literal or tuple of
/// string literals binding exactly as many values as its declaration names.
pub proof fn lemma_analyze_success_iff(p: SpecParsedConditionalQueryAs)
    ensures
        (spec_analyze(p) is Ok) <==> (names_distinct(p.compile_time_bindings) && decls_arity_ok(
            p.compile_time_bindings,
        )),
{
    lemma_analyze_decls_status(p.compile_time_bindings, Map::empty(), 0);
}

/// Arity law: for every arm, the number of bound values equals the number of
/// declaration names, or analysis fails; and when names are distinct and all
/// arms are literal-shaped, that failure is reported as a name/value length
/// mismatch.
pub proof fn lemma_arity_check(p: SpecParsedConditionalQueryAs)
    ensures
        spec_analyze(p) is Ok ==> decls_arity_ok(p.compile_time_bindings),
        (names_distinct(p.compile_time_bindings) && decls_literal_shaped(p.compile_time_bindings)
            && !decls_arity_ok(p.compile_time_bindings)) ==> spec_analyze(p) matches Err(
            SpecAnalyzeError::BindingNameValueLengthMismatch { .. },
        ),
{
    lemma_analyze_decls_status(p.compile_time_bindings, Map::empty(), 0);
}

} // verus!
