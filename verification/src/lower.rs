//! Lowering: the cartesian expander. Every combination of one arm per
//! declaration becomes one variant, carrying the tuple of the chosen patterns
//! (in declaration order, positionally aligned with the branch expressions)
//! and the merged name-to-literal binding table. A template without
//! declarations lowers to a single always-true variant.

use vstd::prelude::*;

use crate::analyze::AnalyzedArm;
use crate::analyze::AnalyzedConditionalQueryAs;
use crate::analyze::SpecAnalyzedArm;
use crate::analyze::SpecAnalyzedConditionalQueryAs;
use crate::analyze::SpecCompileTimeBinding;
use crate::text::append_pairs;
use crate::text::append_texts;
use crate::text::clone_pairs;
use crate::text::clone_text;

verus! {

broadcast use crate::text::lemma_text_deep_view;

// ---------------------------------------------------------------------------
// Mathematical model
// ---------------------------------------------------------------------------

/// Model of one variant: one pattern per declaration plus the merged
/// compile-time binding table.
#[verifier::ext_equal]
pub struct SpecMatchArm {
    pub patterns: Seq<Seq<char>>,
    pub compile_time_bindings: Seq<(Seq<char>, Seq<char>)>,
}

/// Model of the lowered template.
#[verifier::ext_equal]
pub struct SpecLoweredConditionalQueryAs {
    pub output_type: Seq<char>,
    pub query_string: Seq<char>,
    pub match_expressions: Seq<Seq<char>>,
    pub match_arms: Seq<SpecMatchArm>,
}

/// Extends every variant of `ts` on the left with the arm `x`.
pub open spec fn prepend_arm(x: SpecAnalyzedArm, ts: Seq<SpecMatchArm>) -> Seq<SpecMatchArm> {
    ts.map_values(|t: SpecMatchArm| prepend_one(x, t))
}

/// All combinations of one arm from `hd` with one variant from `ts`, grouped
/// by the arm of `hd`, in order.
pub open spec fn cross_arms(hd: Seq<SpecAnalyzedArm>, ts: Seq<SpecMatchArm>) -> Seq<SpecMatchArm>
    decreases hd.len(),
{
    if hd.len() == 0 {
        seq![]
    } else {
        prepend_arm(hd[0], ts) + cross_arms(hd.skip(1), ts)
    }
}

/// The cartesian product of the declarations' arm lists, in declaration order:
/// the first declaration varies slowest.
pub open spec fn arms_product(ls: Seq<Seq<SpecAnalyzedArm>>) -> Seq<SpecMatchArm>
    decreases ls.len(),
{
    if ls.len() == 0 {
        seq![SpecMatchArm { patterns: seq![], compile_time_bindings: seq![] }]
    } else {
        cross_arms(ls[0], arms_product(ls.skip(1)))
    }
}

/// The always-true pattern and trivial branch expression used when a template
/// declares no compile-time bindings.
pub open spec fn unit_text() -> Seq<char> {
    seq!['(', ')']
}

/// The arm lists of all declarations, in order.
pub open spec fn decl_arms_lists(decls: Seq<SpecCompileTimeBinding>) -> Seq<Seq<SpecAnalyzedArm>> {
    decls.map_values(|d: SpecCompileTimeBinding| d.arms)
}

/// One combination of an arm of `x` with a variant of the later declarations.
pub open spec fn prepend_one(x: SpecAnalyzedArm, t: SpecMatchArm) -> SpecMatchArm {
    SpecMatchArm {
        patterns: seq![x.pattern] + t.patterns,
        compile_time_bindings: x.bindings + t.compile_time_bindings,
    }
}

/// The product of the arm counts of all declarations; one if there are none.
pub open spec fn variant_count(decls: Seq<SpecCompileTimeBinding>) -> nat
    decreases decls.len(),
{
    if decls.len() == 0 {
        1
    } else {
        decls[0].arms.len() * variant_count(decls.skip(1))
    }
}

/// The arm index of declaration `d` that variant `i` selects: the variants
/// enumerate the arms lexicographically, the first declaration varying
/// slowest.
pub open spec fn selected_arm(decls: Seq<SpecCompileTimeBinding>, i: int, d: int) -> int {
    (i / variant_count(decls.skip(d + 1)) as int) % decls[d].arms.len() as int
}

/// The whole lowering as a function of the analyzed template. It never fails.
pub open spec fn spec_lower(a: SpecAnalyzedConditionalQueryAs) -> SpecLoweredConditionalQueryAs {
    if a.compile_time_bindings.len() == 0 {
        SpecLoweredConditionalQueryAs {
            output_type: a.output_type,
            query_string: a.query_string,
            match_expressions: seq![unit_text()],
            match_arms: seq![
                SpecMatchArm { patterns: seq![unit_text()], compile_time_bindings: seq![] },
            ],
        }
    } else {
        SpecLoweredConditionalQueryAs {
            output_type: a.output_type,
            query_string: a.query_string,
            match_expressions: a.compile_time_bindings.map_values(
                |d: SpecCompileTimeBinding| d.expression,
            ),
            match_arms: arms_product(decl_arms_lists(a.compile_time_bindings)),
        }
    }
}

// ---------------------------------------------------------------------------
// Executable representation
// ---------------------------------------------------------------------------

/// One variant: one pattern per declaration (in declaration order) and the
/// merged compile-time binding table. The names are unique whenever the input
/// came from a successful analysis.
#[derive(Debug)]
pub struct MatchArm {
    pub patterns: Vec<Vec<char>>,
    pub compile_time_bindings: Vec<(Vec<char>, Vec<char>)>,
}

/// The lowered template: the branch expressions, in declaration order, and one
/// variant per combination of arms, the first declaration varying slowest.
#[derive(Debug)]
pub struct LoweredConditionalQueryAs {
    pub output_type: Vec<char>,
    pub query_string: Vec<char>,
    pub match_expressions: Vec<Vec<char>>,
    pub match_arms: Vec<MatchArm>,
}

impl DeepView for MatchArm {
    type V = SpecMatchArm;

    open spec fn deep_view(&self) -> SpecMatchArm {
        SpecMatchArm {
            patterns: self.patterns.deep_view(),
            compile_time_bindings: self.compile_time_bindings.deep_view(),
        }
    }
}

impl DeepView for LoweredConditionalQueryAs {
    type V = SpecLoweredConditionalQueryAs;

    open spec fn deep_view(&self) -> SpecLoweredConditionalQueryAs {
        SpecLoweredConditionalQueryAs {
            output_type: self.output_type@,
            query_string: self.query_string@,
            match_expressions: self.match_expressions.deep_view(),
            match_arms: self.match_arms.deep_view(),
        }
    }
}

/// Builds the cartesian product of all declarations' arm lists: one variant
/// per combination, patterns in declaration order, binding tables merged in
/// declaration order. A template without declarations yields one variant with
/// a single always-true pattern.
#[verifier::loop_isolation(false)]
pub fn lower(analyzed: AnalyzedConditionalQueryAs) -> (r: LoweredConditionalQueryAs)
    ensures
        r.deep_view() == spec_lower(analyzed.deep_view()),
{
    let ghost adv = analyzed.deep_view();
    let ghost decls_dv = adv.compile_time_bindings;
    let decls = &analyzed.compile_time_bindings;

    if decls.len() == 0 {
        let mut match_expressions: Vec<Vec<char>> = Vec::new();
        let mut unit1: Vec<char> = Vec::new();
        unit1.push('(');
        unit1.push(')');
        proof {
            assert(unit1@ =~= unit_text());
        }
        let unit2 = clone_text(&unit1);
        match_expressions.push(unit1);
        let mut patterns: Vec<Vec<char>> = Vec::new();
        patterns.push(unit2);
        let mut match_arms: Vec<MatchArm> = Vec::new();
        match_arms.push(MatchArm { patterns, compile_time_bindings: Vec::new() });
        let r = LoweredConditionalQueryAs {
            output_type: analyzed.output_type,
            query_string: analyzed.query_string,
            match_expressions,
            match_arms,
        };
        proof {
            assert(r.deep_view().match_expressions =~= seq![unit_text()]);
            assert(r.deep_view().match_arms[0].patterns =~= seq![unit_text()]);
            assert(r.deep_view().match_arms[0].compile_time_bindings =~= Seq::<
                (Seq<char>, Seq<char>),
            >::empty());
            assert(r.deep_view().match_arms =~~= spec_lower(adv).match_arms);
        }
        return r;
    }

    // The branch expressions, in declaration order.
    let mut match_expressions: Vec<Vec<char>> = Vec::new();
    let mut d: usize = 0;
    while d < decls.len()
        invariant
            d <= decls@.len(),
            match_expressions.deep_view() == decls_dv.map_values(
                |c: SpecCompileTimeBinding| c.expression,
            ).take(d as int),
        decreases decls@.len() - d,
    {
        match_expressions.push(clone_text(&decls[d].expression));
        proof {
            assert(match_expressions.deep_view() =~= decls_dv.map_values(
                |c: SpecCompileTimeBinding| c.expression,
            ).take(d + 1));
        }
        d = d + 1;
    }
    proof {
        assert(decls_dv.map_values(|c: SpecCompileTimeBinding| c.expression).take(d as int)
            =~= decls_dv.map_values(|c: SpecCompileTimeBinding| c.expression));
    }

    // The product, folded from the last declaration towards the first.
    let ghost lists = decl_arms_lists(decls_dv);
    let mut acc: Vec<MatchArm> = Vec::new();
    acc.push(MatchArm { patterns: Vec::new(), compile_time_bindings: Vec::new() });
    proof {
        assert(lists.skip(decls_dv.len() as int) =~= Seq::<Seq<SpecAnalyzedArm>>::empty());
        assert(acc.deep_view() =~~= arms_product(lists.skip(decls_dv.len() as int)));
    }
    let mut d = decls.len();
    while d > 0
        invariant
            d <= decls@.len(),
            acc.deep_view() == arms_product(lists.skip(d as int)),
        decreases d,
    {
        d = d - 1;
        let ghost ts = acc.deep_view();
        let arms = &decls[d].arms;
        let ghost hd = lists[d as int];
        proof {
            assert(hd == arms.deep_view());
            assert(lists.skip(d as int)[0] == lists[d as int]);
            assert(lists.skip(d as int).skip(1) =~= lists.skip(d + 1));
        }
        let mut next: Vec<MatchArm> = Vec::new();
        let mut i: usize = 0;
        proof {
            assert(hd.take(0) =~= Seq::<SpecAnalyzedArm>::empty());
            assert(next.deep_view() =~~= cross_arms(hd.take(0), ts));
        }
        while i < arms.len()
            invariant
                i <= arms@.len(),
                next.deep_view() == cross_arms(hd.take(i as int), ts),
            decreases arms@.len() - i,
        {
            let arm = &arms[i];
            let mut j: usize = 0;
            proof {
                assert(prepend_arm(hd[i as int], ts).take(0) =~= Seq::<SpecMatchArm>::empty());
                assert(next.deep_view() + prepend_arm(hd[i as int], ts).take(0)
                    =~= next.deep_view());
            }
            let ghost next_before = next.deep_view();
            while j < acc.len()
                invariant
                    j <= acc@.len(),
                    ts == acc.deep_view(),
                    ts.len() == acc@.len(),
                    i < arms@.len(),
                    arm == &arms@[i as int],
                    hd == arms.deep_view(),
                    next.deep_view() == next_before + prepend_arm(hd[i as int], ts).take(j as int),
                decreases acc@.len() - j,
            {
                let t = &acc[j];
                let mut patterns: Vec<Vec<char>> = Vec::new();
                patterns.push(clone_text(&arm.pattern));
                append_texts(&mut patterns, &t.patterns);
                let mut bindings = clone_pairs(&arm.bindings);
                append_pairs(&mut bindings, &t.compile_time_bindings);
                proof {
                    assert(patterns.deep_view() =~= seq![hd[i as int].pattern]
                        + ts[j as int].patterns);
                    assert(bindings.deep_view() =~= hd[i as int].bindings + ts[
                        j as int
                    ].compile_time_bindings);
                }
                let ghost old_deep = next.deep_view();
                next.push(MatchArm { patterns, compile_time_bindings: bindings });
                proof {
                    let pa = prepend_arm(hd[i as int], ts);
                    assert(pa[j as int] == SpecMatchArm {
                        patterns: seq![hd[i as int].pattern] + ts[j as int].patterns,
                        compile_time_bindings: hd[i as int].bindings + ts[
                            j as int
                        ].compile_time_bindings,
                    });
                    assert(next@[next@.len() - 1].deep_view() == pa[j as int]);
                    assert forall|k: int| 0 <= k < old_deep.len() implies #[trigger] next.deep_view()[k]
                        == old_deep[k] by {
                        assert(next.deep_view()[k] == next@[k].deep_view());
                    }
                    assert(pa.take(j + 1) =~= pa.take(j as int) + seq![pa[j as int]]);
                    assert(next.deep_view() =~= next_before + pa.take(j + 1));
                }
                j = j + 1;
            }
            proof {
                assert(prepend_arm(hd[i as int], ts).take(j as int) =~= prepend_arm(
                    hd[i as int],
                    ts,
                ));
                lemma_cross_snoc(hd.take(i + 1), ts);
                assert(hd.take(i + 1).take(hd.take(i + 1).len() - 1) =~= hd.take(i as int));
                assert(hd.take(i + 1).last() == hd[i as int]);
                assert(next.deep_view() =~~= cross_arms(hd.take(i + 1), ts));
            }
            i = i + 1;
        }
        proof {
            assert(hd.take(i as int) =~= hd);
            assert(acc.deep_view() == arms_product(lists.skip(d + 1)));
            assert(arms_product(lists.skip(d as int)) == cross_arms(hd, ts));
        }
        acc = next;
    }
    proof {
        assert(lists.skip(0) =~= lists);
    }
    let r = LoweredConditionalQueryAs {
        output_type: analyzed.output_type,
        query_string: analyzed.query_string,
        match_expressions,
        match_arms: acc,
    };
    proof {
        assert(r.deep_view() == spec_lower(adv));
    }
    r
}

/// Splitting off the last arm of `hd` splits the product into the product of
/// the front and the block of the last arm.
proof fn lemma_cross_snoc(hd: Seq<SpecAnalyzedArm>, ts: Seq<SpecMatchArm>)
    requires
        hd.len() > 0,
    ensures
        cross_arms(hd, ts) == cross_arms(hd.take(hd.len() - 1), ts) + prepend_arm(hd.last(), ts),
    decreases hd.len(),
{
    if hd.len() == 1 {
        assert(hd.take(0) =~= Seq::<SpecAnalyzedArm>::empty());
        assert(cross_arms(hd.take(0), ts) =~= Seq::<SpecMatchArm>::empty());
        assert(hd.skip(1) =~= Seq::<SpecAnalyzedArm>::empty());
        assert(cross_arms(hd, ts) =~= prepend_arm(hd[0], ts));
        assert(cross_arms(hd.take(hd.len() - 1), ts) + prepend_arm(hd.last(), ts) =~= prepend_arm(
            hd[0],
            ts,
        ));
    } else {
        lemma_cross_snoc(hd.skip(1), ts);
        let front = hd.take(hd.len() - 1);
        assert(hd.skip(1).take(hd.skip(1).len() - 1) =~= front.skip(1));
        assert(hd.skip(1).last() == hd.last());
        assert(front[0] == hd[0]);
        assert(cross_arms(hd, ts) == prepend_arm(hd[0], ts) + cross_arms(hd.skip(1), ts));
        assert(cross_arms(front, ts) == prepend_arm(front[0], ts) + cross_arms(front.skip(1), ts));
        assert(cross_arms(hd, ts) =~= cross_arms(front, ts) + prepend_arm(hd.last(), ts));
    }
}


// ---------------------------------------------------------------------------
// Laws
// ---------------------------------------------------------------------------

proof fn lemma_cross_len(hd: Seq<SpecAnalyzedArm>, ts: Seq<SpecMatchArm>)
    ensures
        cross_arms(hd, ts).len() == hd.len() * ts.len(),
    decreases hd.len(),
{
    if hd.len() == 0 {
        assert(hd.len() * ts.len() == 0) by (nonlinear_arith)
            requires hd.len() == 0;
    } else {
        lemma_cross_len(hd.skip(1), ts);
        assert(ts.len() + (hd.len() - 1) * ts.len() == hd.len() * ts.len()) by (nonlinear_arith);
    }
}

proof fn lemma_product_len(decls: Seq<SpecCompileTimeBinding>)
    ensures
        arms_product(decl_arms_lists(decls)).len() == variant_count(decls),
    decreases decls.len(),
{
    let ls = decl_arms_lists(decls);
    if decls.len() == 0 {
        assert(ls =~= Seq::<Seq<SpecAnalyzedArm>>::empty());
    } else {
        lemma_product_len(decls.skip(1));
        assert(ls.skip(1) =~= decl_arms_lists(decls.skip(1)));
        lemma_cross_len(ls[0], arms_product(ls.skip(1)));
    }
}

/// Variant-count law: lowering yields exactly the product of the arm counts of
/// all declarations, and exactly one variant when there are no declarations.
pub proof fn lemma_variant_count(a: SpecAnalyzedConditionalQueryAs)
    ensures
        spec_lower(a).match_arms.len() == variant_count(a.compile_time_bindings),
{
    if a.compile_time_bindings.len() > 0 {
        lemma_product_len(a.compile_time_bindings);
    }
}

proof fn lemma_cross_index(hd: Seq<SpecAnalyzedArm>, ts: Seq<SpecMatchArm>, i: int)
    requires
        ts.len() > 0,
        0 <= i < cross_arms(hd, ts).len(),
    ensures
        0 <= i / (ts.len() as int) < hd.len(),
        0 <= i % (ts.len() as int) < ts.len(),
        cross_arms(hd, ts)[i] == prepend_one(
            hd[i / (ts.len() as int)],
            ts[i % (ts.len() as int)],
        ),
    decreases hd.len(),
{
    lemma_cross_len(hd, ts);
    let m = ts.len() as int;
    if i < m {
        vstd::arithmetic::div_mod::lemma_small_mod(i as nat, ts.len());
        vstd::arithmetic::div_mod::lemma_basic_div(i, m);
        assert(cross_arms(hd, ts)[i] == prepend_arm(hd[0], ts)[i]);
        assert(hd.len() > 0) by {
            assert(hd.len() * ts.len() > 0);
            if hd.len() == 0 {
                assert(hd.len() * ts.len() == 0) by (nonlinear_arith)
                    requires hd.len() == 0;
            }
        }
    } else {
        assert(hd.len() > 1 || i < m) by {
            if hd.len() <= 1 {
                assert(hd.len() * ts.len() <= ts.len()) by (nonlinear_arith)
                    requires hd.len() <= 1;
            }
        }
        lemma_cross_len(hd.skip(1), ts);
        lemma_cross_index(hd.skip(1), ts, i - m);
        assert(cross_arms(hd, ts)[i] == cross_arms(hd.skip(1), ts)[i - m]);
        assert((i - m) / m == i / m - 1) by {
            vstd::arithmetic::div_mod::lemma_fundamental_div_mod(i, m);
            vstd::arithmetic::div_mod::lemma_mod_division_less_than_divisor(i, m);
            assert(i - m == m * (i / m - 1) + i % m) by (nonlinear_arith)
                requires
                    i == m * (i / m) + i % m,
            ;
            vstd::arithmetic::div_mod::lemma_div_multiples_vanish_fancy(i / m - 1, i % m, m);
        }
        assert((i - m) % m == i % m) by {
            vstd::arithmetic::div_mod::lemma_mod_sub_multiples_vanish(i, m);
        }
        assert(hd.skip(1)[(i - m) / m] == hd[i / m]);
    }
}

/// A positive variant count means every factor of the product is positive.
proof fn lemma_count_positive(decls: Seq<SpecCompileTimeBinding>, d: int)
    requires
        variant_count(decls) > 0,
        0 <= d <= decls.len(),
    ensures
        variant_count(decls.skip(d)) > 0,
        d < decls.len() ==> decls[d].arms.len() > 0,
    decreases d,
{
    if d == 0 {
        assert(decls.skip(0) =~= decls);
        if decls.len() > 0 && decls[0].arms.len() == 0 {
            assert(variant_count(decls) == 0) by (nonlinear_arith)
                requires
                    variant_count(decls) == decls[0].arms.len() * variant_count(decls.skip(1)),
                    decls[0].arms.len() == 0,
            ;
        }
    } else {
        assert(variant_count(decls.skip(1)) > 0) by {
            if variant_count(decls.skip(1)) == 0 {
                assert(variant_count(decls) == 0) by (nonlinear_arith)
                    requires
                        variant_count(decls) == decls[0].arms.len() * variant_count(
                            decls.skip(1),
                        ),
                        variant_count(decls.skip(1)) == 0,
                ;
            }
        }
        lemma_count_positive(decls.skip(1), d - 1);
        assert(decls.skip(1).skip(d - 1) =~= decls.skip(d));
        if d < decls.len() {
            assert(decls.skip(1)[d - 1] == decls[d]);
        }
    }
}

/// The product splits at declaration `d` into the product of the earlier
/// counts, the count of `d`, and the product of the later counts.
proof fn lemma_count_split(decls: Seq<SpecCompileTimeBinding>, d: int)
    requires
        0 <= d < decls.len(),
    ensures
        variant_count(decls) == variant_count(decls.take(d)) * (decls[d].arms.len()
            * variant_count(decls.skip(d + 1))),
    decreases d,
{
    if d == 0 {
        assert(decls.take(0) =~= Seq::<SpecCompileTimeBinding>::empty());
        assert(variant_count(decls) == 1 * (decls[0].arms.len() * variant_count(decls.skip(1))))
            by (nonlinear_arith)
            requires
                variant_count(decls) == decls[0].arms.len() * variant_count(decls.skip(1)),
        ;
    } else {
        lemma_count_split(decls.skip(1), d - 1);
        assert(decls.skip(1).take(d - 1) =~= decls.take(d).skip(1));
        assert(decls.skip(1)[d - 1] == decls[d]);
        assert(decls.skip(1).skip(d) =~= decls.skip(d + 1));
        assert(decls.take(d)[0] == decls[0]);
        let a0 = decls[0].arms.len() as int;
        let p = variant_count(decls.take(d).skip(1)) as int;
        let m = decls[d].arms.len() as int;
        let k = variant_count(decls.skip(d + 1)) as int;
        assert(variant_count(decls) == a0 * (p * (m * k)));
        assert(variant_count(decls.take(d)) == a0 * p);
        assert(a0 * (p * (m * k)) == (a0 * p) * (m * k)) by (nonlinear_arith);
    }
}

proof fn lemma_product_index(decls: Seq<SpecCompileTimeBinding>, i: int, d: int)
    requires
        decls.len() > 0,
        0 <= i < arms_product(decl_arms_lists(decls)).len(),
        0 <= d < decls.len(),
    ensures
        arms_product(decl_arms_lists(decls))[i].patterns.len() == decls.len(),
        0 <= selected_arm(decls, i, d) < decls[d].arms.len(),
        arms_product(decl_arms_lists(decls))[i].patterns[d] == decls[d].arms[selected_arm(
            decls,
            i,
            d,
        )].pattern,
    decreases d,
{
    let ls = decl_arms_lists(decls);
    let rest = arms_product(ls.skip(1));
    lemma_product_len(decls);
    assert(ls.skip(1) =~= decl_arms_lists(decls.skip(1)));
    lemma_product_len(decls.skip(1));
    let w = variant_count(decls.skip(1)) as int;
    lemma_count_positive(decls, decls.len() as int);
    assert(variant_count(decls.skip(0)) > 0) by {
        lemma_count_positive(decls, 0);
    }
    assert(variant_count(decls) > 0);
    lemma_count_positive(decls, 1);
    assert(rest.len() == w && w > 0);
    lemma_cross_index(ls[0], rest, i);
    let q = i / w;
    let r = i % w;
    assert(arms_product(ls)[i] == prepend_one(ls[0][q], rest[r]));

    // Arity: one pattern for this declaration plus one per later declaration.
    lemma_product_arity(decls.skip(1), r);
    assert(arms_product(ls)[i].patterns.len() == decls.len());

    if d == 0 {
        assert(selected_arm(decls, i, 0) == (i / w) % decls[0].arms.len() as int) by {
            assert(decls.skip(1) =~= decls.skip(0int + 1));
        }
        assert(q < decls[0].arms.len());
        vstd::arithmetic::div_mod::lemma_small_mod(q as nat, decls[0].arms.len());
        assert(arms_product(ls)[i].patterns[0] == ls[0][q].pattern);
        assert(ls[0][q] == decls[0].arms[q]);
    } else {
        lemma_product_index(decls.skip(1), r, d - 1);
        assert(arms_product(ls)[i].patterns[d] == rest[r].patterns[d - 1]);
        assert(decls.skip(1)[d - 1] == decls[d]);
        // The selected index is the same whether computed from the whole
        // product or from the remainder within the later declarations.
        let k = variant_count(decls.skip(1).skip(d)) as int;
        assert(decls.skip(1).skip(d) =~= decls.skip(d + 1));
        let m = decls[d].arms.len() as int;
        lemma_count_split(decls.skip(1), d - 1);
        let c = variant_count(decls.skip(1).take(d - 1)) as int;
        assert(w == c * (m * k));
        assert(m > 0 && k > 0 && c > 0) by {
            lemma_count_positive(decls, d + 1);
            lemma_count_positive(decls, d);
            assert(decls.skip(d)[0] == decls[d]);
            assert(variant_count(decls.skip(d)) == m as nat * variant_count(decls.skip(d + 1)))
                by {
                assert(decls.skip(d).skip(1) =~= decls.skip(d + 1));
            }
            if c <= 0 {
                assert(w == 0) by (nonlinear_arith)
                    requires
                        w == c * (m * k),
                        c == 0,
                ;
            }
        }
        assert(w == k * (m * c)) by (nonlinear_arith)
            requires
                w == c * (m * k),
        ;
        assert((i % w) / k == (i / k) % (m * c)) by {
            vstd::arithmetic::div_mod::lemma_breakdown(i, k, m * c);
            assert(i % (k * (m * c)) == k * ((i / k) % (m * c)) + i % k);
            vstd::arithmetic::div_mod::lemma_div_multiples_vanish_fancy(
                (i / k) % (m * c),
                i % k,
                k,
            );
            assert(0 <= i % k < k) by {
                vstd::arithmetic::div_mod::lemma_mod_division_less_than_divisor(i, k);
            }
        }
        assert(((i / k) % (m * c)) % m == (i / k) % m) by {
            vstd::arithmetic::div_mod::lemma_mod_mod(i / k, m, c);
        }
        assert(selected_arm(decls.skip(1), r, d - 1) == (r / k) % m) by {
            assert(decls.skip(1).skip(d - 1 + 1) =~= decls.skip(d + 1));
        }
        assert(selected_arm(decls, i, d) == (i / k) % m) by {
            assert(variant_count(decls.skip(d + 1)) as int == k);
        }
        assert((r / k) % m == (i / k) % m);
    }
}

/// Every variant of the product carries exactly one pattern per declaration.
proof fn lemma_product_arity(decls: Seq<SpecCompileTimeBinding>, i: int)
    requires
        0 <= i < arms_product(decl_arms_lists(decls)).len(),
    ensures
        arms_product(decl_arms_lists(decls))[i].patterns.len() == decls.len(),
    decreases decls.len(),
{
    let ls = decl_arms_lists(decls);
    if decls.len() == 0 {
        assert(ls =~= Seq::<Seq<SpecAnalyzedArm>>::empty());
    } else {
        assert(ls.skip(1) =~= decl_arms_lists(decls.skip(1)));
        let rest = arms_product(ls.skip(1));
        lemma_cross_len(ls[0], rest);
        assert(rest.len() > 0) by {
            if rest.len() == 0 {
                assert(ls[0].len() * rest.len() == 0) by (nonlinear_arith)
                    requires rest.len() == 0;
            }
        }
        lemma_cross_index(ls[0], rest, i);
        lemma_product_arity(decls.skip(1), i % rest.len() as int);
    }
}

/// Order-correspondence law: the lowered variants enumerate the declarations'
/// arms lexicographically, the first declaration varying slowest. Variant `i`
/// carries one pattern per declaration, in declaration order: at position `d`
/// it holds the pattern of arm `selected_arm(decls, i, d)` of declaration `d`,
/// while the branch expression at the same position is that declaration's
/// expression, so patterns and expressions stay positionally aligned.
pub proof fn lemma_variant_order(a: SpecAnalyzedConditionalQueryAs, i: int, d: int)
    requires
        a.compile_time_bindings.len() > 0,
        0 <= i < spec_lower(a).match_arms.len(),
        0 <= d < a.compile_time_bindings.len(),
    ensures
        spec_lower(a).match_expressions.len() == a.compile_time_bindings.len(),
        spec_lower(a).match_expressions[d] == a.compile_time_bindings[d].expression,
        spec_lower(a).match_arms[i].patterns.len() == a.compile_time_bindings.len(),
        0 <= selected_arm(a.compile_time_bindings, i, d) < a.compile_time_bindings[d].arms.len(),
        spec_lower(a).match_arms[i].patterns[d] == a.compile_time_bindings[d].arms[selected_arm(
            a.compile_time_bindings,
            i,
            d,
        )].pattern,
{
    lemma_product_index(a.compile_time_bindings, i, d);
}

} // verus!
