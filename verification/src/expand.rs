//! The template expander. For each lowered variant the template text is
//! resolved in two ordered passes: compile-time substitution repeated to a
//! fixed point (no `{#name}` reference left), then run-time placeholder
//! resolution with dialect-specific positional indexing.
//!
//! A binding value may itself contain further `{#...}` references, which is
//! why the first pass repeats. Every pass resolves one level of nesting, and a
//! reference chain without cycles can nest at most as deep as the table has
//! entries, so one pass more than that always reaches the fixed point; a
//! template that still contains `{#` after that many passes can only contain a
//! self-referential binding chain and is rejected.

use vstd::prelude::*;

use crate::text::clone_text;
use crate::DatabaseType;
use crate::text::find_char_from;
use crate::text::first_index_of;
use crate::text::lemma_first_index_of;
use crate::text::subvec;
use crate::text::append_texts;
use crate::text::text_eq;

verus! {

broadcast use crate::text::lemma_text_deep_view;

// ---------------------------------------------------------------------------
// Errors
// ---------------------------------------------------------------------------

/// Model of an expansion failure. The offset is the index of the offending
/// `{` within the fragment being scanned when the failure was found.
#[verifier::ext_equal]
pub enum SpecExpandError {
    MissingCompileTimeBinding { name: Seq<char>, offset: nat },
    MissingBindingClosingBrace { offset: nat },
    BindingReferenceTypeOverrideParseError { text: Seq<char>, offset: nat },
    CyclicCompileTimeBindings,
}

/// An expansion failure. The offset locates the offending `{` within the
/// fragment that was being scanned when the failure was found.
#[derive(Debug)]
pub enum ExpandError {
    /// `{#name}` references a name that no declaration binds.
    MissingCompileTimeBinding(Vec<char>, usize),
    /// A `{` with no matching `}`.
    MissingBindingClosingBrace(usize),
    /// The `:Type` annotation of a run-time binding was rejected by the
    /// lexing call made for it.
    BindingReferenceTypeOverrideParseError(Vec<char>, usize),
    /// A compile-time binding value refers back to a name expanded along the
    /// same path, so substitution would never reach a fixed point.
    CyclicCompileTimeBindings,
}

impl DeepView for ExpandError {
    type V = SpecExpandError;

    open spec fn deep_view(&self) -> SpecExpandError {
        match self {
            ExpandError::MissingCompileTimeBinding(name, offset) => {
                SpecExpandError::MissingCompileTimeBinding { name: name@, offset: *offset as nat }
            },
            ExpandError::MissingBindingClosingBrace(offset) => {
                SpecExpandError::MissingBindingClosingBrace { offset: *offset as nat }
            },
            ExpandError::BindingReferenceTypeOverrideParseError(text, offset) => {
                SpecExpandError::BindingReferenceTypeOverrideParseError {
                    text: text@,
                    offset: *offset as nat,
                }
            },
            ExpandError::CyclicCompileTimeBindings => SpecExpandError::CyclicCompileTimeBindings,
        }
    }
}

// ---------------------------------------------------------------------------
// Pass A: compile-time substitution
// ---------------------------------------------------------------------------

/// First value bound to `name` in the table, if any.
pub open spec fn spec_lookup(tbl: Seq<(Seq<char>, Seq<char>)>, name: Seq<char>) -> Option<Seq<char>>
    decreases tbl.len(),
{
    if tbl.len() == 0 {
        None
    } else if tbl[0].0 == name {
        Some(tbl[0].1)
    } else {
        spec_lookup(tbl.skip(1), name)
    }
}

/// The fragment still contains a `{#` compile-time reference marker.
pub open spec fn has_ct_marker(s: Seq<char>) -> bool {
    exists|p: int| 0 <= p && p + 1 < s.len() && (#[trigger] s[p]) == '{' && s[p + 1] == '#'
}

/// Some fragment of the list still contains a `{#` marker.
pub open spec fn any_ct_marker(fs: Seq<Seq<char>>) -> bool {
    exists|k: int| 0 <= k < fs.len() && has_ct_marker(#[trigger] fs[k])
}

/// One compile-time scan of a single fragment: splits it at placeholder
/// boundaries, leaves `{{` escapes and `{name}` run-time references untouched
/// for the next pass, and splices in the bound value of each `{#name}`.
/// `base` is the offset of `s` within the fragment being scanned; error
/// offsets are relative to that fragment.
pub open spec fn scan_ct_fragment(s: Seq<char>, tbl: Seq<(Seq<char>, Seq<char>)>, base: nat)
    -> Result<Seq<Seq<char>>, SpecExpandError>
    decreases s.len(),
    via scan_ct_fragment_decreases
{
    let p = first_index_of(s, '{');
    if p < 0 {
        Ok(if s.len() == 0 {
            seq![]
        } else {
            seq![s]
        })
    } else if p + 1 < s.len() && s[p + 1] == '{' {
        match scan_ct_fragment(s.skip(p + 2), tbl, (base + p + 2) as nat) {
            Ok(rest) => Ok(seq![s.take(p + 2)] + rest),
            Err(e) => Err(e),
        }
    } else {
        let rest = s.skip(p);
        let e = first_index_of(rest, '}');
        if e < 0 {
            Err(SpecExpandError::MissingBindingClosingBrace { offset: (base + p) as nat })
        } else {
            let pre: Seq<Seq<char>> = if p > 0 {
                seq![s.take(p)]
            } else {
                seq![]
            };
            if p + 1 < s.len() && s[p + 1] == '#' {
                let name = rest.subrange(2, e);
                match spec_lookup(tbl, name) {
                    Some(v) => match scan_ct_fragment(
                        rest.skip(e + 1),
                        tbl,
                        (base + p + e + 1) as nat,
                    ) {
                        Ok(out) => Ok(pre + seq![v] + out),
                        Err(er) => Err(er),
                    },
                    None => Err(
                        SpecExpandError::MissingCompileTimeBinding {
                            name,
                            offset: (base + p) as nat,
                        },
                    ),
                }
            } else {
                match scan_ct_fragment(rest.skip(e + 1), tbl, (base + p + e + 1) as nat) {
                    Ok(out) => Ok(pre + seq![rest.take(e + 1)] + out),
                    Err(er) => Err(er),
                }
            }
        }
    }
}

#[via_fn]
proof fn scan_ct_fragment_decreases(s: Seq<char>, tbl: Seq<(Seq<char>, Seq<char>)>, base: nat) {
    lemma_first_index_of(s, '{');
    let p = first_index_of(s, '{');
    if p >= 0 {
        let rest = s.skip(p);
        lemma_first_index_of(rest, '}');
        let e = first_index_of(rest, '}');
        if e >= 0 {
            assert(rest[0] == s[p]);
            assert(e >= 1);
        }
    }
}

/// One compile-time scan of a whole fragment list, concatenating the results.
pub open spec fn scan_ct_fragments(fs: Seq<Seq<char>>, tbl: Seq<(Seq<char>, Seq<char>)>) -> Result<
    Seq<Seq<char>>,
    SpecExpandError,
>
    decreases fs.len(),
{
    if fs.len() == 0 {
        Ok(seq![])
    } else {
        match scan_ct_fragment(fs[0], tbl, 0) {
            Err(e) => Err(e),
            Ok(out0) => match scan_ct_fragments(fs.skip(1), tbl) {
                Ok(rest) => Ok(out0 + rest),
                Err(e) => Err(e),
            },
        }
    }
}

/// `k` compile-time scans in sequence.
pub open spec fn scan_ct_steps(fs: Seq<Seq<char>>, tbl: Seq<(Seq<char>, Seq<char>)>, k: nat)
    -> Result<Seq<Seq<char>>, SpecExpandError>
    decreases k,
{
    if k == 0 {
        Ok(fs)
    } else {
        match scan_ct_fragments(fs, tbl) {
            Ok(o) => scan_ct_steps(o, tbl, (k - 1) as nat),
            Err(e) => Err(e),
        }
    }
}

/// First value bound to `name`, if any.
#[verifier::loop_isolation(false)]
fn lookup_binding(tbl: &Vec<(Vec<char>, Vec<char>)>, name: &Vec<char>) -> (r: Option<Vec<char>>)
    ensures
        match r {
            Some(v) => spec_lookup(tbl.deep_view(), name@) == Some(v@),
            None => spec_lookup(tbl.deep_view(), name@) is None,
        },
{
    let ghost tdv = tbl.deep_view();
    let mut i: usize = 0;
    proof {
        assert(tdv.skip(0) =~= tdv);
    }
    while i < tbl.len()
        invariant
            i <= tbl@.len(),
            spec_lookup(tdv, name@) == spec_lookup(tdv.skip(i as int), name@),
        decreases tbl@.len() - i,
    {
        proof {
            assert(tdv.skip(i as int)[0] == tdv[i as int]);
            assert(tdv.skip(i as int).skip(1) =~= tdv.skip(i + 1));
        }
        if text_eq(&tbl[i].0, name) {
            return Some(clone_text(&tbl[i].1));
        }
        i = i + 1;
    }
    None
}

/// The fragment still contains a `{#` marker.
#[verifier::loop_isolation(false)]
fn contains_ct_marker(v: &Vec<char>) -> (r: bool)
    ensures
        r == has_ct_marker(v@),
{
    if v.len() < 2 {
        return false;
    }
    let mut i: usize = 0;
    while i + 1 < v.len()
        invariant
            i + 1 <= v@.len(),
            forall|j: int| 0 <= j < i ==> !((#[trigger] v@[j]) == '{' && v@[j + 1] == '#'),
        decreases v@.len() - i,
    {
        if v[i] == '{' && v[i + 1] == '#' {
            return true;
        }
        i = i + 1;
    }
    false
}

/// Some fragment of the list still contains a `{#` marker.
#[verifier::loop_isolation(false)]
fn any_marker(fs: &Vec<Vec<char>>) -> (r: bool)
    ensures
        r == any_ct_marker(fs.deep_view()),
{
    let mut i: usize = 0;
    while i < fs.len()
        invariant
            i <= fs@.len(),
            forall|j: int| 0 <= j < i ==> !has_ct_marker(fs.deep_view()[j]),
        decreases fs@.len() - i,
    {
        if contains_ct_marker(&fs[i]) {
            proof {
                assert(has_ct_marker(fs.deep_view()[i as int]));
            }
            return true;
        }
        i = i + 1;
    }
    false
}

/// Appends one fragment, keeping the deep view in step.
fn push_fragment(out: &mut Vec<Vec<char>>, f: Vec<char>)
    ensures
        final(out).deep_view() == old(out).deep_view() + seq![f@],
{
    let ghost pre = out.deep_view();
    let ghost fv = f@;
    out.push(f);
    proof {
        assert forall|kk: int| 0 <= kk < pre.len() implies #[trigger] out.deep_view()[kk]
            == pre[kk] by {
            assert(out.deep_view()[kk] == out@[kk].deep_view());
        }
        assert(out.deep_view() =~= pre + seq![fv]);
    }
}

/// Scans one fragment, appending the produced fragments to `out`.
#[verifier::loop_isolation(false)]
#[verifier::rlimit(100)]
fn scan_fragment_ct(
    fragment: &Vec<char>,
    tbl: &Vec<(Vec<char>, Vec<char>)>,
    out: &mut Vec<Vec<char>>,
) -> (r: Result<(), ExpandError>)
    ensures
        match r {
            Ok(_) => {
                &&& scan_ct_fragment(fragment@, tbl.deep_view(), 0) matches Ok(fs)
                &&& final(out).deep_view() == old(out).deep_view() + (scan_ct_fragment(
                    fragment@,
                    tbl.deep_view(),
                    0,
                )->Ok_0)
            },
            Err(e) => scan_ct_fragment(fragment@, tbl.deep_view(), 0) == Err::<Seq<Seq<char>>, _>(
                e.deep_view(),
            ),
        },
{
    let ghost s = fragment@;
    let ghost tdv = tbl.deep_view();
    let ghost out0 = out.deep_view();
    let ghost mut acc: Seq<Seq<char>> = seq![];
    let mut pos: usize = 0;
    proof {
        assert(s.skip(0) =~= s);
        assert(out.deep_view() =~= out0 + acc);
    }
    loop
        invariant
            pos <= s.len(),
            s == fragment@,
            tdv == tbl.deep_view(),
            out.deep_view() == out0 + acc,
            match scan_ct_fragment(s.skip(pos as int), tdv, pos as nat) {
                Ok(fs) => scan_ct_fragment(s, tdv, 0) == Ok::<_, SpecExpandError>(acc + fs),
                Err(e) => scan_ct_fragment(s, tdv, 0) == Err::<Seq<Seq<char>>, _>(e),
            },
        decreases s.len() - pos,
    {
        let ghost suf = s.skip(pos as int);
        let ghost acc0 = acc;
        proof {
            lemma_first_index_of(suf, '{');
        }
        match find_char_from(fragment, pos, '{') {
            None => {
                // No further reference: keep the trailing text, if any.
                if pos < fragment.len() {
                    let tail = subvec(fragment, pos, fragment.len());
                    proof {
                        assert(tail@ =~= suf);
                    }
                    push_fragment(out, tail);
                    proof {
                        acc = acc0 + seq![suf];
                        assert(out.deep_view() =~= out0 + acc);
                        assert(scan_ct_fragment(suf, tdv, pos as nat) == Ok::<_, SpecExpandError>(
                            seq![suf],
                        ));
                    }
                } else {
                    proof {
                        assert(suf.len() == 0);
                        assert(scan_ct_fragment(suf, tdv, pos as nat) == Ok::<_, SpecExpandError>(
                            Seq::<Seq<char>>::empty(),
                        ));
                        assert(acc + Seq::<Seq<char>>::empty() =~= acc);
                    }
                }
                return Ok(());
            },
            Some(p_rel) => {
                proof {
                    assert(0 <= (p_rel as int) < suf.len());
                    assert(suf.len() == s.len() - pos);
                    assert(s.len() == fragment.len());
                }
                let p = pos + p_rel;
                proof {
                    assert(suf[p_rel as int] == s[p as int]);
                }
                if p + 1 < fragment.len() && fragment[p + 1] == '{' {
                    // Escaped brace: keep it untouched for the next pass.
                    let chunk = subvec(fragment, pos, p + 2);
                    proof {
                        assert(suf[p_rel + 1] == s[p + 1]);
                        assert(chunk@ =~= suf.take(p_rel + 2));
                    }
                    push_fragment(out, chunk);
                    proof {
                        let c = suf.take(p_rel + 2);
                        let step = scan_ct_fragment(suf.skip(p_rel + 2), tdv, (pos + p_rel + 2) as nat);
                        assert(suf.skip(p_rel + 2) =~= s.skip(pos + p_rel + 2));
                        acc = acc0 + seq![c];
                        assert(out.deep_view() =~= out0 + acc);
                        if step is Ok {
                            assert(acc0 + (seq![c] + (step->Ok_0)) =~= (acc0 + seq![c]) + (
                            step->Ok_0));
                        }
                    }
                    pos = p + 2;
                } else {
                    let ghost rest = suf.skip(p_rel as int);
                    proof {
                        lemma_first_index_of(rest, '}');
                        assert(rest =~= s.skip(p as int));
                    }
                    match find_char_from(fragment, p, '}') {
                        None => {
                            return Err(ExpandError::MissingBindingClosingBrace(p));
                        },
                        Some(e_rel) => {
                            proof {
                                assert(0 <= (e_rel as int) < rest.len());
                                assert(rest.len() == s.len() - p);
                            }
                            let e = p + e_rel;
                            proof {
                                assert(rest[e_rel as int] == s[e as int]);
                                assert(rest[0] == s[p as int]);
                                assert(e_rel >= 1);
                            }
                            let ghost pre: Seq<Seq<char>> = if p_rel > 0 {
                                seq![suf.take(p_rel as int)]
                            } else {
                                seq![]
                            };
                            if p > pos {
                                let prefix = subvec(fragment, pos, p);
                                proof {
                                    assert(prefix@ =~= suf.take(p_rel as int));
                                }
                                push_fragment(out, prefix);
                                proof {
                                    acc = acc0 + pre;
                                    assert(out.deep_view() =~= out0 + acc);
                                }
                            } else {
                                proof {
                                    acc = acc0 + pre;
                                    assert(out.deep_view() =~= out0 + acc);
                                }
                            }
                            if p + 1 < fragment.len() && fragment[p + 1] == '#' {
                                proof {
                                    assert(suf[p_rel + 1] == s[p + 1]);
                                }
                                let name = subvec(fragment, p + 2, e);
                                proof {
                                    assert(name@ =~= rest.subrange(2, e_rel as int));
                                }
                                match lookup_binding(tbl, &name) {
                                    Some(v) => {
                                        push_fragment(out, v);
                                        proof {
                                            let step = scan_ct_fragment(
                                                rest.skip(e_rel + 1),
                                                tdv,
                                                (pos + p_rel + e_rel + 1) as nat,
                                            );
                                            assert(rest.skip(e_rel + 1) =~= s.skip(p + e_rel + 1));
                                            let vv = spec_lookup(tdv, name@)->Some_0;
                                            assert(v@ == vv);
                                            acc = acc0 + pre + seq![vv];
                                            assert(out.deep_view() =~= out0 + acc);
                                            if step is Ok {
                                                assert(acc0 + ((pre + seq![vv]) + (step->Ok_0))
                                                    =~= ((acc0 + pre) + seq![vv]) + (step->Ok_0));
                                            }
                                        }
                                        pos = e + 1;
                                    },
                                    None => {
                                        return Err(ExpandError::MissingCompileTimeBinding(name, p));
                                    },
                                }
                            } else {
                                let chunk = subvec(fragment, p, e + 1);
                                proof {
                                    assert(chunk@ =~= rest.take(e_rel + 1));
                                }
                                push_fragment(out, chunk);
                                proof {
                                    let c = rest.take(e_rel + 1);
                                    let step = scan_ct_fragment(
                                        rest.skip(e_rel + 1),
                                        tdv,
                                        (pos + p_rel + e_rel + 1) as nat,
                                    );
                                    acc = acc0 + pre + seq![c];
                                    assert(out.deep_view() =~= out0 + acc);
                                    assert(rest.skip(e_rel + 1) =~= s.skip(p + e_rel + 1));
                                    if step is Ok {
                                        assert(acc0 + ((pre + seq![c]) + (step->Ok_0)) =~= ((acc0
                                            + pre) + seq![c]) + (step->Ok_0));
                                    }
                                }
                                pos = e + 1;
                            }
                        },
                    }
                }
            },
        }
    }
}

/// One compile-time substitution pass over a fragment list: the first `{#name}`
/// occurrence of each fragment (and every later one, fragment by fragment) is
/// replaced by the value bound to `name` in the variant's table; `{{` escapes
/// and `{name}` run-time references pass through untouched. Fails when a
/// referenced name has no binding or a `{` has no matching `}`.
#[verifier::loop_isolation(false)]
pub fn expand_compile_time_bindings(
    fragments: &Vec<Vec<char>>,
    compile_time_bindings: &Vec<(Vec<char>, Vec<char>)>,
) -> (r: Result<Vec<Vec<char>>, ExpandError>)
    ensures
        match r {
            Ok(out) => scan_ct_fragments(fragments.deep_view(), compile_time_bindings.deep_view())
                == Ok::<_, SpecExpandError>(out.deep_view()),
            Err(e) => scan_ct_fragments(fragments.deep_view(), compile_time_bindings.deep_view())
                == Err::<Seq<Seq<char>>, _>(e.deep_view()),
        },
{
    let ghost fdv = fragments.deep_view();
    let ghost tdv = compile_time_bindings.deep_view();
    let mut out: Vec<Vec<char>> = Vec::new();
    let mut i: usize = 0;
    proof {
        assert(fdv.skip(0) =~= fdv);
    }
    while i < fragments.len()
        invariant
            i <= fragments@.len(),
            match scan_ct_fragments(fdv.skip(i as int), tdv) {
                Ok(rest) => scan_ct_fragments(fdv, tdv) == Ok::<_, SpecExpandError>(
                    out.deep_view() + rest,
                ),
                Err(e) => scan_ct_fragments(fdv, tdv) == Err::<Seq<Seq<char>>, _>(e),
            },
        decreases fragments@.len() - i,
    {
        proof {
            assert(fdv.skip(i as int)[0] == fdv[i as int]);
            assert(fdv.skip(i as int).skip(1) =~= fdv.skip(i + 1));
        }
        let ghost before = out.deep_view();
        match scan_fragment_ct(&fragments[i], compile_time_bindings, &mut out) {
            Ok(_) => {
                proof {
                    let fs = scan_ct_fragment(fdv[i as int], tdv, 0)->Ok_0;
                    if scan_ct_fragments(fdv.skip(i + 1), tdv) is Ok {
                        let rest = scan_ct_fragments(fdv.skip(i + 1), tdv)->Ok_0;
                        assert((before + fs) + rest =~= before + (fs + rest));
                    }
                }
            },
            Err(e) => {
                return Err(e);
            },
        }
        i = i + 1;
    }
    proof {
        assert(fdv.skip(i as int).len() == 0);
        assert(out.deep_view() + Seq::<Seq<char>>::empty() =~= out.deep_view());
    }
    Ok(out)
}

/// Repeats the compile-time pass until no fragment contains `{#` any more.
/// Each pass resolves one level of reference nesting, and without a cycle a
/// chain is at most as deep as the table has entries, so after one pass more
/// than that only a self-referential binding chain can be left: it is
/// rejected.
#[verifier::loop_isolation(false)]
fn expand_to_fixed_point(query: &Vec<char>, tbl: &Vec<(Vec<char>, Vec<char>)>) -> (r: Result<
    Vec<Vec<char>>,
    ExpandError,
>)
    ensures
        match r {
            Ok(out) => reaches_fixed_point(query@, tbl.deep_view(), out.deep_view()),
            Err(e) => ct_expansion_err(query@, tbl.deep_view(), e.deep_view()),
        },
{
    let ghost tdv = tbl.deep_view();
    let ghost q0: Seq<Seq<char>> = seq![query@];
    let mut fragments: Vec<Vec<char>> = Vec::new();
    fragments.push(clone_text(query));
    let ghost mut k: nat = 0;
    let mut pass: usize = 0;
    proof {
        assert(fragments.deep_view() =~= q0);
        assert(scan_ct_steps(q0, tdv, 0) == Ok::<_, SpecExpandError>(q0));
    }
    loop
        invariant
            pass <= tbl@.len(),
            k == pass,
            tdv == tbl.deep_view(),
            scan_ct_steps(q0, tdv, k) == Ok::<_, SpecExpandError>(fragments.deep_view()),
        decreases tbl@.len() - pass,
    {
        if !any_marker(&fragments) {
            proof {
                assert(scan_ct_steps(seq![query@], tdv, k) == Ok::<_, SpecExpandError>(
                    fragments.deep_view(),
                ));
            }
            return Ok(fragments);
        }
        match expand_compile_time_bindings(&fragments, tbl) {
            Ok(f) => {
                proof {
                    lemma_steps_snoc(q0, tdv, k);
                    k = k + 1;
                }
                fragments = f;
            },
            Err(e) => {
                proof {
                    assert(scan_ct_steps(seq![query@], tdv, k) == Ok::<_, SpecExpandError>(
                        fragments.deep_view(),
                    ));
                    assert(any_ct_marker(fragments.deep_view()));
                    assert(k <= tdv.len());
                }
                return Err(e);
            },
        }
        if pass == tbl.len() {
            // One scan per table entry plus one have all succeeded.
            if !any_marker(&fragments) {
                proof {
                    assert(scan_ct_steps(seq![query@], tdv, k) == Ok::<_, SpecExpandError>(
                        fragments.deep_view(),
                    ));
                }
                return Ok(fragments);
            }
            proof {
                assert(k == tdv.len() + 1);
                assert(scan_ct_steps(seq![query@], tdv, k) == Ok::<_, SpecExpandError>(
                    fragments.deep_view(),
                ));
                assert(any_ct_marker(fragments.deep_view()));
            }
            return Err(ExpandError::CyclicCompileTimeBindings);
        }
        pass = pass + 1;
    }
}


/// Appending one more scan to `k` successful scans.
proof fn lemma_steps_snoc(fs: Seq<Seq<char>>, tbl: Seq<(Seq<char>, Seq<char>)>, k: nat)
    requires
        scan_ct_steps(fs, tbl, k) is Ok,
    ensures
        scan_ct_steps(fs, tbl, k + 1) == (match scan_ct_fragments(
            scan_ct_steps(fs, tbl, k)->Ok_0,
            tbl,
        ) {
            Ok(o) => Ok::<_, SpecExpandError>(o),
            Err(e) => Err(e),
        }),
    decreases k,
{
    if k == 0 {
        let o = scan_ct_fragments(fs, tbl);
        if o is Ok {
            assert(scan_ct_steps(o->Ok_0, tbl, 0) == Ok::<_, SpecExpandError>(o->Ok_0));
        }
    } else {
        let o = scan_ct_fragments(fs, tbl)->Ok_0;
        lemma_steps_snoc(o, tbl, (k - 1) as nat);
        assert(scan_ct_steps(fs, tbl, k + 1) == scan_ct_steps(o, tbl, k)) by {
            assert(((k + 1) - 1) as nat == k);
        }
    }
}


// ---------------------------------------------------------------------------
// Pass B: run-time placeholder resolution
// ---------------------------------------------------------------------------

/// Whether a character has the Unicode White_Space property.
pub uninterp spec fn is_unicode_whitespace(c: char) -> bool;

/// Relies on char::is_whitespace of std: true exactly for the characters with
/// the White_Space property, a fixed set depending on the character alone.
#[verifier::external_body]
fn char_is_whitespace(c: char) -> (r: bool)
    ensures
        r == is_unicode_whitespace(c),
{
    c.is_whitespace()
}

/// Relies on proc_macro2::TokenStream's str::parse (FromStr) only to return
/// some decision. Which texts it accepts is deliberately left open: with a
/// compiler's proc-macro bridge active, the host compiler's lexer also
/// decides, and the acceptance set can differ between a test process and a
/// macro expansion (and can even change within one process). Each decision is
/// therefore recorded by the caller, and the run-time pass is specified
/// against the recorded decisions.
#[verifier::external_body]
fn lex_type_override(text: &Vec<char>) -> bool {
    let s: String = text.iter().collect();
    s.parse::<proc_macro2::TokenStream>().is_ok()
}

/// The decision recorded for the `n`-th type-override lexing call of one
/// scan; `false` outside the record.
pub open spec fn lex_decision(lex: Seq<bool>, n: nat) -> bool {
    n < lex.len() && lex[n as int]
}

/// The decisions `used` agree with the record `lex` starting at index `n0`.
pub open spec fn decisions_match(lex: Seq<bool>, n0: nat, used: Seq<bool>) -> bool {
    forall|j: int| 0 <= j < used.len() ==> lex_decision(lex, (n0 + j) as nat) == used[j]
}

/// `s` without leading whitespace.
pub open spec fn trim_start_spec(s: Seq<char>) -> Seq<char>
    decreases s.len(),
{
    if s.len() > 0 && is_unicode_whitespace(s[0]) {
        trim_start_spec(s.skip(1))
    } else {
        s
    }
}

/// `s` without trailing whitespace.
pub open spec fn trim_end_spec(s: Seq<char>) -> Seq<char>
    decreases s.len(),
{
    if s.len() > 0 && is_unicode_whitespace(s.last()) {
        trim_end_spec(s.drop_last())
    } else {
        s
    }
}

/// `s` without leading and trailing whitespace.
pub open spec fn trim_spec(s: Seq<char>) -> Seq<char> {
    trim_end_spec(trim_start_spec(s))
}

proof fn lemma_trim_start(s: Seq<char>, a: int)
    requires
        0 <= a <= s.len(),
        forall|j: int| 0 <= j < a ==> is_unicode_whitespace(s[j]),
        a < s.len() ==> !is_unicode_whitespace(s[a]),
    ensures
        trim_start_spec(s) == s.skip(a),
    decreases a,
{
    if a == 0 {
        assert(s.skip(0) =~= s);
    } else {
        lemma_trim_start(s.skip(1), a - 1);
        assert(s.skip(1).skip(a - 1) =~= s.skip(a));
    }
}

proof fn lemma_trim_end(s: Seq<char>, b: int)
    requires
        0 <= b <= s.len(),
        forall|j: int| b <= j < s.len() ==> is_unicode_whitespace(s[j]),
        b > 0 ==> !is_unicode_whitespace(s[b - 1]),
    ensures
        trim_end_spec(s) == s.take(b),
    decreases s.len(),
{
    if s.len() > b {
        assert(is_unicode_whitespace(s.last()));
        lemma_trim_end(s.drop_last(), b);
        assert(s.drop_last().take(b) =~= s.take(b));
    } else {
        assert(s.take(b) =~= s);
        if s.len() > 0 {
            assert(!is_unicode_whitespace(s.last()));
        }
    }
}

/// Copy of `v` without leading and trailing whitespace.
#[verifier::loop_isolation(false)]
fn trim_text(v: &Vec<char>) -> (r: Vec<char>)
    ensures
        r@ == trim_spec(v@),
{
    let n = v.len();
    let mut a: usize = 0;
    while a < n && char_is_whitespace(v[a])
        invariant
            a <= n,
            forall|j: int| 0 <= j < a ==> is_unicode_whitespace(v@[j]),
        decreases n - a,
    {
        a = a + 1;
    }
    proof {
        lemma_trim_start(v@, a as int);
    }
    if a == n {
        let r: Vec<char> = Vec::new();
        proof {
            assert(trim_start_spec(v@).len() == 0);
            assert(trim_end_spec(trim_start_spec(v@)) =~= r@);
        }
        return r;
    }
    let mut b: usize = n;
    while b > a + 1 && char_is_whitespace(v[b - 1])
        invariant
            a < b <= n,
            forall|j: int| b <= j < n ==> is_unicode_whitespace(v@[j]),
        decreases b,
    {
        b = b - 1;
    }
    // The loop stops either on a non-whitespace character or at `a + 1`,
    // where `v[a]` is known not to be whitespace.
    if char_is_whitespace(v[b - 1]) {
        proof {
            assert(b == a + 1);
            assert(!is_unicode_whitespace(v@[a as int]));
            assert(false);
        }
    }
    let r = subvec(v, a, b);
    proof {
        let t = trim_start_spec(v@);
        assert(t == v@.skip(a as int));
        lemma_trim_end(t, b - a);
        assert(t[b - a - 1] == v@[b - 1]);
        assert(r@ =~= t.take(b - a));
    }
    r
}

/// The decimal digits of `n`, most significant first.
pub open spec fn spec_dec_digits(n: nat) -> Seq<char>
    decreases n,
{
    if n < 10 {
        seq![spec_digit_char(n)]
    } else {
        spec_dec_digits(n / 10) + seq![spec_digit_char(n % 10)]
    }
}

/// The character of one decimal digit.
pub open spec fn spec_digit_char(d: nat) -> char {
    if d == 0 {
        '0'
    } else if d == 1 {
        '1'
    } else if d == 2 {
        '2'
    } else if d == 3 {
        '3'
    } else if d == 4 {
        '4'
    } else if d == 5 {
        '5'
    } else if d == 6 {
        '6'
    } else if d == 7 {
        '7'
    } else if d == 8 {
        '8'
    } else {
        '9'
    }
}

fn digit_char(d: usize) -> (c: char)
    requires
        d < 10,
    ensures
        c == spec_digit_char(d as nat),
{
    if d == 0 {
        '0'
    } else if d == 1 {
        '1'
    } else if d == 2 {
        '2'
    } else if d == 3 {
        '3'
    } else if d == 4 {
        '4'
    } else if d == 5 {
        '5'
    } else if d == 6 {
        '6'
    } else if d == 7 {
        '7'
    } else if d == 8 {
        '8'
    } else {
        '9'
    }
}

/// Appends the decimal digits of `n`.
fn push_dec_digits(n: usize, out: &mut Vec<char>)
    ensures
        final(out)@ == old(out)@ + spec_dec_digits(n as nat),
    decreases n,
{
    if n < 10 {
        out.push(digit_char(n));
        proof {
            assert(out@ =~= old(out)@ + spec_dec_digits(n as nat));
        }
    } else {
        push_dec_digits(n / 10, out);
        out.push(digit_char(n % 10));
        proof {
            assert(out@ =~= old(out)@ + spec_dec_digits(n as nat));
        }
    }
}

/// Model of one run-time argument: a binding name and its optional type
/// override text (kept verbatim, starting with the `:`).
#[verifier::ext_equal]
pub struct SpecRunTimeBinding {
    pub name: Seq<char>,
    pub type_override: Option<Seq<char>>,
}

/// One run-time argument of a variant: the binding name and, if the first
/// occurrence of the name carried one, the `:Type` override text verbatim
/// (including the colon).
#[derive(Debug)]
pub struct RunTimeBinding {
    pub name: Vec<char>,
    pub type_override: Option<Vec<char>>,
}

impl DeepView for RunTimeBinding {
    type V = SpecRunTimeBinding;

    open spec fn deep_view(&self) -> SpecRunTimeBinding {
        SpecRunTimeBinding {
            name: self.name@,
            type_override: match self.type_override {
                Some(t) => Some(t@),
                None => None,
            },
        }
    }
}

/// Model of the per-variant run-time binding index.
#[verifier::ext_equal]
pub struct SpecRunTimeBindings {
    pub database_type: DatabaseType,
    pub seen: Seq<SpecRunTimeBinding>,
    pub arguments: Seq<SpecRunTimeBinding>,
}

/// The run-time binding index of one variant: which names were seen (with the
/// type override of their first occurrence) and the ordered argument list.
/// Scoped to expanding one variant and consumed by `get_arguments`.
#[derive(Debug)]
pub struct RunTimeBindings {
    pub database_type: DatabaseType,
    pub seen: Vec<RunTimeBinding>,
    pub arguments: Vec<RunTimeBinding>,
}

impl DeepView for RunTimeBindings {
    type V = SpecRunTimeBindings;

    open spec fn deep_view(&self) -> SpecRunTimeBindings {
        SpecRunTimeBindings {
            database_type: self.database_type,
            seen: self.seen.deep_view(),
            arguments: self.arguments.deep_view(),
        }
    }
}

/// Index of the first recorded binding named `name`, or `-1`.
pub open spec fn find_binding(seen: Seq<SpecRunTimeBinding>, name: Seq<char>) -> int
    decreases seen.len(),
{
    if seen.len() == 0 {
        -1
    } else if seen[0].name == name {
        0
    } else {
        let r = find_binding(seen.skip(1), name);
        if r < 0 {
            -1
        } else {
            r + 1
        }
    }
}

/// The empty index for one variant.
pub open spec fn spec_rtb_init(database_type: DatabaseType) -> SpecRunTimeBindings {
    SpecRunTimeBindings { database_type, seen: seq![], arguments: seq![] }
}

/// One placeholder allocation: the new index state and the placeholder text.
///
/// - `PostgreSql` allocates one 1-based index per distinct name, reused
///   verbatim on every later occurrence, and renders `$<index>`.
/// - `MySql` and `Sqlite` render `?` and append one argument per occurrence;
///   a repeated name keeps the type override of its first occurrence.
pub open spec fn spec_alloc(
    st: SpecRunTimeBindings,
    name: Seq<char>,
    ovr: Option<Seq<char>>,
) -> (SpecRunTimeBindings, Seq<char>) {
    let i = find_binding(st.seen, name);
    match st.database_type {
        DatabaseType::PostgreSql => {
            if i >= 0 {
                (st, seq!['$'] + spec_dec_digits((i + 1) as nat))
            } else {
                let b = SpecRunTimeBinding { name, type_override: ovr };
                (
                    SpecRunTimeBindings {
                        database_type: st.database_type,
                        seen: st.seen + seq![b],
                        arguments: st.arguments + seq![b],
                    },
                    seq!['$'] + spec_dec_digits(st.seen.len() + 1),
                )
            }
        },
        DatabaseType::MySql | DatabaseType::Sqlite => {
            if i >= 0 {
                let b = SpecRunTimeBinding { name, type_override: st.seen[i].type_override };
                (
                    SpecRunTimeBindings {
                        database_type: st.database_type,
                        seen: st.seen,
                        arguments: st.arguments + seq![b],
                    },
                    seq!['?'],
                )
            } else {
                let b = SpecRunTimeBinding { name, type_override: ovr };
                (
                    SpecRunTimeBindings {
                        database_type: st.database_type,
                        seen: st.seen + seq![b],
                        arguments: st.arguments + seq![b],
                    },
                    seq!['?'],
                )
            }
        },
    }
}

/// Appends one binding, keeping the deep view in step.
fn push_binding(v: &mut Vec<RunTimeBinding>, b: RunTimeBinding)
    ensures
        final(v).deep_view() == old(v).deep_view() + seq![b.deep_view()],
{
    let ghost pre = v.deep_view();
    let ghost bdv = b.deep_view();
    v.push(b);
    proof {
        assert forall|kk: int| 0 <= kk < pre.len() implies #[trigger] v.deep_view()[kk]
            == pre[kk] by {
            assert(v.deep_view()[kk] == v@[kk].deep_view());
        }
        assert(v.deep_view() =~= pre + seq![bdv]);
    }
}

/// Copy of an optional override text.
fn clone_override(o: &Option<Vec<char>>) -> (r: Option<Vec<char>>)
    ensures
        r.deep_view() == o.deep_view(),
{
    match o {
        Some(t) => Some(clone_text(t)),
        None => None,
    }
}

/// Index of the first recorded binding named `name`.
#[verifier::loop_isolation(false)]
fn find_seen(seen: &Vec<RunTimeBinding>, name: &Vec<char>) -> (r: Option<usize>)
    ensures
        match r {
            Some(i) => i < seen@.len() && find_binding(seen.deep_view(), name@) == i as int,
            None => find_binding(seen.deep_view(), name@) < 0,
        },
{
    let ghost sdv = seen.deep_view();
    let mut i: usize = 0;
    proof {
        assert(sdv.skip(0) =~= sdv);
    }
    while i < seen.len()
        invariant
            i <= seen@.len(),
            find_binding(sdv, name@) == (if find_binding(sdv.skip(i as int), name@) < 0 {
                -1
            } else {
                find_binding(sdv.skip(i as int), name@) + i
            }),
        decreases seen@.len() - i,
    {
        proof {
            assert(sdv.skip(i as int)[0] == sdv[i as int]);
            assert(sdv.skip(i as int).skip(1) =~= sdv.skip(i + 1));
        }
        if text_eq(&seen[i].name, name) {
            return Some(i);
        }
        i = i + 1;
    }
    None
}

impl RunTimeBindings {
    /// A fresh, empty index for one variant.
    pub fn new(database_type: DatabaseType) -> (r: RunTimeBindings)
        ensures
            r.deep_view() == spec_rtb_init(database_type),
    {
        let r = RunTimeBindings { database_type, seen: Vec::new(), arguments: Vec::new() };
        proof {
            assert(r.deep_view().seen =~= Seq::<SpecRunTimeBinding>::empty());
            assert(r.deep_view().arguments =~= Seq::<SpecRunTimeBinding>::empty());
        }
        r
    }

    /// Returns the dialect-appropriate placeholder text for one occurrence of
    /// `binding_name` and records the occurrence in the index.
    pub fn get_binding_string(
        &mut self,
        binding_name: Vec<char>,
        type_override: Option<Vec<char>>,
    ) -> (r: Vec<char>)
        ensures
            final(self).deep_view() == spec_alloc(
                old(self).deep_view(),
                binding_name@,
                type_override.deep_view(),
            ).0,
            r@ == spec_alloc(old(self).deep_view(), binding_name@, type_override.deep_view()).1,
    {
        let ghost st0 = self.deep_view();
        let found = find_seen(&self.seen, &binding_name);
        proof {
            assert(self.seen.len() == self.seen@.len());
        }
        match self.database_type {
            DatabaseType::PostgreSql => {
                match found {
                    Some(i) => {
                        let mut t: Vec<char> = Vec::new();
                        t.push('$');
                        push_dec_digits(i + 1, &mut t);
                        proof {
                            assert(t@ =~= seq!['$'] + spec_dec_digits((i + 1) as nat));
                        }
                        t
                    },
                    None => {
                        let b1 = RunTimeBinding {
                            name: clone_text(&binding_name),
                            type_override: clone_override(&type_override),
                        };
                        let b2 = RunTimeBinding { name: binding_name, type_override };
                        proof {
                            assert(b1.deep_view() == b2.deep_view());
                        }
                        push_binding(&mut self.seen, b1);
                        push_binding(&mut self.arguments, b2);
                        let mut t: Vec<char> = Vec::new();
                        t.push('$');
                        push_dec_digits(self.seen.len(), &mut t);
                        proof {
                            assert(self.seen.deep_view().len() == st0.seen.len() + 1);
                            assert(t@ =~= seq!['$'] + spec_dec_digits(st0.seen.len() + 1));
                        }
                        t
                    },
                }
            },
            DatabaseType::MySql | DatabaseType::Sqlite => {
                match found {
                    Some(i) => {
                        let b = RunTimeBinding {
                            name: binding_name,
                            type_override: clone_override(&self.seen[i].type_override),
                        };
                        push_binding(&mut self.arguments, b);
                        let mut t: Vec<char> = Vec::new();
                        t.push('?');
                        proof {
                            assert(t@ =~= seq!['?']);
                        }
                        t
                    },
                    None => {
                        let b1 = RunTimeBinding {
                            name: clone_text(&binding_name),
                            type_override: clone_override(&type_override),
                        };
                        let b2 = RunTimeBinding { name: binding_name, type_override };
                        proof {
                            assert(b1.deep_view() == b2.deep_view());
                        }
                        push_binding(&mut self.seen, b1);
                        push_binding(&mut self.arguments, b2);
                        let mut t: Vec<char> = Vec::new();
                        t.push('?');
                        proof {
                            assert(t@ =~= seq!['?']);
                        }
                        t
                    },
                }
            },
        }
    }

    /// The ordered argument list for the variant: one entry per allocated
    /// index, in index order.
    pub fn get_arguments(self) -> (r: Vec<RunTimeBinding>)
        ensures
            r.deep_view() == self.deep_view().arguments,
    {
        self.arguments
    }
}


/// Position `p` starts a run-time token: an opening brace, or an escaped `}}`.
/// A lone `}` is literal text.
pub open spec fn is_rt_trigger(s: Seq<char>, p: int) -> bool {
    s[p] == '{' || (s[p] == '}' && p + 1 < s.len() && s[p + 1] == '}')
}

/// Index of the first run-time token start, or `-1`.
pub open spec fn first_rt_trigger(s: Seq<char>) -> int
    decreases s.len(),
{
    if s.len() == 0 {
        -1
    } else if s[0] == '{' || (s[0] == '}' && 1 < s.len() && s[1] == '}') {
        0
    } else {
        let r = first_rt_trigger(s.skip(1));
        if r < 0 {
            -1
        } else {
            r + 1
        }
    }
}

proof fn lemma_first_rt_trigger(s: Seq<char>)
    ensures
        first_rt_trigger(s) >= 0 ==> {
            &&& first_rt_trigger(s) < s.len()
            &&& is_rt_trigger(s, first_rt_trigger(s))
            &&& forall|j: int| 0 <= j < first_rt_trigger(s) ==> !is_rt_trigger(s, j)
        },
        first_rt_trigger(s) < 0 ==> forall|j: int| 0 <= j < s.len() ==> !is_rt_trigger(s, j),
    decreases s.len(),
{
    if s.len() != 0 && !(s[0] == '{' || (s[0] == '}' && 1 < s.len() && s[1] == '}')) {
        lemma_first_rt_trigger(s.skip(1));
        let r = first_rt_trigger(s.skip(1));
        assert forall|j: int| 1 <= j < s.len() implies is_rt_trigger(s, j) == is_rt_trigger(
            s.skip(1),
            j - 1,
        ) by {
            assert(s[j] == s.skip(1)[j - 1]);
            if j + 1 < s.len() {
                assert(s[j + 1] == s.skip(1)[j]);
            }
        }
        assert(!is_rt_trigger(s, 0));
    }
}

proof fn lemma_first_rt_trigger_prefix(s: Seq<char>, p: int)
    requires
        0 <= p < s.len(),
        is_rt_trigger(s, p),
        forall|j: int| 0 <= j < p ==> !is_rt_trigger(s, j),
    ensures
        first_rt_trigger(s) == p,
    decreases p,
{
    assert forall|j: int| 1 <= j < s.len() implies is_rt_trigger(s, j) == is_rt_trigger(
        s.skip(1),
        j - 1,
    ) by {
        assert(s[j] == s.skip(1)[j - 1]);
        if j + 1 < s.len() {
            assert(s[j + 1] == s.skip(1)[j]);
        }
    }
    if p > 0 {
        assert forall|j2: int| 0 <= j2 < p - 1 implies !is_rt_trigger(s.skip(1), j2) by {
            assert(is_rt_trigger(s.skip(1), j2) == is_rt_trigger(s, j2 + 1));
        }
        assert(is_rt_trigger(s.skip(1), p - 1));
        lemma_first_rt_trigger_prefix(s.skip(1), p - 1);
        assert(!is_rt_trigger(s, 0));
    }
}

/// First run-time token start at or after `from`, as an offset from `from`.
#[verifier::loop_isolation(false)]
fn find_rt_trigger(v: &Vec<char>, from: usize) -> (r: Option<usize>)
    requires
        from <= v@.len(),
    ensures
        match r {
            Some(p) => p == first_rt_trigger(v@.skip(from as int)),
            None => first_rt_trigger(v@.skip(from as int)) < 0,
        },
{
    let ghost s = v@.skip(from as int);
    let mut i: usize = from;
    while i < v.len()
        invariant
            from <= i <= v@.len(),
            s == v@.skip(from as int),
            forall|j: int| 0 <= j < i - from ==> !is_rt_trigger(s, j),
        decreases v@.len() - i,
    {
        proof {
            assert(s[i - from] == v@[i as int]);
            if i + 1 < v@.len() {
                assert(s[i - from + 1] == v@[i + 1]);
            }
        }
        let hit = if v[i] == '{' {
            true
        } else if v[i] == '}' && i + 1 < v.len() && v[i + 1] == '}' {
            true
        } else {
            false
        };
        if hit {
            proof {
                assert(is_rt_trigger(s, i - from));
                lemma_first_rt_trigger_prefix(s, i - from);
            }
            return Some(i - from);
        }
        proof {
            assert(!is_rt_trigger(s, i - from));
        }
        i = i + 1;
    }
    proof {
        lemma_first_rt_trigger(s);
        if first_rt_trigger(s) >= 0 {
            assert(!is_rt_trigger(s, first_rt_trigger(s)));
        }
    }
    None
}

/// One run-time scan of a single fragment: `{{` and `}}` unescape to a single
/// literal brace, a lone `}` stays literal text, and each `{name}` or
/// `{name:Type}` becomes a dialect placeholder while the index state records
/// the occurrence. When a colon is present the name is trimmed and the
/// override text (from the colon on) must have been accepted by the lexing
/// call recorded for this occurrence: `lex` is the record of those decisions
/// and `n0` the index of the next one; the `Ok` result carries the index left
/// for the rest of the scan.
pub open spec fn scan_rt_fragment(
    s: Seq<char>,
    st: SpecRunTimeBindings,
    base: nat,
    lex: Seq<bool>,
    n0: nat,
) -> Result<(Seq<Seq<char>>, SpecRunTimeBindings, nat), SpecExpandError>
    decreases s.len(),
    via scan_rt_fragment_decreases
{
    let p = first_rt_trigger(s);
    if p < 0 {
        Ok(
            (
                if s.len() == 0 {
                    seq![]
                } else {
                    seq![s]
                },
                st,
                n0,
            ),
        )
    } else if s[p] == '{' && p + 1 < s.len() && s[p + 1] == '{' {
        match scan_rt_fragment(s.skip(p + 2), st, (base + p + 2) as nat, lex, n0) {
            Ok(t) => Ok((seq![s.take(p + 1)] + t.0, t.1, t.2)),
            Err(e) => Err(e),
        }
    } else if s[p] == '}' {
        match scan_rt_fragment(s.skip(p + 2), st, (base + p + 2) as nat, lex, n0) {
            Ok(t) => Ok((seq![s.take(p + 1)] + t.0, t.1, t.2)),
            Err(e) => Err(e),
        }
    } else {
        let rest = s.skip(p + 1);
        let e = first_index_of(rest, '}');
        if e < 0 {
            Err(SpecExpandError::MissingBindingClosingBrace { offset: (base + p) as nat })
        } else {
            let inner = rest.take(e);
            let c = first_index_of(inner, ':');
            let name = if c >= 0 {
                trim_spec(inner.take(c))
            } else {
                inner
            };
            let ovr = if c >= 0 {
                Some(inner.skip(c))
            } else {
                None
            };
            if c >= 0 && !lex_decision(lex, n0) {
                Err(
                    SpecExpandError::BindingReferenceTypeOverrideParseError {
                        text: inner.skip(c),
                        offset: (base + p) as nat,
                    },
                )
            } else {
                let n1: nat = if c >= 0 {
                    n0 + 1
                } else {
                    n0
                };
                let alloc = spec_alloc(st, name, ovr);
                let pre: Seq<Seq<char>> = if p > 0 {
                    seq![s.take(p)]
                } else {
                    seq![]
                };
                match scan_rt_fragment(
                    rest.skip(e + 1),
                    alloc.0,
                    (base + p + 1 + e + 1) as nat,
                    lex,
                    n1,
                ) {
                    Ok(t) => Ok((pre + seq![alloc.1] + t.0, t.1, t.2)),
                    Err(er) => Err(er),
                }
            }
        }
    }
}

#[via_fn]
proof fn scan_rt_fragment_decreases(
    s: Seq<char>,
    st: SpecRunTimeBindings,
    base: nat,
    lex: Seq<bool>,
    n0: nat,
) {
    lemma_first_rt_trigger(s);
    let p = first_rt_trigger(s);
    if p >= 0 {
        assert(is_rt_trigger(s, p));
        if s[p] == '{' {
            lemma_first_index_of(s.skip(p + 1), '}');
        } else {
            assert(p + 1 < s.len());
        }
    }
}

/// One run-time scan of a whole fragment list, threading the index state and
/// the position in the decision record.
pub open spec fn scan_rt_fragments(
    fs: Seq<Seq<char>>,
    st: SpecRunTimeBindings,
    lex: Seq<bool>,
    n0: nat,
) -> Result<(Seq<Seq<char>>, SpecRunTimeBindings, nat), SpecExpandError>
    decreases fs.len(),
{
    if fs.len() == 0 {
        Ok((seq![], st, n0))
    } else {
        match scan_rt_fragment(fs[0], st, 0, lex, n0) {
            Err(e) => Err(e),
            Ok(t0) => match scan_rt_fragments(fs.skip(1), t0.1, lex, t0.2) {
                Ok(t) => Ok((t0.0 + t.0, t.1, t.2)),
                Err(e) => Err(e),
            },
        }
    }
}


/// Resolves one `{name}` or `{name:Type}` reference that starts at offset
/// `p_rel` of the suffix `fragment[pos..]`: records the occurrence, and
/// returns the fragments to emit (the literal prefix, if any, then the
/// placeholder) together with the position just past the closing brace. The
/// ghost component records the lexing decisions consumed (none, or the one
/// for this occurrence's type override); the contract holds for every
/// decision record that agrees with them.
#[verifier::loop_isolation(false)]
#[verifier::rlimit(100)]
fn resolve_rt_reference(
    fragment: &Vec<char>,
    rtb: &mut RunTimeBindings,
    pos: usize,
    p_rel: usize,
) -> (r: (Result<(Vec<Vec<char>>, usize), ExpandError>, Ghost<Seq<bool>>))
    requires
        pos <= fragment@.len(),
        first_rt_trigger(fragment@.skip(pos as int)) == p_rel as int,
        pos + p_rel < fragment@.len(),
        fragment@[pos + p_rel] == '{',
        !(pos + p_rel + 1 < fragment@.len() && fragment@[pos + p_rel + 1] == '{'),
    ensures
        match r.0 {
            Ok(ret) => {
                &&& pos < ret.1 <= fragment@.len()
                &&& forall|lex: Seq<bool>, n0: nat| #[trigger]
                    decisions_match(lex, n0, r.1@) ==> (match scan_rt_fragment(
                        fragment@.skip(ret.1 as int),
                        final(rtb).deep_view(),
                        ret.1 as nat,
                        lex,
                        (n0 + r.1@.len()) as nat,
                    ) {
                        Ok(t) => scan_rt_fragment(
                            fragment@.skip(pos as int),
                            old(rtb).deep_view(),
                            pos as nat,
                            lex,
                            n0,
                        ) == Ok::<_, SpecExpandError>((ret.0.deep_view() + t.0, t.1, t.2)),
                        Err(e) => scan_rt_fragment(
                            fragment@.skip(pos as int),
                            old(rtb).deep_view(),
                            pos as nat,
                            lex,
                            n0,
                        ) == Err::<(Seq<Seq<char>>, SpecRunTimeBindings, nat), _>(e),
                    })
            },
            Err(e) => forall|lex: Seq<bool>, n0: nat| #[trigger]
                decisions_match(lex, n0, r.1@) ==> scan_rt_fragment(
                    fragment@.skip(pos as int),
                    old(rtb).deep_view(),
                    pos as nat,
                    lex,
                    n0,
                ) == Err::<(Seq<Seq<char>>, SpecRunTimeBindings, nat), _>(e.deep_view()),
        },
{
    let ghost s = fragment@;
    let ghost suf = s.skip(pos as int);
    let ghost stc = rtb.deep_view();
    proof {
        assert(fragment.len() == fragment@.len());
    }
    let p = pos + p_rel;
    proof {
        assert(suf[p_rel as int] == s[p as int]);
        if p + 1 < s.len() {
            assert(suf[p_rel + 1] == s[p + 1]);
        }
        assert(s.len() == fragment.len());
    }
    let ghost rest = suf.skip(p_rel + 1);
    proof {
        lemma_first_index_of(rest, '}');
        assert(rest =~= s.skip(p + 1));
    }
    match find_char_from(fragment, p + 1, '}') {
        None => {
            let g: Ghost<Seq<bool>> = Ghost(Seq::empty());
            (Err(ExpandError::MissingBindingClosingBrace(p)), g)
        },
        Some(e_rel) => {
            proof {
                assert(0 <= (e_rel as int) < rest.len());
                assert(rest.len() == s.len() - p - 1);
            }
            let e = p + 1 + e_rel;
            let inner = subvec(fragment, p + 1, e);
            proof {
                assert(inner@ =~= rest.take(e_rel as int));
                lemma_first_index_of(inner@, ':');
            }
            let colon = find_char_from(&inner, 0, ':');
            proof {
                assert(inner@.skip(0) =~= inner@);
            }
            let (name, ovr) = match colon {
                Some(c) => {
                    proof {
                        assert(0 <= (c as int) < inner@.len());
                    }
                    let raw = subvec(&inner, 0, c);
                    proof {
                        assert(raw@ =~= inner@.take(c as int));
                    }
                    let ovr_text = subvec(&inner, c, inner.len());
                    proof {
                        assert(ovr_text@ =~= inner@.skip(c as int));
                    }
                    if !lex_type_override(&ovr_text) {
                        proof {
                            assert forall|lex: Seq<bool>, n0: nat| #[trigger]
                                decisions_match(lex, n0, seq![false]) implies !lex_decision(
                                lex,
                                n0,
                            ) by {
                                assert(lex_decision(lex, (n0 + 0) as nat) == seq![false][0]);
                            }
                        }
                        let g: Ghost<Seq<bool>> = Ghost(Seq::empty().push(false));
                        return (
                            Err(ExpandError::BindingReferenceTypeOverrideParseError(ovr_text, p)),
                            g,
                        );
                    }
                    (trim_text(&raw), Some(ovr_text))
                },
                None => (clone_text(&inner), None),
            };
            let ghost used: Seq<bool> = if colon is Some {
                seq![true]
            } else {
                seq![]
            };
            let ghost spec_name = if colon is Some {
                trim_spec(inner@.take(colon->Some_0 as int))
            } else {
                inner@
            };
            let ghost spec_ovr = if colon is Some {
                Some(inner@.skip(colon->Some_0 as int))
            } else {
                None::<Seq<char>>
            };
            proof {
                assert(name@ == spec_name);
                assert(ovr.deep_view() == spec_ovr);
            }
            let mut chunks: Vec<Vec<char>> = Vec::new();
            let ghost pre: Seq<Seq<char>> = if p_rel > 0 {
                seq![suf.take(p_rel as int)]
            } else {
                seq![]
            };
            if p > pos {
                let prefix = subvec(fragment, pos, p);
                proof {
                    assert(prefix@ =~= suf.take(p_rel as int));
                }
                push_fragment(&mut chunks, prefix);
            }
            let placeholder = rtb.get_binding_string(name, ovr);
            push_fragment(&mut chunks, placeholder);
            proof {
                let alloc = spec_alloc(stc, spec_name, spec_ovr);
                assert(rtb.deep_view() == alloc.0);
                assert(chunks.deep_view() =~= pre + seq![alloc.1]);
                assert(rest.skip(e_rel + 1) =~= s.skip(p + 1 + e_rel + 1));
                assert forall|lex: Seq<bool>, n0: nat| #[trigger]
                    decisions_match(lex, n0, used) implies match scan_rt_fragment(
                    s.skip((e + 1) as int),
                    alloc.0,
                    (e + 1) as nat,
                    lex,
                    (n0 + used.len()) as nat,
                ) {
                    Ok(t) => scan_rt_fragment(suf, stc, pos as nat, lex, n0) == Ok::<
                        _,
                        SpecExpandError,
                    >((chunks.deep_view() + t.0, t.1, t.2)),
                    Err(er) => scan_rt_fragment(suf, stc, pos as nat, lex, n0) == Err::<
                        (Seq<Seq<char>>, SpecRunTimeBindings, nat),
                        _,
                    >(er),
                } by {
                    if colon is Some {
                        assert(lex_decision(lex, (n0 + 0) as nat) == seq![true][0]);
                        assert(lex_decision(lex, n0));
                    }
                    let step = scan_rt_fragment(
                        s.skip((e + 1) as int),
                        alloc.0,
                        (e + 1) as nat,
                        lex,
                        (n0 + used.len()) as nat,
                    );
                    if step is Ok {
                        assert((pre + seq![alloc.1]) + (step->Ok_0).0 =~= pre + seq![alloc.1] + (
                        step->Ok_0).0);
                    }
                }
            }
            let g: Ghost<Seq<bool>> = Ghost(used);
            (Ok((chunks, e + 1)), g)
        },
    }
}

/// Scans one fragment for run-time placeholders, appending the produced
/// fragments to `out` and recording each occurrence in `rtb`. The ghost
/// component records the lexing decisions consumed, in scan order; the
/// contract holds for every decision record that agrees with them.
#[verifier::loop_isolation(false)]
#[verifier::rlimit(100)]
fn scan_fragment_rt(
    fragment: &Vec<char>,
    rtb: &mut RunTimeBindings,
    out: &mut Vec<Vec<char>>,
) -> (r: (Result<(), ExpandError>, Ghost<Seq<bool>>))
    ensures
        match r.0 {
            Ok(_) => forall|lex: Seq<bool>, n0: nat| #[trigger]
                decisions_match(lex, n0, r.1@) ==> {
                    &&& scan_rt_fragment(fragment@, old(rtb).deep_view(), 0, lex, n0) matches Ok(t)
                    &&& final(out).deep_view() == old(out).deep_view() + (scan_rt_fragment(
                        fragment@,
                        old(rtb).deep_view(),
                        0,
                        lex,
                        n0,
                    )->Ok_0).0
                    &&& final(rtb).deep_view() == (scan_rt_fragment(
                        fragment@,
                        old(rtb).deep_view(),
                        0,
                        lex,
                        n0,
                    )->Ok_0).1
                    &&& (scan_rt_fragment(fragment@, old(rtb).deep_view(), 0, lex, n0)->Ok_0).2
                        == n0 + r.1@.len()
                },
            Err(e) => forall|lex: Seq<bool>, n0: nat| #[trigger]
                decisions_match(lex, n0, r.1@) ==> scan_rt_fragment(
                    fragment@,
                    old(rtb).deep_view(),
                    0,
                    lex,
                    n0,
                ) == Err::<(Seq<Seq<char>>, SpecRunTimeBindings, nat), _>(e.deep_view()),
        },
{
    let ghost s = fragment@;
    let ghost st0 = rtb.deep_view();
    let ghost out0 = out.deep_view();
    let ghost mut acc: Seq<Seq<char>> = seq![];
    let ghost mut used: Seq<bool> = seq![];
    let mut pos: usize = 0;
    proof {
        assert(s.skip(0) =~= s);
        assert(out.deep_view() =~= out0 + acc);
        assert forall|lex: Seq<bool>, n0: nat| #[trigger]
            decisions_match(lex, n0, used) implies match scan_rt_fragment(
            s.skip(pos as int),
            rtb.deep_view(),
            pos as nat,
            lex,
            (n0 + used.len()) as nat,
        ) {
            Ok(t) => scan_rt_fragment(s, st0, 0, lex, n0) == Ok::<_, SpecExpandError>(
                (acc + t.0, t.1, t.2),
            ),
            Err(e) => scan_rt_fragment(s, st0, 0, lex, n0) == Err::<
                (Seq<Seq<char>>, SpecRunTimeBindings, nat),
                _,
            >(e),
        } by {
            assert((n0 + used.len()) as nat == n0);
            let step = scan_rt_fragment(s, st0, 0, lex, n0);
            if step is Ok {
                assert(acc + (step->Ok_0).0 =~= (step->Ok_0).0);
            }
        }
    }
    loop
        invariant
            pos <= s.len(),
            s == fragment@,
            out.deep_view() == out0 + acc,
            forall|lex: Seq<bool>, n0: nat| #[trigger]
                decisions_match(lex, n0, used) ==> (match scan_rt_fragment(
                    s.skip(pos as int),
                    rtb.deep_view(),
                    pos as nat,
                    lex,
                    (n0 + used.len()) as nat,
                ) {
                    Ok(t) => scan_rt_fragment(s, st0, 0, lex, n0) == Ok::<_, SpecExpandError>(
                        (acc + t.0, t.1, t.2),
                    ),
                    Err(e) => scan_rt_fragment(s, st0, 0, lex, n0) == Err::<
                        (Seq<Seq<char>>, SpecRunTimeBindings, nat),
                        _,
                    >(e),
                }),
        decreases s.len() - pos,
    {
        let ghost suf = s.skip(pos as int);
        let ghost acc0 = acc;
        let ghost stc = rtb.deep_view();
        proof {
            lemma_first_rt_trigger(suf);
        }
        match find_rt_trigger(fragment, pos) {
            None => {
                if pos < fragment.len() {
                    let tail = subvec(fragment, pos, fragment.len());
                    proof {
                        assert(tail@ =~= suf);
                    }
                    push_fragment(out, tail);
                    proof {
                        acc = acc0 + seq![suf];
                        assert(out.deep_view() =~= out0 + acc);
                    }
                } else {
                    proof {
                        assert(suf.len() == 0);
                        assert(acc + Seq::<Seq<char>>::empty() =~= acc);
                    }
                }
                proof {
                    assert forall|lex: Seq<bool>, n0: nat| #[trigger]
                        decisions_match(lex, n0, used) implies {
                        &&& scan_rt_fragment(s, st0, 0, lex, n0) matches Ok(t)
                        &&& out.deep_view() == out0 + (scan_rt_fragment(
                            s,
                            st0,
                            0,
                            lex,
                            n0,
                        )->Ok_0).0
                        &&& rtb.deep_view() == (scan_rt_fragment(s, st0, 0, lex, n0)->Ok_0).1
                        &&& (scan_rt_fragment(s, st0, 0, lex, n0)->Ok_0).2 == n0 + used.len()
                    } by {
                        if suf.len() == 0 {
                            assert(acc0 + Seq::<Seq<char>>::empty() =~= acc);
                        } else {
                            assert(acc0 + seq![suf] =~= acc);
                        }
                    }
                }
                let g: Ghost<Seq<bool>> = Ghost(used);
                return (Ok(()), g);
            },
            Some(p_rel) => {
                proof {
                    assert(0 <= (p_rel as int) < suf.len());
                    assert(suf.len() == s.len() - pos);
                    assert(s.len() == fragment.len());
                    assert(is_rt_trigger(suf, p_rel as int));
                }
                let p = pos + p_rel;
                proof {
                    assert(suf[p_rel as int] == s[p as int]);
                    if p + 1 < s.len() {
                        assert(suf[p_rel + 1] == s[p + 1]);
                    }
                }
                if fragment[p] == '{' && p + 1 < fragment.len() && fragment[p + 1] == '{' {
                    // Escaped opening brace: unescape to a single brace.
                    let chunk = subvec(fragment, pos, p + 1);
                    proof {
                        assert(chunk@ =~= suf.take(p_rel + 1));
                    }
                    push_fragment(out, chunk);
                    proof {
                        let c = suf.take(p_rel + 1);
                        assert(suf.skip(p_rel + 2) =~= s.skip(pos + p_rel + 2));
                        acc = acc0 + seq![c];
                        assert(out.deep_view() =~= out0 + acc);
                        assert forall|lex: Seq<bool>, n0: nat| #[trigger]
                            decisions_match(lex, n0, used) implies match scan_rt_fragment(
                            s.skip((p + 2) as int),
                            rtb.deep_view(),
                            (p + 2) as nat,
                            lex,
                            (n0 + used.len()) as nat,
                        ) {
                            Ok(t) => scan_rt_fragment(s, st0, 0, lex, n0) == Ok::<
                                _,
                                SpecExpandError,
                            >((acc + t.0, t.1, t.2)),
                            Err(e) => scan_rt_fragment(s, st0, 0, lex, n0) == Err::<
                                (Seq<Seq<char>>, SpecRunTimeBindings, nat),
                                _,
                            >(e),
                        } by {
                            let step = scan_rt_fragment(
                                s.skip((p + 2) as int),
                                stc,
                                (p + 2) as nat,
                                lex,
                                (n0 + used.len()) as nat,
                            );
                            if step is Ok {
                                assert(acc0 + (seq![c] + (step->Ok_0).0) =~= (acc0 + seq![c]) + (
                                step->Ok_0).0);
                            }
                        }
                    }
                    pos = p + 2;
                } else if fragment[p] == '}' {
                    // Escaped closing brace: unescape to a single brace.
                    proof {
                        assert(p + 1 < s.len() && s[p + 1] == '}');
                    }
                    let chunk = subvec(fragment, pos, p + 1);
                    proof {
                        assert(chunk@ =~= suf.take(p_rel + 1));
                    }
                    push_fragment(out, chunk);
                    proof {
                        let c = suf.take(p_rel + 1);
                        assert(suf.skip(p_rel + 2) =~= s.skip(pos + p_rel + 2));
                        acc = acc0 + seq![c];
                        assert(out.deep_view() =~= out0 + acc);
                        assert forall|lex: Seq<bool>, n0: nat| #[trigger]
                            decisions_match(lex, n0, used) implies match scan_rt_fragment(
                            s.skip((p + 2) as int),
                            rtb.deep_view(),
                            (p + 2) as nat,
                            lex,
                            (n0 + used.len()) as nat,
                        ) {
                            Ok(t) => scan_rt_fragment(s, st0, 0, lex, n0) == Ok::<
                                _,
                                SpecExpandError,
                            >((acc + t.0, t.1, t.2)),
                            Err(e) => scan_rt_fragment(s, st0, 0, lex, n0) == Err::<
                                (Seq<Seq<char>>, SpecRunTimeBindings, nat),
                                _,
                            >(e),
                        } by {
                            let step = scan_rt_fragment(
                                s.skip((p + 2) as int),
                                stc,
                                (p + 2) as nat,
                                lex,
                                (n0 + used.len()) as nat,
                            );
                            if step is Ok {
                                assert(acc0 + (seq![c] + (step->Ok_0).0) =~= (acc0 + seq![c]) + (
                                step->Ok_0).0);
                            }
                        }
                    }
                    pos = p + 2;
                } else {
                    // A run-time binding reference.
                    let ghost used0 = used;
                    let (res, g) = resolve_rt_reference(fragment, rtb, pos, p_rel);
                    let ghost used_call = g@;
                    match res {
                        Ok(ret) => {
                            let (chunks, newpos) = ret;
                            append_texts(out, &chunks);
                            proof {
                                acc = acc0 + chunks.deep_view();
                                used = used0 + used_call;
                                assert(out.deep_view() =~= out0 + acc);
                                assert forall|lex: Seq<bool>, n0: nat| #[trigger]
                                    decisions_match(lex, n0, used) implies match scan_rt_fragment(
                                    s.skip(newpos as int),
                                    rtb.deep_view(),
                                    newpos as nat,
                                    lex,
                                    (n0 + used.len()) as nat,
                                ) {
                                    Ok(t) => scan_rt_fragment(s, st0, 0, lex, n0) == Ok::<
                                        _,
                                        SpecExpandError,
                                    >((acc + t.0, t.1, t.2)),
                                    Err(e) => scan_rt_fragment(s, st0, 0, lex, n0) == Err::<
                                        (Seq<Seq<char>>, SpecRunTimeBindings, nat),
                                        _,
                                    >(e),
                                } by {
                                    assert(decisions_match(lex, n0, used0)) by {
                                        assert(forall|j: int|
                                            0 <= j < used0.len() ==> used[j] == used0[j]);
                                    }
                                    assert(decisions_match(
                                        lex,
                                        (n0 + used0.len()) as nat,
                                        used_call,
                                    )) by {
                                        assert forall|j: int|
                                            0 <= j < used_call.len() implies lex_decision(
                                            lex,
                                            ((n0 + used0.len()) as nat + j) as nat,
                                        ) == used_call[j] by {
                                            assert(used[used0.len() + j] == used_call[j]);
                                            assert(lex_decision(
                                                lex,
                                                (n0 + (used0.len() + j)) as nat,
                                            ) == used[used0.len() + j]);
                                        }
                                    }
                                    assert((n0 + used0.len()) as nat + used_call.len()
                                        == n0 + used.len());
                                    let step = scan_rt_fragment(
                                        s.skip(newpos as int),
                                        rtb.deep_view(),
                                        newpos as nat,
                                        lex,
                                        (n0 + used.len()) as nat,
                                    );
                                    if step is Ok {
                                        assert(acc0 + (chunks.deep_view() + (step->Ok_0).0) =~= (
                                        acc0 + chunks.deep_view()) + (step->Ok_0).0);
                                    }
                                }
                            }
                            pos = newpos;
                        },
                        Err(e) => {
                            proof {
                                used = used0 + used_call;
                                assert forall|lex: Seq<bool>, n0: nat| #[trigger]
                                    decisions_match(lex, n0, used) implies scan_rt_fragment(
                                    s,
                                    st0,
                                    0,
                                    lex,
                                    n0,
                                ) == Err::<(Seq<Seq<char>>, SpecRunTimeBindings, nat), _>(
                                    e.deep_view(),
                                ) by {
                                    assert(decisions_match(lex, n0, used0)) by {
                                        assert(forall|j: int|
                                            0 <= j < used0.len() ==> used[j] == used0[j]);
                                    }
                                    assert(decisions_match(
                                        lex,
                                        (n0 + used0.len()) as nat,
                                        used_call,
                                    )) by {
                                        assert forall|j: int|
                                            0 <= j < used_call.len() implies lex_decision(
                                            lex,
                                            ((n0 + used0.len()) as nat + j) as nat,
                                        ) == used_call[j] by {
                                            assert(used[used0.len() + j] == used_call[j]);
                                            assert(lex_decision(
                                                lex,
                                                (n0 + (used0.len() + j)) as nat,
                                            ) == used[used0.len() + j]);
                                        }
                                    }
                                }
                            }
                            let g2: Ghost<Seq<bool>> = Ghost(used);
                            return (Err(e), g2);
                        },
                    }
                }
            },
        }
    }
}

/// One run-time resolution pass over a fragment list: each `{name}` or
/// `{name:Type}` becomes a dialect placeholder and is recorded in
/// `run_time_bindings`; `{{` and `}}` unescape to single braces. Fails when a
/// `{` has no matching `}` or a type override is not accepted by the lexing
/// call made for it. The contract exposes the record of those decisions: the
/// result equals the scan under some per-occurrence decision record (the one
/// the lexer returned during this call).
#[verifier::loop_isolation(false)]
pub fn expand_run_time_bindings(
    unexpanded_fragments: &Vec<Vec<char>>,
    run_time_bindings: &mut RunTimeBindings,
) -> (r: Result<Vec<Vec<char>>, ExpandError>)
    ensures
        match r {
            Ok(out) => exists|lex: Seq<bool>|
                #![trigger scan_rt_fragments(unexpanded_fragments.deep_view(), old(run_time_bindings).deep_view(), lex, 0)]
                scan_rt_fragments(
                    unexpanded_fragments.deep_view(),
                    old(run_time_bindings).deep_view(),
                    lex,
                    0,
                ) matches Ok(t) && t.0 == out.deep_view() && t.1 == final(run_time_bindings).deep_view(),
            Err(e) => exists|lex: Seq<bool>|
                #![trigger scan_rt_fragments(unexpanded_fragments.deep_view(), old(run_time_bindings).deep_view(), lex, 0)]
                scan_rt_fragments(
                    unexpanded_fragments.deep_view(),
                    old(run_time_bindings).deep_view(),
                    lex,
                    0,
                ) == Err::<(Seq<Seq<char>>, SpecRunTimeBindings, nat), _>(e.deep_view()),
        },
{
    let ghost fdv = unexpanded_fragments.deep_view();
    let ghost st0 = run_time_bindings.deep_view();
    let ghost mut used: Seq<bool> = seq![];
    let mut out: Vec<Vec<char>> = Vec::new();
    let mut i: usize = 0;
    proof {
        assert(fdv.skip(0) =~= fdv);
        assert forall|lex: Seq<bool>, n0: nat| #[trigger]
            decisions_match(lex, n0, used) implies match scan_rt_fragments(
            fdv.skip(i as int),
            run_time_bindings.deep_view(),
            lex,
            (n0 + used.len()) as nat,
        ) {
            Ok(t) => scan_rt_fragments(fdv, st0, lex, n0) == Ok::<_, SpecExpandError>(
                (out.deep_view() + t.0, t.1, t.2),
            ),
            Err(e) => scan_rt_fragments(fdv, st0, lex, n0) == Err::<
                (Seq<Seq<char>>, SpecRunTimeBindings, nat),
                _,
            >(e),
        } by {
            assert((n0 + used.len()) as nat == n0);
            let step = scan_rt_fragments(fdv, st0, lex, n0);
            if step is Ok {
                assert(out.deep_view() + (step->Ok_0).0 =~= (step->Ok_0).0);
            }
        }
    }
    while i < unexpanded_fragments.len()
        invariant
            i <= unexpanded_fragments@.len(),
            fdv == unexpanded_fragments.deep_view(),
            forall|lex: Seq<bool>, n0: nat| #[trigger]
                decisions_match(lex, n0, used) ==> (match scan_rt_fragments(
                    fdv.skip(i as int),
                    run_time_bindings.deep_view(),
                    lex,
                    (n0 + used.len()) as nat,
                ) {
                    Ok(t) => scan_rt_fragments(fdv, st0, lex, n0) == Ok::<_, SpecExpandError>(
                        (out.deep_view() + t.0, t.1, t.2),
                    ),
                    Err(e) => scan_rt_fragments(fdv, st0, lex, n0) == Err::<
                        (Seq<Seq<char>>, SpecRunTimeBindings, nat),
                        _,
                    >(e),
                }),
        decreases unexpanded_fragments@.len() - i,
    {
        proof {
            assert(fdv.skip(i as int)[0] == fdv[i as int]);
            assert(fdv.skip(i as int).skip(1) =~= fdv.skip(i + 1));
        }
        let ghost before = out.deep_view();
        let ghost stc = run_time_bindings.deep_view();
        let ghost used0 = used;
        let (res, g) = scan_fragment_rt(&unexpanded_fragments[i], run_time_bindings, &mut out);
        let ghost used_call = g@;
        match res {
            Ok(_) => {
                proof {
                    used = used0 + used_call;
                    assert forall|lex: Seq<bool>, n0: nat| #[trigger]
                        decisions_match(lex, n0, used) implies match scan_rt_fragments(
                        fdv.skip(i + 1),
                        run_time_bindings.deep_view(),
                        lex,
                        (n0 + used.len()) as nat,
                    ) {
                        Ok(t) => scan_rt_fragments(fdv, st0, lex, n0) == Ok::<_, SpecExpandError>(
                            (out.deep_view() + t.0, t.1, t.2),
                        ),
                        Err(e) => scan_rt_fragments(fdv, st0, lex, n0) == Err::<
                            (Seq<Seq<char>>, SpecRunTimeBindings, nat),
                            _,
                        >(e),
                    } by {
                        assert(decisions_match(lex, n0, used0)) by {
                            assert(forall|j: int| 0 <= j < used0.len() ==> used[j] == used0[j]);
                        }
                        assert(decisions_match(lex, (n0 + used0.len()) as nat, used_call)) by {
                            assert forall|j: int| 0 <= j < used_call.len() implies lex_decision(
                                lex,
                                ((n0 + used0.len()) as nat + j) as nat,
                            ) == used_call[j] by {
                                assert(used[used0.len() + j] == used_call[j]);
                                assert(lex_decision(lex, (n0 + (used0.len() + j)) as nat) == used[
                                    used0.len() + j
                                ]);
                            }
                        }
                        let m = (n0 + used0.len()) as nat;
                        let t0 = scan_rt_fragment(fdv[i as int], stc, 0, lex, m)->Ok_0;
                        assert((n0 + used.len()) as nat == m + used_call.len());
                        let step = scan_rt_fragments(
                            fdv.skip(i + 1),
                            run_time_bindings.deep_view(),
                            lex,
                            (n0 + used.len()) as nat,
                        );
                        if step is Ok {
                            assert((before + t0.0) + (step->Ok_0).0 =~= before + (t0.0 + (
                            step->Ok_0).0));
                        }
                    }
                }
            },
            Err(e) => {
                proof {
                    used = used0 + used_call;
                    let witness = used;
                    assert(decisions_match(witness, 0, used)) by {
                        assert forall|j: int| 0 <= j < used.len() implies lex_decision(
                            witness,
                            (0 + j) as nat,
                        ) == used[j] by {
                            assert(witness[j] == used[j]);
                        }
                    }
                    assert(decisions_match(witness, 0, used0)) by {
                        assert(forall|j: int| 0 <= j < used0.len() ==> used[j] == used0[j]);
                    }
                    assert(decisions_match(witness, (0 + used0.len()) as nat, used_call)) by {
                        assert forall|j: int| 0 <= j < used_call.len() implies lex_decision(
                            witness,
                            ((0 + used0.len()) as nat + j) as nat,
                        ) == used_call[j] by {
                            assert(used[used0.len() + j] == used_call[j]);
                            assert(lex_decision(witness, (0 + (used0.len() + j)) as nat) == used[
                                used0.len() + j
                            ]);
                        }
                    }
                    assert(scan_rt_fragments(fdv, st0, witness, 0) == Err::<
                        (Seq<Seq<char>>, SpecRunTimeBindings, nat),
                        _,
                    >(e.deep_view()));
                }
                return Err(e);
            },
        }
        i = i + 1;
    }
    proof {
        let witness = used;
        assert(decisions_match(witness, 0, used)) by {
            assert forall|j: int| 0 <= j < used.len() implies lex_decision(witness, (0 + j) as nat)
                == used[j] by {
                assert(witness[j] == used[j]);
            }
        }
        assert(fdv.skip(i as int).len() == 0);
        assert(scan_rt_fragments(fdv.skip(i as int), run_time_bindings.deep_view(), witness, (0
            + used.len()) as nat) == Ok::<_, SpecExpandError>((
        Seq::<Seq<char>>::empty(),
        run_time_bindings.deep_view(),
        used.len() as nat,
        )));
        assert(out.deep_view() + Seq::<Seq<char>>::empty() =~= out.deep_view());
        assert(scan_rt_fragments(fdv, st0, witness, 0) matches Ok(t) && t.0 == out.deep_view()
            && t.1 == run_time_bindings.deep_view());
    }
    Ok(out)
}


// ---------------------------------------------------------------------------
// Whole-template expansion
// ---------------------------------------------------------------------------

/// Model of one fully expanded variant.
#[verifier::ext_equal]
pub struct SpecExpandedMatchArm {
    pub patterns: Seq<Seq<char>>,
    pub query_fragments: Seq<Seq<char>>,
    pub run_time_bindings: Seq<SpecRunTimeBinding>,
}

/// Model of the fully expanded template.
#[verifier::ext_equal]
pub struct SpecExpandedConditionalQueryAs {
    pub output_type: Seq<char>,
    pub match_expressions: Seq<Seq<char>>,
    pub match_arms: Seq<SpecExpandedMatchArm>,
}

/// One fully expanded variant: its pattern tuple, the finished query text as
/// literal-or-placeholder fragments (their concatenation is the statement),
/// and the ordered run-time argument list the dialect requires.
#[derive(Debug)]
pub struct MatchArm {
    pub patterns: Vec<Vec<char>>,
    pub query_fragments: Vec<Vec<char>>,
    pub run_time_bindings: Vec<RunTimeBinding>,
}

/// The fully expanded template: one finished query per variant, ready for the
/// back-end emitter.
#[derive(Debug)]
pub struct ExpandedConditionalQueryAs {
    pub output_type: Vec<char>,
    pub match_expressions: Vec<Vec<char>>,
    pub match_arms: Vec<MatchArm>,
}

impl DeepView for MatchArm {
    type V = SpecExpandedMatchArm;

    open spec fn deep_view(&self) -> SpecExpandedMatchArm {
        SpecExpandedMatchArm {
            patterns: self.patterns.deep_view(),
            query_fragments: self.query_fragments.deep_view(),
            run_time_bindings: self.run_time_bindings.deep_view(),
        }
    }
}

impl DeepView for ExpandedConditionalQueryAs {
    type V = SpecExpandedConditionalQueryAs;

    open spec fn deep_view(&self) -> SpecExpandedConditionalQueryAs {
        SpecExpandedConditionalQueryAs {
            output_type: self.output_type@,
            match_expressions: self.match_expressions.deep_view(),
            match_arms: self.match_arms.deep_view(),
        }
    }
}

/// Run-time resolution of a fixed-point fragment list, from a fresh index,
/// under the decision record `lex` of the type-override lexing calls.
pub open spec fn spec_expand_stable(
    stable: Seq<Seq<char>>,
    dt: DatabaseType,
    lex: Seq<bool>,
) -> Result<(Seq<Seq<char>>, Seq<SpecRunTimeBinding>), SpecExpandError> {
    match scan_rt_fragments(stable, spec_rtb_init(dt), lex, 0) {
        Ok(t) => Ok((t.0, t.1.arguments)),
        Err(e) => Err(e),
    }
}

/// Some number of compile-time passes turns the template into exactly the
/// fragment list `stable`, with no `{#` reference left.
pub open spec fn reaches_fixed_point(
    query: Seq<char>,
    tbl: Seq<(Seq<char>, Seq<char>)>,
    stable: Seq<Seq<char>>,
) -> bool {
    exists|k: nat|
        #![trigger scan_ct_steps(seq![query], tbl, k)]
        scan_ct_steps(seq![query], tbl, k) == Ok::<_, SpecExpandError>(stable) && !any_ct_marker(
            stable,
        )
}

/// The compile-time passes fail with exactly this error: within the budget of
/// one scan per table entry plus one, a scan of a list that still carries a
/// `{#` marker reports it; or all budgeted scans succeed and a marker is still
/// left, which only a cyclic reference chain can cause. The two cases exclude
/// each other (an erroring scan at step `k` makes every later step fail), and
/// the scan steps are deterministic, so the error value is unique.
pub open spec fn ct_expansion_err(
    query: Seq<char>,
    tbl: Seq<(Seq<char>, Seq<char>)>,
    e: SpecExpandError,
) -> bool {
    exists|k: nat, c: Seq<Seq<char>>|
        #![trigger scan_ct_steps(seq![query], tbl, k), any_ct_marker(c)]
        {
            &&& scan_ct_steps(seq![query], tbl, k) == Ok::<_, SpecExpandError>(c)
            &&& any_ct_marker(c)
            &&& {
                ||| (k <= tbl.len() && scan_ct_fragments(c, tbl) == Err::<Seq<Seq<char>>, _>(e))
                ||| (e == SpecExpandError::CyclicCompileTimeBindings && k == tbl.len() + 1)
            }
        }
}

/// One variant's expansion succeeded with exactly these fragments and
/// arguments: the compile-time passes reach a fixed point with no `{#` left,
/// and run-time resolution of that fixed point yields them under the lexing
/// decisions the type-override checks returned. The decisions are quantified
/// because proc_macro2's answer may depend on the environment (a compiler's
/// proc-macro bridge), not on the override text alone.
pub open spec fn arm_expansion_ok(
    query: Seq<char>,
    tbl: Seq<(Seq<char>, Seq<char>)>,
    dt: DatabaseType,
    fragments: Seq<Seq<char>>,
    args: Seq<SpecRunTimeBinding>,
) -> bool {
    exists|stable: Seq<Seq<char>>, lex: Seq<bool>|
        #![trigger spec_expand_stable(stable, dt, lex)]
        reaches_fixed_point(query, tbl, stable) && spec_expand_stable(stable, dt, lex) == Ok::<
            _,
            SpecExpandError,
        >((fragments, args))
}

/// One variant's expansion failed with exactly this error: the compile-time
/// passes fail, or run-time resolution of the fixed point fails under the
/// lexing decisions the type-override checks returned.
pub open spec fn arm_expansion_err(
    query: Seq<char>,
    tbl: Seq<(Seq<char>, Seq<char>)>,
    dt: DatabaseType,
    e: SpecExpandError,
) -> bool {
    ||| ct_expansion_err(query, tbl, e)
    ||| exists|stable: Seq<Seq<char>>, lex: Seq<bool>|
        #![trigger spec_expand_stable(stable, dt, lex)]
        reaches_fixed_point(query, tbl, stable) && spec_expand_stable(stable, dt, lex) == Err::<
            (Seq<Seq<char>>, Seq<SpecRunTimeBinding>),
            _,
        >(e)
}

/// The expanded template `o` is a correct expansion of the lowered template
/// `l` under dialect `dt`.
pub open spec fn expansion_matches(
    l: crate::lower::SpecLoweredConditionalQueryAs,
    dt: DatabaseType,
    o: SpecExpandedConditionalQueryAs,
) -> bool {
    &&& o.output_type == l.output_type
    &&& o.match_expressions == l.match_expressions
    &&& o.match_arms.len() == l.match_arms.len()
    &&& forall|j: int|
        0 <= j < o.match_arms.len() ==> {
            &&& (#[trigger] o.match_arms[j]).patterns == l.match_arms[j].patterns
            &&& arm_expansion_ok(
                l.query_string,
                l.match_arms[j].compile_time_bindings,
                dt,
                o.match_arms[j].query_fragments,
                o.match_arms[j].run_time_bindings,
            )
        }
}

/// Some variant of `l` fails to expand with exactly this error.
pub open spec fn expansion_fails(
    l: crate::lower::SpecLoweredConditionalQueryAs,
    dt: DatabaseType,
    e: SpecExpandError,
) -> bool {
    exists|j: int|
        0 <= j < l.match_arms.len() && arm_expansion_err(
            l.query_string,
            (#[trigger] l.match_arms[j]).compile_time_bindings,
            dt,
            e,
        )
}

/// Resolves the template text for every variant: compile-time substitution to
/// a fixed point, then run-time placeholder indexing for the chosen dialect.
/// On success each variant carries its finished fragment list and its ordered
/// argument list; the first failing variant (in variant order) aborts the
/// whole expansion with its error.
#[verifier::loop_isolation(false)]
pub fn expand(
    database_type: DatabaseType,
    lowered: crate::lower::LoweredConditionalQueryAs,
) -> (r: Result<ExpandedConditionalQueryAs, ExpandError>)
    ensures
        match r {
            Ok(out) => expansion_matches(lowered.deep_view(), database_type, out.deep_view()),
            Err(e) => expansion_fails(lowered.deep_view(), database_type, e.deep_view()),
        },
{
    let ghost ldv = lowered.deep_view();
    let mut match_arms: Vec<MatchArm> = Vec::new();
    let mut j: usize = 0;
    while j < lowered.match_arms.len()
        invariant
            j <= lowered.match_arms@.len(),
            match_arms@.len() == j,
            forall|i: int|
                0 <= i < j ==> {
                    &&& (#[trigger] match_arms.deep_view()[i]).patterns
                        == ldv.match_arms[i].patterns
                    &&& arm_expansion_ok(
                        ldv.query_string,
                        ldv.match_arms[i].compile_time_bindings,
                        database_type,
                        match_arms.deep_view()[i].query_fragments,
                        match_arms.deep_view()[i].run_time_bindings,
                    )
                },
        decreases lowered.match_arms@.len() - j,
    {
        let arm = &lowered.match_arms[j];
        let ghost tblv = ldv.match_arms[j as int].compile_time_bindings;
        proof {
            assert(arm.compile_time_bindings.deep_view() == tblv);
        }
        let stable = match expand_to_fixed_point(
            &lowered.query_string,
            &arm.compile_time_bindings,
        ) {
            Ok(f) => f,
            Err(e) => {
                proof {
                    assert(arm_expansion_err(
                        ldv.query_string,
                        tblv,
                        database_type,
                        e.deep_view(),
                    ));
                }
                return Err(e);
            },
        };
        let mut run_time_bindings = RunTimeBindings::new(database_type);
        let expanded = match expand_run_time_bindings(&stable, &mut run_time_bindings) {
            Ok(f) => f,
            Err(e) => {
                proof {
                    let lex = choose|lex: Seq<bool>|
                        #![trigger scan_rt_fragments(stable.deep_view(), spec_rtb_init(database_type), lex, 0)]
                        scan_rt_fragments(
                            stable.deep_view(),
                            spec_rtb_init(database_type),
                            lex,
                            0,
                        ) == Err::<(Seq<Seq<char>>, SpecRunTimeBindings, nat), _>(e.deep_view());
                    assert(spec_expand_stable(stable.deep_view(), database_type, lex) == Err::<
                        (Seq<Seq<char>>, Seq<SpecRunTimeBinding>),
                        _,
                    >(e.deep_view()));
                    assert(arm_expansion_err(
                        ldv.query_string,
                        tblv,
                        database_type,
                        e.deep_view(),
                    ));
                }
                return Err(e);
            },
        };
        let ghost expanded_view = expanded.deep_view();
        let ghost rtb_view = run_time_bindings.deep_view();
        let arguments = run_time_bindings.get_arguments();
        let ghost pre_arms = match_arms.deep_view();
        let new_arm = MatchArm {
            patterns: crate::text::clone_texts(&arm.patterns),
            query_fragments: expanded,
            run_time_bindings: arguments,
        };
        proof {
            let lex = choose|lex: Seq<bool>|
                #![trigger scan_rt_fragments(stable.deep_view(), spec_rtb_init(database_type), lex, 0)]
                scan_rt_fragments(stable.deep_view(), spec_rtb_init(database_type), lex, 0)
                    matches Ok(t) && t.0 == expanded_view && t.1 == rtb_view;
            assert(spec_expand_stable(stable.deep_view(), database_type, lex) == Ok::<
                _,
                SpecExpandError,
            >((new_arm.deep_view().query_fragments, new_arm.deep_view().run_time_bindings)));
            assert(arm_expansion_ok(
                ldv.query_string,
                tblv,
                database_type,
                new_arm.deep_view().query_fragments,
                new_arm.deep_view().run_time_bindings,
            ));
        }
        match_arms.push(new_arm);
        proof {
            assert forall|kk: int| 0 <= kk < pre_arms.len() implies #[trigger] match_arms.deep_view()[kk]
                == pre_arms[kk] by {
                assert(match_arms.deep_view()[kk] == match_arms@[kk].deep_view());
            }
            assert(match_arms.deep_view()[j as int] == new_arm.deep_view());
        }
        j = j + 1;
    }
    let out = ExpandedConditionalQueryAs {
        output_type: lowered.output_type,
        match_expressions: lowered.match_expressions,
        match_arms,
    };
    proof {
        assert(expansion_matches(ldv, database_type, out.deep_view()));
    }
    Ok(out)
}


// ---------------------------------------------------------------------------
// Laws
// ---------------------------------------------------------------------------

/// The concatenation of a fragment list.
pub open spec fn concat_all(fs: Seq<Seq<char>>) -> Seq<char>
    decreases fs.len(),
{
    if fs.len() == 0 {
        seq![]
    } else {
        fs[0] + concat_all(fs.skip(1))
    }
}

proof fn lemma_scan_ct_fragments_append(a: Seq<Seq<char>>, b: Seq<Seq<char>>, tbl: Seq<
    (Seq<char>, Seq<char>),
>)
    ensures
        scan_ct_fragments(a + b, tbl) == (match scan_ct_fragments(a, tbl) {
            Err(e) => Err::<Seq<Seq<char>>, SpecExpandError>(e),
            Ok(oa) => match scan_ct_fragments(b, tbl) {
                Ok(ob) => Ok(oa + ob),
                Err(e) => Err(e),
            },
        }),
    decreases a.len(),
{
    if a.len() == 0 {
        assert(a + b =~= b);
        if scan_ct_fragments(b, tbl) is Ok {
            assert(Seq::<Seq<char>>::empty() + (scan_ct_fragments(b, tbl)->Ok_0)
                =~= scan_ct_fragments(b, tbl)->Ok_0);
        }
    } else {
        lemma_scan_ct_fragments_append(a.skip(1), b, tbl);
        assert((a + b)[0] == a[0]);
        assert((a + b).skip(1) =~= a.skip(1) + b);
        if scan_ct_fragment(a[0], tbl, 0) is Ok && scan_ct_fragments(a.skip(1), tbl) is Ok
            && scan_ct_fragments(b, tbl) is Ok {
            let o0 = scan_ct_fragment(a[0], tbl, 0)->Ok_0;
            let oa1 = scan_ct_fragments(a.skip(1), tbl)->Ok_0;
            let ob = scan_ct_fragments(b, tbl)->Ok_0;
            assert(o0 + (oa1 + ob) =~= (o0 + oa1) + ob);
        }
    }
}

proof fn lemma_concat_all_append(a: Seq<Seq<char>>, b: Seq<Seq<char>>)
    ensures
        concat_all(a + b) == concat_all(a) + concat_all(b),
    decreases a.len(),
{
    if a.len() == 0 {
        assert(a + b =~= b);
        assert(concat_all(a) =~= Seq::<char>::empty());
        assert(Seq::<char>::empty() + concat_all(b) =~= concat_all(b));
    } else {
        lemma_concat_all_append(a.skip(1), b);
        assert((a + b)[0] == a[0]);
        assert((a + b).skip(1) =~= a.skip(1) + b);
        assert(a[0] + (concat_all(a.skip(1)) + concat_all(b)) =~= (a[0] + concat_all(a.skip(1)))
            + concat_all(b));
    }
}

/// A subrange of a fragment without a `{#` marker has no marker either.
proof fn lemma_marker_free_subrange(s: Seq<char>, a: int, b: int)
    requires
        !has_ct_marker(s),
        0 <= a <= b <= s.len(),
    ensures
        !has_ct_marker(s.subrange(a, b)),
{
    let sub = s.subrange(a, b);
    if has_ct_marker(sub) {
        let p = choose|p: int| 0 <= p && p + 1 < sub.len() && (#[trigger] sub[p]) == '{' && sub[p
            + 1] == '#';
        assert(s[a + p] == '{' && s[a + p + 1] == '#');
    }
}

/// First occurrence within a prefix: taking a prefix past the first occurrence
/// keeps it; taking a prefix before it (or when there is none) has none.
proof fn lemma_first_index_of_take(s: Seq<char>, c: char, m: int)
    requires
        0 <= m <= s.len(),
    ensures
        (0 <= first_index_of(s, c) < m) ==> first_index_of(s.take(m), c) == first_index_of(s, c),
        (first_index_of(s, c) < 0 || first_index_of(s, c) >= m) ==> first_index_of(s.take(m), c)
            < 0,
{
    lemma_first_index_of(s, c);
    let p = first_index_of(s, c);
    let t = s.take(m);
    if 0 <= p < m {
        assert(t[p] == c);
        assert(forall|j: int| 0 <= j < p ==> t[j] != c);
        crate::text::lemma_first_index_of_prefix(t, c, p);
    } else {
        lemma_first_index_of(t, c);
        if first_index_of(t, c) >= 0 {
            assert(t[first_index_of(t, c)] == c);
            assert(s[first_index_of(t, c)] == c);
        }
    }
}


proof fn lemma_scan_empty(tbl: Seq<(Seq<char>, Seq<char>)>, base: nat)
    ensures
        scan_ct_fragment(Seq::<char>::empty(), tbl, base) == Ok::<Seq<Seq<char>>, SpecExpandError>(
            Seq::<Seq<char>>::empty(),
        ),
        scan_ct_fragments(Seq::<Seq<char>>::empty(), tbl) == Ok::<
            Seq<Seq<char>>,
            SpecExpandError,
        >(Seq::<Seq<char>>::empty()),
        concat_all(Seq::<Seq<char>>::empty()) == Seq::<char>::empty(),
{
}

/// A single chunk that scans to itself also does so as a one-element list.
proof fn lemma_singleton_list(c: Seq<char>, tbl: Seq<(Seq<char>, Seq<char>)>)
    requires
        scan_ct_fragment(c, tbl, 0) == Ok::<Seq<Seq<char>>, SpecExpandError>(seq![c]),
    ensures
        scan_ct_fragments(seq![c], tbl) == Ok::<Seq<Seq<char>>, SpecExpandError>(seq![c]),
        concat_all(seq![c]) == c,
{
    lemma_scan_empty(tbl, 0);
    assert(seq![c][0] == c);
    assert(seq![c].skip(1) =~= Seq::<Seq<char>>::empty());
    assert(seq![c] + Seq::<Seq<char>>::empty() =~= seq![c]);
    assert(concat_all(seq![c]) == c + concat_all(Seq::<Seq<char>>::empty()));
    assert(c + Seq::<char>::empty() =~= c);
}

/// A chunk without any opening brace scans to itself.
proof fn lemma_chunk_no_brace(c: Seq<char>, tbl: Seq<(Seq<char>, Seq<char>)>, base: nat)
    requires
        c.len() > 0,
        first_index_of(c, '{') < 0,
    ensures
        scan_ct_fragment(c, tbl, base) == Ok::<Seq<Seq<char>>, SpecExpandError>(seq![c]),
{
}

/// A chunk ending in an escaped `{{` with no earlier brace scans to itself.
proof fn lemma_chunk_escaped(c: Seq<char>, tbl: Seq<(Seq<char>, Seq<char>)>, base: nat)
    requires
        c.len() >= 2,
        first_index_of(c, '{') == c.len() - 2,
        c[c.len() - 1] == '{',
    ensures
        scan_ct_fragment(c, tbl, base) == Ok::<Seq<Seq<char>>, SpecExpandError>(seq![c]),
{
    let p = c.len() - 2;
    lemma_scan_empty(tbl, (base + p + 2) as nat);
    assert(c.skip(p + 2) =~= Seq::<char>::empty());
    assert(c.take(p + 2) =~= c);
    assert(seq![c] + Seq::<Seq<char>>::empty() =~= seq![c]);
}

/// A reference chunk `{...}` that is not a compile-time reference scans to
/// itself untouched.
proof fn lemma_chunk_reference(c: Seq<char>, tbl: Seq<(Seq<char>, Seq<char>)>, base: nat)
    requires
        c.len() >= 2,
        c[0] == '{',
        c[1] != '{',
        c[1] != '#',
        first_index_of(c, '}') == c.len() - 1,
    ensures
        scan_ct_fragment(c, tbl, base) == Ok::<Seq<Seq<char>>, SpecExpandError>(seq![c]),
{
    let e = c.len() - 1;
    crate::text::lemma_first_index_of_prefix(c, '{', 0);
    assert(first_index_of(c, '{') == 0);
    assert(c.skip(0) =~= c);
    lemma_scan_empty(tbl, (base + e + 1) as nat);
    assert(c.skip(e + 1) =~= Seq::<char>::empty());
    assert(c.take(e + 1) =~= c);
    assert(Seq::<Seq<char>>::empty() + seq![c.take(e + 1)] + Seq::<Seq<char>>::empty() =~= seq![
        c,
    ]);
}

/// One marker-free fragment scans to chunks that keep its text, stay
/// marker-free, never consult the table, and scan to themselves again.
proof fn lemma_scan_ct_stable_fragment(
    s: Seq<char>,
    tbl: Seq<(Seq<char>, Seq<char>)>,
    tbl2: Seq<(Seq<char>, Seq<char>)>,
    base: nat,
)
    requires
        !has_ct_marker(s),
        scan_ct_fragment(s, tbl, base) is Ok,
    ensures
        scan_ct_fragment(s, tbl2, base) == scan_ct_fragment(s, tbl, base),
        concat_all(scan_ct_fragment(s, tbl, base)->Ok_0) == s,
        forall|i: int|
            0 <= i < (scan_ct_fragment(s, tbl, base)->Ok_0).len() ==> !has_ct_marker(
                #[trigger] (scan_ct_fragment(s, tbl, base)->Ok_0)[i],
            ),
        scan_ct_fragments(scan_ct_fragment(s, tbl, base)->Ok_0, tbl2) == Ok::<
            Seq<Seq<char>>,
            SpecExpandError,
        >(scan_ct_fragment(s, tbl, base)->Ok_0),
    decreases s.len(),
{
    lemma_first_index_of(s, '{');
    let p = first_index_of(s, '{');
    if p < 0 {
        if s.len() == 0 {
            lemma_scan_empty(tbl2, base);
            assert(concat_all(Seq::<Seq<char>>::empty()) =~= s);
        } else {
            lemma_chunk_no_brace(s, tbl2, 0);
            lemma_singleton_list(s, tbl2);
        }
    } else if p + 1 < s.len() && s[p + 1] == '{' {
        let tail = s.skip(p + 2);
        proof_marker_free_skip(s, p + 2);
        lemma_scan_ct_stable_fragment(tail, tbl, tbl2, (base + p + 2) as nat);
        let rest = scan_ct_fragment(tail, tbl, (base + p + 2) as nat)->Ok_0;
        let c = s.take(p + 2);
        let out = seq![c] + rest;
        // The escaped-brace chunk scans back to itself.
        lemma_first_index_of_take(s, '{', p + 2);
        assert(c[c.len() - 1] == '{');
        lemma_chunk_escaped(c, tbl2, 0);
        lemma_singleton_list(c, tbl2);
        lemma_marker_free_subrange(s, 0, p + 2);
        assert(c =~= s.subrange(0, p + 2));
        // Re-scanning the chunk list gives it back.
        lemma_scan_ct_fragments_append(seq![c], rest, tbl2);
        assert(concat_all(out) == s) by {
            lemma_concat_all_append(seq![c], rest);
            assert(c + tail =~= s);
        }
        assert(scan_ct_fragment(s, tbl2, base) == scan_ct_fragment(s, tbl, base));
        assert forall|i: int| 0 <= i < out.len() implies !has_ct_marker(#[trigger] out[i]) by {
            if i > 0 {
                assert(out[i] == rest[i - 1]);
            }
        }
    } else {
        let rest0 = s.skip(p);
        lemma_first_index_of(rest0, '}');
        let e = first_index_of(rest0, '}');
        assert(e >= 0);
        // A `{#` here would be a marker, which `s` has none of.
        assert(rest0[0] == s[p]);
        if p + 1 < s.len() && s[p + 1] == '#' {
            assert(has_ct_marker(s));
        }
        assert(e >= 1);
        let tail = rest0.skip(e + 1);
        assert(tail =~= s.skip(p + e + 1));
        proof_marker_free_skip(s, p + e + 1);
        lemma_scan_ct_stable_fragment(tail, tbl, tbl2, (base + p + e + 1) as nat);
        let rest = scan_ct_fragment(tail, tbl, (base + p + e + 1) as nat)->Ok_0;
        let pre: Seq<Seq<char>> = if p > 0 {
            seq![s.take(p)]
        } else {
            seq![]
        };
        let c = rest0.take(e + 1);
        let out = pre + seq![c] + rest;
        // The prefix chunk has no brace at all and scans to itself.
        if p > 0 {
            let pc = s.take(p);
            lemma_first_index_of_take(s, '{', p);
            assert(first_index_of(pc, '{') < 0);
            lemma_chunk_no_brace(pc, tbl2, 0);
            lemma_singleton_list(pc, tbl2);
            lemma_marker_free_subrange(s, 0, p);
            assert(pc =~= s.subrange(0, p));
        } else {
            lemma_scan_empty(tbl2, 0);
        }
        // The reference chunk `{...}` scans to itself: its first `{` is at 0,
        // the next character is neither `{` nor `#`, and its first `}` ends it.
        assert(c[0] == '{');
        assert(c.len() == e + 1 >= 2);
        assert(c[1] == rest0[1]);
        assert(rest0[1] == s[p + 1]);
        assert(c[1] != '{' && c[1] != '#') by {
            if s[p + 1] == '#' {
                assert(has_ct_marker(s));
            }
        }
        lemma_first_index_of_take(rest0, '}', e + 1);
        assert(first_index_of(c, '}') == c.len() - 1);
        lemma_chunk_reference(c, tbl2, 0);
        lemma_singleton_list(c, tbl2);
        lemma_marker_free_subrange(s, p, p + e + 1);
        assert(c =~= s.subrange(p, p + e + 1));
        // Re-scanning the chunk list gives it back.
        lemma_scan_ct_fragments_append(pre + seq![c], rest, tbl2);
        lemma_scan_ct_fragments_append(pre, seq![c], tbl2);
        assert((pre + seq![c]) + rest =~= pre + seq![c] + rest);
        assert(scan_ct_fragments(out, tbl2) == Ok::<Seq<Seq<char>>, SpecExpandError>(out)) by {
            assert(pre + seq![c] =~= scan_ct_fragments(pre, tbl2)->Ok_0 + seq![c]);
        }
        assert(concat_all(out) == s) by {
            lemma_concat_all_append(pre + seq![c], rest);
            lemma_concat_all_append(pre, seq![c]);
            if p > 0 {
                assert(concat_all(pre) == s.take(p) + concat_all(Seq::<Seq<char>>::empty())) by {
                    assert(pre[0] == s.take(p));
                    assert(pre.skip(1) =~= Seq::<Seq<char>>::empty());
                }
                assert(concat_all(pre) =~= s.take(p));
            } else {
                assert(concat_all(pre) =~= Seq::<char>::empty());
            }
            assert(concat_all(pre) + c =~= s.take(p + e + 1));
            assert(s.take(p + e + 1) + tail =~= s);
            assert(concat_all(pre + seq![c]) + concat_all(rest) =~= s);
        }
        assert(scan_ct_fragment(s, tbl2, base) == scan_ct_fragment(s, tbl, base));
        assert forall|i: int| 0 <= i < out.len() implies !has_ct_marker(#[trigger] out[i]) by {
            if i < pre.len() {
                assert(out[i] == pre[0]);
            } else if i == pre.len() {
                assert(out[i] == c);
            } else {
                assert(out[i] == rest[i - pre.len() - 1]);
            }
        }
    }
}

/// A suffix of a marker-free fragment is marker-free.
proof fn proof_marker_free_skip(s: Seq<char>, a: int)
    requires
        !has_ct_marker(s),
        0 <= a <= s.len(),
    ensures
        !has_ct_marker(s.skip(a)),
{
    assert(s.skip(a) =~= s.subrange(a, s.len() as int));
    lemma_marker_free_subrange(s, a, s.len() as int);
}

/// Idempotence law: once compile-time substitution has reached a fixed point
/// (no fragment contains `{#`), one more pass is a no-op. It consults no
/// binding table (so any table gives the same result), it preserves the
/// concatenated text, it leaves every fragment free of `{#`, and scanning its
/// own output returns that output unchanged.
pub proof fn lemma_pass_a_idempotent(
    fs: Seq<Seq<char>>,
    tbl: Seq<(Seq<char>, Seq<char>)>,
    tbl2: Seq<(Seq<char>, Seq<char>)>,
)
    requires
        forall|i: int| 0 <= i < fs.len() ==> !has_ct_marker(#[trigger] fs[i]),
        scan_ct_fragments(fs, tbl) is Ok,
    ensures
        scan_ct_fragments(fs, tbl2) == scan_ct_fragments(fs, tbl),
        concat_all(scan_ct_fragments(fs, tbl)->Ok_0) == concat_all(fs),
        forall|i: int|
            0 <= i < (scan_ct_fragments(fs, tbl)->Ok_0).len() ==> !has_ct_marker(
                #[trigger] (scan_ct_fragments(fs, tbl)->Ok_0)[i],
            ),
        scan_ct_fragments(scan_ct_fragments(fs, tbl)->Ok_0, tbl) == scan_ct_fragments(fs, tbl),
    decreases fs.len(),
{
    if fs.len() == 0 {
    } else {
        assert(!has_ct_marker(fs[0]));
        lemma_scan_ct_stable_fragment(fs[0], tbl, tbl2, 0);
        lemma_scan_ct_stable_fragment(fs[0], tbl, tbl, 0);
        assert(forall|i: int| 0 <= i < fs.skip(1).len() ==> !has_ct_marker(
            #[trigger] fs.skip(1)[i],
        ));
        lemma_pass_a_idempotent(fs.skip(1), tbl, tbl2);
        lemma_pass_a_idempotent(fs.skip(1), tbl, tbl);
        let o0 = scan_ct_fragment(fs[0], tbl, 0)->Ok_0;
        let o1 = scan_ct_fragments(fs.skip(1), tbl)->Ok_0;
        let out = o0 + o1;
        assert(scan_ct_fragments(fs, tbl)->Ok_0 == out);
        lemma_scan_ct_fragments_append(o0, o1, tbl);
        assert(concat_all(out) == concat_all(fs)) by {
            lemma_concat_all_append(o0, o1);
            assert(concat_all(fs) == fs[0] + concat_all(fs.skip(1)));
        }
        assert forall|i: int| 0 <= i < out.len() implies !has_ct_marker(#[trigger] out[i]) by {
            if i < o0.len() {
                assert(out[i] == o0[i]);
            } else {
                assert(out[i] == o1[i - o0.len()]);
            }
        }
    }
}


/// Index-reuse law: under the `$n` dialect the argument list always coincides
/// with the list of distinct names in first-occurrence order. A repeated name
/// adds no argument and renders the 1-based index of its first occurrence; a
/// fresh name is appended and renders the next sequential index.
pub proof fn lemma_named_dialect_reuses_index(
    st: SpecRunTimeBindings,
    name: Seq<char>,
    ovr: Option<Seq<char>>,
)
    requires
        st.database_type is PostgreSql,
        st.arguments == st.seen,
    ensures
        spec_alloc(st, name, ovr).0.arguments == spec_alloc(st, name, ovr).0.seen,
        find_binding(st.seen, name) >= 0 ==> {
            &&& spec_alloc(st, name, ovr).0 == st
            &&& spec_alloc(st, name, ovr).1 == seq!['$'] + spec_dec_digits(
                (find_binding(st.seen, name) + 1) as nat,
            )
        },
        find_binding(st.seen, name) < 0 ==> {
            &&& spec_alloc(st, name, ovr).0.arguments == st.arguments + seq![
                SpecRunTimeBinding { name, type_override: ovr },
            ]
            &&& spec_alloc(st, name, ovr).1 == seq!['$'] + spec_dec_digits(st.seen.len() + 1)
        },
{
}

/// Per-occurrence law: under the `?` dialect every occurrence appends exactly
/// one argument (so the list repeats a name as often as it occurs, in
/// occurrence order), the placeholder is always `?`, and a repeated name
/// carries the type override of its first occurrence.
pub proof fn lemma_anonymous_dialect_records_every_occurrence(
    st: SpecRunTimeBindings,
    name: Seq<char>,
    ovr: Option<Seq<char>>,
)
    requires
        !(st.database_type is PostgreSql),
    ensures
        spec_alloc(st, name, ovr).1 == seq!['?'],
        spec_alloc(st, name, ovr).0.arguments.len() == st.arguments.len() + 1,
        spec_alloc(st, name, ovr).0.arguments.take(st.arguments.len() as int) == st.arguments,
        spec_alloc(st, name, ovr).0.arguments.last().name == name,
        spec_alloc(st, name, ovr).0.arguments.last().type_override == (if find_binding(
            st.seen,
            name,
        ) >= 0 {
            st.seen[find_binding(st.seen, name)].type_override
        } else {
            ovr
        }),
{
    let a2 = spec_alloc(st, name, ovr).0.arguments;
    assert(a2.take(st.arguments.len() as int) =~= st.arguments);
}


proof fn lemma_steps_add(fs: Seq<Seq<char>>, tbl: Seq<(Seq<char>, Seq<char>)>, a: nat, b: nat)
    ensures
        scan_ct_steps(fs, tbl, a + b) == (match scan_ct_steps(fs, tbl, a) {
            Ok(o) => scan_ct_steps(o, tbl, b),
            Err(e) => Err(e),
        }),
    decreases a,
{
    if a == 0 {
        assert((a + b) as nat == b);
    } else {
        match scan_ct_fragments(fs, tbl) {
            Err(e) => {
                assert(scan_ct_steps(fs, tbl, a + b) == Err::<Seq<Seq<char>>, SpecExpandError>(e));
            },
            Ok(o) => {
                lemma_steps_add(o, tbl, (a - 1) as nat, b);
                assert(scan_ct_steps(fs, tbl, a + b) == scan_ct_steps(o, tbl, (a - 1) as nat + b))
                    by {
                    assert(((a + b) - 1) as nat == (a - 1) as nat + b);
                }
            },
        }
    }
}

/// A compile-time scan reports only a missing binding or a missing closing
/// brace, never the cyclic-bindings error.
proof fn lemma_scan_ct_fragment_no_cycle(s: Seq<char>, tbl: Seq<(Seq<char>, Seq<char>)>, base: nat)
    ensures
        scan_ct_fragment(s, tbl, base) matches Err(e) ==> e
            != SpecExpandError::CyclicCompileTimeBindings,
    decreases s.len(),
{
    lemma_first_index_of(s, '{');
    let p = first_index_of(s, '{');
    if p >= 0 {
        if p + 1 < s.len() && s[p + 1] == '{' {
            lemma_scan_ct_fragment_no_cycle(s.skip(p + 2), tbl, (base + p + 2) as nat);
        } else {
            let rest = s.skip(p);
            lemma_first_index_of(rest, '}');
            let e = first_index_of(rest, '}');
            if e >= 0 {
                assert(rest[0] == s[p]);
                assert(e >= 1);
                lemma_scan_ct_fragment_no_cycle(rest.skip(e + 1), tbl, (base + p + e + 1) as nat);
            }
        }
    }
}

proof fn lemma_scan_ct_fragments_no_cycle(fs: Seq<Seq<char>>, tbl: Seq<(Seq<char>, Seq<char>)>)
    ensures
        scan_ct_fragments(fs, tbl) matches Err(e) ==> e
            != SpecExpandError::CyclicCompileTimeBindings,
    decreases fs.len(),
{
    if fs.len() > 0 {
        lemma_scan_ct_fragment_no_cycle(fs[0], tbl, 0);
        lemma_scan_ct_fragments_no_cycle(fs.skip(1), tbl);
    }
}

/// Determinism of the reported compile-time error: the scan steps are a
/// function of the input, an erroring scan at step `k` makes every later step
/// fail, and the cyclic case requires one more successful scan than any
/// reporting scan may have, so at most one error value satisfies
/// `ct_expansion_err` for a given template and table.
pub proof fn lemma_ct_error_unique(
    query: Seq<char>,
    tbl: Seq<(Seq<char>, Seq<char>)>,
    e1: SpecExpandError,
    e2: SpecExpandError,
)
    requires
        ct_expansion_err(query, tbl, e1),
        ct_expansion_err(query, tbl, e2),
    ensures
        e1 == e2,
{
    let (k1, c1): (nat, Seq<Seq<char>>) = choose|k: nat, c: Seq<Seq<char>>|
        #![trigger scan_ct_steps(seq![query], tbl, k), any_ct_marker(c)]
        scan_ct_steps(seq![query], tbl, k) == Ok::<_, SpecExpandError>(c) && any_ct_marker(c) && ((
        k <= tbl.len() && scan_ct_fragments(c, tbl) == Err::<Seq<Seq<char>>, _>(e1)) || (e1
            == SpecExpandError::CyclicCompileTimeBindings && k == tbl.len() + 1));
    let (k2, c2): (nat, Seq<Seq<char>>) = choose|k: nat, c: Seq<Seq<char>>|
        #![trigger scan_ct_steps(seq![query], tbl, k), any_ct_marker(c)]
        scan_ct_steps(seq![query], tbl, k) == Ok::<_, SpecExpandError>(c) && any_ct_marker(c) && ((
        k <= tbl.len() && scan_ct_fragments(c, tbl) == Err::<Seq<Seq<char>>, _>(e2)) || (e2
            == SpecExpandError::CyclicCompileTimeBindings && k == tbl.len() + 1));
    let q0 = seq![query];
    if k1 == k2 {
        assert(c1 == c2);
        if k1 <= tbl.len() && scan_ct_fragments(c1, tbl) == Err::<Seq<Seq<char>>, _>(e1) {
            if !(k2 <= tbl.len() && scan_ct_fragments(c2, tbl) == Err::<Seq<Seq<char>>, _>(e2)) {
                assert(k2 == tbl.len() + 1);
                assert(false);
            }
        } else {
            assert(e1 == SpecExpandError::CyclicCompileTimeBindings && k1 == tbl.len() + 1);
            if k2 <= tbl.len() && scan_ct_fragments(c2, tbl) == Err::<Seq<Seq<char>>, _>(e2) {
                assert(false);
            }
        }
    } else {
        // The earlier witness's scan fails, so the later step cannot be Ok.
        let (ka, ca, ea, kb) = if k1 < k2 {
            (k1, c1, e1, k2)
        } else {
            (k2, c2, e2, k1)
        };
        assert(ka <= tbl.len() && scan_ct_fragments(ca, tbl) matches Err(_)) by {
            if !(ka <= tbl.len()) {
                // The earlier witness must then be the cyclic case at
                // table-size + 1 steps, but the later one needs even more.
                assert(ka == tbl.len() + 1);
                assert(kb <= tbl.len() || kb == tbl.len() + 1);
                assert(false);
            }
        }
        lemma_steps_snoc(q0, tbl, ka);
        assert(scan_ct_steps(q0, tbl, ka + 1) matches Err(_));
        lemma_steps_add(q0, tbl, (ka + 1) as nat, (kb - ka - 1) as nat);
        assert((ka + 1) as nat + (kb - ka - 1) as nat == kb);
        assert(scan_ct_steps(q0, tbl, kb) matches Err(_));
        assert(false);
    }
}


/// The cyclic-bindings error needs progress: it satisfies the contract only
/// when one scan per table entry plus one all succeeded. A single scan never
/// reports it, so a template whose scan fails (a missing binding, a missing
/// closing brace) can only be reported with that scan's own error.
pub proof fn lemma_cycle_error_needs_progress(query: Seq<char>, tbl: Seq<(Seq<char>, Seq<char>)>)
    requires
        ct_expansion_err(query, tbl, SpecExpandError::CyclicCompileTimeBindings),
    ensures
        scan_ct_steps(seq![query], tbl, tbl.len() + 1) is Ok,
{
    let (k, c): (nat, Seq<Seq<char>>) = choose|k: nat, c: Seq<Seq<char>>|
        #![trigger scan_ct_steps(seq![query], tbl, k), any_ct_marker(c)]
        scan_ct_steps(seq![query], tbl, k) == Ok::<_, SpecExpandError>(c) && any_ct_marker(c) && ((
        k <= tbl.len() && scan_ct_fragments(c, tbl) == Err::<Seq<Seq<char>>, _>(
            SpecExpandError::CyclicCompileTimeBindings,
        )) || k == tbl.len() + 1);
    if k <= tbl.len() && scan_ct_fragments(c, tbl) == Err::<Seq<Seq<char>>, _>(
        SpecExpandError::CyclicCompileTimeBindings,
    ) {
        lemma_scan_ct_fragments_no_cycle(c, tbl);
        assert(false);
    }
    assert(k == tbl.len() + 1);
}

} // verus!
