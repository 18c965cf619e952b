//! Character-sequence helpers shared by the pipeline stages.

use vstd::prelude::*;

verus! {

/// Index of the first occurrence of `c` in `s`, or `-1` if `c` does not occur.
pub open spec fn first_index_of(s: Seq<char>, c: char) -> int
    decreases s.len(),
{
    if s.len() == 0 {
        -1
    } else if s[0] == c {
        0
    } else {
        let r = first_index_of(s.skip(1), c);
        if r < 0 {
            -1
        } else {
            r + 1
        }
    }
}

pub proof fn lemma_first_index_of(s: Seq<char>, c: char)
    ensures
        first_index_of(s, c) >= 0 ==> {
            &&& first_index_of(s, c) < s.len()
            &&& s[first_index_of(s, c)] == c
            &&& forall|j: int| 0 <= j < first_index_of(s, c) ==> s[j] != c
        },
        first_index_of(s, c) < 0 ==> forall|j: int| 0 <= j < s.len() ==> s[j] != c,
    decreases s.len(),
{
    if s.len() != 0 && s[0] != c {
        lemma_first_index_of(s.skip(1), c);
        let r = first_index_of(s.skip(1), c);
        if r >= 0 {
            assert(s[r + 1] == s.skip(1)[r]);
            assert forall|j: int| 0 <= j < r + 1 implies s[j] != c by {
                if j > 0 {
                    assert(s[j] == s.skip(1)[j - 1]);
                }
            }
        } else {
            assert forall|j: int| 0 <= j < s.len() implies s[j] != c by {
                if j > 0 {
                    assert(s[j] == s.skip(1)[j - 1]);
                }
            }
        }
    }
}

/// First occurrence of `c` in `v` at or after `from`, as an offset from `from`.
pub fn find_char_from(v: &Vec<char>, from: usize, c: char) -> (r: Option<usize>)
    requires
        from <= v@.len(),
    ensures
        match r {
            Some(p) => p == first_index_of(v@.skip(from as int), c),
            None => first_index_of(v@.skip(from as int), c) < 0,
        },
{
    let ghost s = v@.skip(from as int);
    let mut i: usize = from;
    while i < v.len()
        invariant
            from <= i <= v@.len(),
            s == v@.skip(from as int),
            forall|j: int| 0 <= j < i - from ==> s[j] != c,
        decreases v@.len() - i,
    {
        if v[i] == c {
            proof {
                lemma_first_index_of_prefix(s, c, i - from);
            }
            return Some(i - from);
        }
        i = i + 1;
    }
    proof {
        lemma_first_index_of(s, c);
        if first_index_of(s, c) >= 0 {
            assert(s[first_index_of(s, c)] != c);
        }
    }
    None
}

/// If every character before `p` differs from `c` and `s[p] == c`, then `p` is
/// the first occurrence.
pub proof fn lemma_first_index_of_prefix(s: Seq<char>, c: char, p: int)
    requires
        0 <= p < s.len(),
        s[p] == c,
        forall|j: int| 0 <= j < p ==> s[j] != c,
    ensures
        first_index_of(s, c) == p,
    decreases p,
{
    if p > 0 {
        lemma_first_index_of_prefix(s.skip(1), c, p - 1);
    }
}

/// Copy of `v[a..b]`.
pub fn subvec(v: &Vec<char>, a: usize, b: usize) -> (r: Vec<char>)
    requires
        a <= b <= v@.len(),
    ensures
        r@ == v@.subrange(a as int, b as int),
{
    let mut r: Vec<char> = Vec::new();
    let mut i: usize = a;
    while i < b
        invariant
            a <= i <= b <= v@.len(),
            r@ == v@.subrange(a as int, i as int),
        decreases b - i,
    {
        r.push(v[i]);
        assert(r@ =~= v@.subrange(a as int, i + 1 as int));
        i = i + 1;
    }
    r
}

/// The deep view of a text is its view.
pub broadcast proof fn lemma_text_deep_view(v: Vec<char>)
    ensures
        #[trigger] v.deep_view() == v@,
{
    assert(v.deep_view() =~= v@);
}

/// Fresh copy of a text.
pub fn clone_text(v: &Vec<char>) -> (r: Vec<char>)
    ensures
        r@ == v@,
{
    let r = subvec(v, 0, v.len());
    proof {
        assert(r@ =~= v@);
    }
    r
}

/// Fresh copy of a list of texts.
#[verifier::loop_isolation(false)]
pub fn clone_texts(v: &Vec<Vec<char>>) -> (r: Vec<Vec<char>>)
    ensures
        r.deep_view() == v.deep_view(),
{
    broadcast use lemma_text_deep_view;

    let mut r: Vec<Vec<char>> = Vec::new();
    let mut i: usize = 0;
    while i < v.len()
        invariant
            i <= v@.len(),
            r.deep_view() == v.deep_view().take(i as int),
        decreases v@.len() - i,
    {
        r.push(clone_text(&v[i]));
        proof {
            assert(r.deep_view() =~= v.deep_view().take(i + 1));
        }
        i = i + 1;
    }
    proof {
        assert(v.deep_view().take(i as int) =~= v.deep_view());
    }
    r
}

/// Fresh copy of a list of text pairs.
#[verifier::loop_isolation(false)]
pub fn clone_pairs(v: &Vec<(Vec<char>, Vec<char>)>) -> (r: Vec<(Vec<char>, Vec<char>)>)
    ensures
        r.deep_view() == v.deep_view(),
{
    broadcast use lemma_text_deep_view;

    let mut r: Vec<(Vec<char>, Vec<char>)> = Vec::new();
    let mut i: usize = 0;
    while i < v.len()
        invariant
            i <= v@.len(),
            r.deep_view() == v.deep_view().take(i as int),
        decreases v@.len() - i,
    {
        r.push((clone_text(&v[i].0), clone_text(&v[i].1)));
        proof {
            assert(r.deep_view() =~= v.deep_view().take(i + 1));
        }
        i = i + 1;
    }
    proof {
        assert(v.deep_view().take(i as int) =~= v.deep_view());
    }
    r
}

/// Appends copies of `src`'s texts to `dst`.
#[verifier::loop_isolation(false)]
pub fn append_texts(dst: &mut Vec<Vec<char>>, src: &Vec<Vec<char>>)
    ensures
        final(dst).deep_view() == old(dst).deep_view() + src.deep_view(),
{
    broadcast use lemma_text_deep_view;

    let ghost dst0 = dst.deep_view();
    let mut i: usize = 0;
    while i < src.len()
        invariant
            i <= src@.len(),
            dst.deep_view() == dst0 + src.deep_view().take(i as int),
        decreases src@.len() - i,
    {
        let ghost pre = dst.deep_view();
        dst.push(clone_text(&src[i]));
        proof {
            assert forall|k: int| 0 <= k < pre.len() implies #[trigger] dst.deep_view()[k]
                == pre[k] by {
                assert(dst.deep_view()[k] == dst@[k].deep_view());
            }
            assert(dst@[dst@.len() - 1].deep_view() == src.deep_view()[i as int]);
            assert(src.deep_view().take(i + 1) =~= src.deep_view().take(i as int) + seq![
                src.deep_view()[i as int],
            ]);
            assert(dst.deep_view() =~= dst0 + src.deep_view().take(i + 1));
        }
        i = i + 1;
    }
    proof {
        assert(dst0 + src.deep_view().take(i as int) =~= dst0 + src.deep_view());
    }
}

/// Appends copies of `src`'s pairs to `dst`.
#[verifier::loop_isolation(false)]
pub fn append_pairs(dst: &mut Vec<(Vec<char>, Vec<char>)>, src: &Vec<(Vec<char>, Vec<char>)>)
    ensures
        final(dst).deep_view() == old(dst).deep_view() + src.deep_view(),
{
    broadcast use lemma_text_deep_view;

    let ghost dst0 = dst.deep_view();
    let mut i: usize = 0;
    while i < src.len()
        invariant
            i <= src@.len(),
            dst.deep_view() == dst0 + src.deep_view().take(i as int),
        decreases src@.len() - i,
    {
        let ghost pre = dst.deep_view();
        dst.push((clone_text(&src[i].0), clone_text(&src[i].1)));
        proof {
            assert forall|k: int| 0 <= k < pre.len() implies #[trigger] dst.deep_view()[k]
                == pre[k] by {
                assert(dst.deep_view()[k] == dst@[k].deep_view());
            }
            assert(dst@[dst@.len() - 1].deep_view() == src.deep_view()[i as int]);
            assert(src.deep_view().take(i + 1) =~= src.deep_view().take(i as int) + seq![
                src.deep_view()[i as int],
            ]);
            assert(dst.deep_view() =~= dst0 + src.deep_view().take(i + 1));
        }
        i = i + 1;
    }
    proof {
        assert(dst0 + src.deep_view().take(i as int) =~= dst0 + src.deep_view());
    }
}

/// Character-wise equality of two texts.
pub fn text_eq(a: &Vec<char>, b: &Vec<char>) -> (r: bool)
    ensures
        r == (a@ == b@),
{
    if a.len() != b.len() {
        assert(a@ != b@);
        return false;
    }
    let mut i: usize = 0;
    while i < a.len()
        invariant
            i <= a@.len(),
            a@.len() == b@.len(),
            forall|j: int| 0 <= j < i ==> a@[j] == b@[j],
        decreases a@.len() - i,
    {
        if a[i] != b[i] {
            return false;
        }
        i = i + 1;
    }
    proof {
        assert(a@ =~= b@);
    }
    true
}

} // verus!
