//! Legend-label synthesis: purely textual, ordered substitution.
//!
//! A label starts from the literal text of the plotted expression. A fixed
//! first substitution turns the closure-parameter marker `"|x| "` into
//! `"y = "`; the caller's substitutions then replace each named parameter
//! with its rendered value, sequentially and in the order given. Each
//! substitution is a single left-to-right pass over the text, replacing
//! non-overlapping occurrences.

use vstd::prelude::*;

verus! {

/// The pattern `p` occurs in `t` starting at position `i`.
pub open spec fn match_at(t: Seq<char>, p: Seq<char>, i: int) -> bool {
    &&& 0 <= i
    &&& i + p.len() <= t.len()
    &&& t.subrange(i, i + p.len()) == p
}

/// The pattern `p` occurs somewhere in `t`.
pub open spec fn occurs(t: Seq<char>, p: Seq<char>) -> bool {
    exists|i: int| match_at(t, p, i)
}

/// One substitution pass: scanning `t` left to right, each occurrence of the
/// non-empty pattern `p` is replaced by `r`; after a replacement the scan
/// resumes past the replaced occurrence, so matches never overlap and text
/// introduced by `r` is not rescanned. An empty pattern matches nothing.
pub open spec fn replaced(t: Seq<char>, p: Seq<char>, r: Seq<char>) -> Seq<char>
    decreases t.len(),
{
    if p.len() == 0 || t.len() == 0 {
        t
    } else if match_at(t, p, 0) {
        r + replaced(t.skip(p.len() as int), p, r)
    } else {
        seq![t[0]] + replaced(t.skip(1), p, r)
    }
}

/// Whether the non-empty pattern `p` matches `text` at position `at`.
fn match_here(text: &Vec<char>, pattern: &Vec<char>, at: usize) -> (m: bool)
    requires
        at <= text.len(),
    ensures
        m == match_at(text@, pattern@, at as int),
{
    if pattern.len() > text.len() - at {
        return false;
    }
    let mut j: usize = 0;
    while j < pattern.len()
        invariant
            at + pattern.len() <= text.len(),
            j <= pattern.len(),
            forall|k: int| 0 <= k < j ==> text@[at + k] == pattern@[k],
        decreases pattern.len() - j,
    {
        if text[at + j] != pattern[j] {
            proof {
                if match_at(text@, pattern@, at as int) {
                    assert(text@.subrange(at as int, at + pattern@.len())[j as int]
                        == text@[at + j]);
                }
            }
            return false;
        }
        j += 1;
    }
    proof {
        assert(text@.subrange(at as int, at + pattern@.len()) =~= pattern@);
    }
    true
}

/// How one pass over the suffix of `t` that starts at `i` unfolds: a match at
/// `i` contributes the replacement and resumes past the occurrence; anything
/// else contributes the character at `i` and resumes just after it.
proof fn lemma_replaced_step(t: Seq<char>, p: Seq<char>, r: Seq<char>, i: int)
    requires
        0 <= i < t.len(),
        p.len() >= 1,
    ensures
        match_at(t, p, i) ==> replaced(t.skip(i), p, r)
            == r + replaced(t.skip(i + p.len()), p, r),
        !match_at(t, p, i) ==> replaced(t.skip(i), p, r)
            == seq![t[i]] + replaced(t.skip(i + 1), p, r),
{
    let s = t.skip(i);
    if match_at(t, p, i) {
        assert(s.subrange(0, p.len() as int) =~= t.subrange(i, i + p.len()));
        assert(match_at(s, p, 0));
        assert(s.skip(p.len() as int) =~= t.skip(i + p.len()));
    } else {
        if match_at(s, p, 0) {
            assert(t.subrange(i, i + p.len()) =~= s.subrange(0, p.len() as int));
            assert(match_at(t, p, i));
        }
        assert(s[0] == t[i]);
        assert(s.skip(1) =~= t.skip(i + 1));
        assert(seq![s[0]] =~= seq![t[i]]);
    }
}

/// One substitution pass over `text`: every occurrence of `pattern` is
/// replaced by `replacement`, scanning left to right without overlap and
/// without rescanning replaced text. With an empty pattern the text is
/// returned unchanged.
pub fn replace_all(text: &Vec<char>, pattern: &Vec<char>, replacement: &Vec<char>) -> (out: Vec<
    char,
>)
    ensures
        out@ == replaced(text@, pattern@, replacement@),
{
    let mut out: Vec<char> = Vec::new();
    if pattern.len() == 0 {
        let mut i: usize = 0;
        while i < text.len()
            invariant
                i <= text.len(),
                out@ =~= text@.take(i as int),
            decreases text.len() - i,
        {
            out.push(text[i]);
            i = i + 1;
        }
        proof {
            assert(text@.take(text@.len() as int) =~= text@);
        }
        return out;
    }
    let mut i: usize = 0;
    proof {
        assert(text@.skip(0) =~= text@);
    }
    while i < text.len()
        invariant
            i <= text.len(),
            pattern@.len() >= 1,
            replaced(text@, pattern@, replacement@) == out@ + replaced(
                text@.skip(i as int),
                pattern@,
                replacement@,
            ),
        decreases text.len() - i,
    {
        let ghost prev_out = out@;
        if match_here(text, pattern, i) {
            let mut j: usize = 0;
            while j < replacement.len()
                invariant
                    j <= replacement.len(),
                    out@ =~= prev_out + replacement@.take(j as int),
                decreases replacement.len() - j,
            {
                out.push(replacement[j]);
                j = j + 1;
            }
            proof {
                lemma_replaced_step(text@, pattern@, replacement@, i as int);
                assert(replacement@.take(replacement@.len() as int) =~= replacement@);
                assert(out@ + replaced(text@.skip(i + pattern@.len()), pattern@, replacement@)
                    =~= prev_out + replaced(text@.skip(i as int), pattern@, replacement@));
            }
            i = i + pattern.len();
        } else {
            out.push(text[i]);
            proof {
                lemma_replaced_step(text@, pattern@, replacement@, i as int);
                assert(out@ + replaced(text@.skip(i + 1), pattern@, replacement@)
                    =~= prev_out + replaced(text@.skip(i as int), pattern@, replacement@));
            }
            i = i + 1;
        }
    }
    proof {
        assert(text@.skip(text@.len() as int) =~= Seq::<char>::empty());
        assert(out@ + replaced(Seq::<char>::empty(), pattern@, replacement@) =~= out@);
    }
    out
}

/// The closure-parameter marker that opens a plotted expression's text.
pub open spec fn marker() -> Seq<char> {
    seq!['|', 'x', '|', ' ']
}

/// What the marker is rewritten to in a legend label.
pub open spec fn marker_replacement() -> Seq<char> {
    seq!['y', ' ', '=', ' ']
}

/// The views of a list of (pattern, value) substitution pairs.
pub open spec fn subs_views(subs: Seq<(Vec<char>, Vec<char>)>) -> Seq<(Seq<char>, Seq<char>)> {
    subs.map_values(|s: (Vec<char>, Vec<char>)| (s.0@, s.1@))
}

/// The substitutions applied to `t` sequentially, in the order given: each
/// pass runs over the result of the previous one, so a later substitution can
/// affect text that an earlier one introduced, and never the other way round.
pub open spec fn substituted(t: Seq<char>, subs: Seq<(Seq<char>, Seq<char>)>) -> Seq<char>
    decreases subs.len(),
{
    if subs.len() == 0 {
        t
    } else {
        substituted(replaced(t, subs[0].0, subs[0].1), subs.skip(1))
    }
}

/// The legend label for an expression's text: the marker pass first, then
/// the caller's substitutions in order.
pub open spec fn label_of(expr_text: Seq<char>, subs: Seq<(Seq<char>, Seq<char>)>) -> Seq<char> {
    substituted(replaced(expr_text, marker(), marker_replacement()), subs)
}

fn marker_text() -> (v: Vec<char>)
    ensures
        v@ == marker(),
{
    let mut v: Vec<char> = Vec::new();
    v.push('|');
    v.push('x');
    v.push('|');
    v.push(' ');
    proof {
        assert(v@ =~= marker());
    }
    v
}

fn marker_replacement_text() -> (v: Vec<char>)
    ensures
        v@ == marker_replacement(),
{
    let mut v: Vec<char> = Vec::new();
    v.push('y');
    v.push(' ');
    v.push('=');
    v.push(' ');
    proof {
        assert(v@ =~= marker_replacement());
    }
    v
}

/// Synthesize the legend label for a plotted function: rewrite the closure
/// marker `"|x| "` to `"y = "`, then apply each (pattern, value) substitution
/// in the order given, each as one left-to-right pass.
pub fn synthesize_label(expr_text: &Vec<char>, substitutions: &Vec<(Vec<char>, Vec<char>)>) -> (out:
    Vec<char>)
    ensures
        out@ == label_of(expr_text@, subs_views(substitutions@)),
{
    let ghost views = subs_views(substitutions@);
    let m = marker_text();
    let mr = marker_replacement_text();
    let mut out = replace_all(expr_text, &m, &mr);
    let mut k: usize = 0;
    proof {
        assert(views.skip(0) =~= views);
    }
    while k < substitutions.len()
        invariant
            k <= substitutions.len(),
            views == subs_views(substitutions@),
            label_of(expr_text@, views) == substituted(out@, views.skip(k as int)),
        decreases substitutions.len() - k,
    {
        let next = replace_all(&out, &substitutions[k].0, &substitutions[k].1);
        proof {
            let rest = views.skip(k as int);
            assert(rest[0] == views[k as int]);
            assert(rest.skip(1) =~= views.skip(k + 1));
            assert(substituted(out@, rest) == substituted(next@, views.skip(k + 1)));
        }
        out = next;
        k = k + 1;
    }
    proof {
        assert(views.skip(views.len() as int) =~= Seq::<(Seq<char>, Seq<char>)>::empty());
    }
    out
}

/// A substitution pass whose pattern occurs nowhere in the text (or is
/// empty) returns the text unchanged: absent matches are no-ops.
pub proof fn lemma_replaced_absent(t: Seq<char>, p: Seq<char>, r: Seq<char>)
    requires
        p.len() == 0 || !occurs(t, p),
    ensures
        replaced(t, p, r) == t,
    decreases t.len(),
{
    if p.len() == 0 || t.len() == 0 {
    } else {
        assert(!match_at(t, p, 0));
        assert forall|i: int| !match_at(t.skip(1), p, i) by {
            if match_at(t.skip(1), p, i) {
                assert(t.subrange(i + 1, i + 1 + p.len())
                    =~= t.skip(1).subrange(i, i + p.len()));
                assert(match_at(t, p, i + 1));
            }
        }
        lemma_replaced_absent(t.skip(1), p, r);
        assert(replaced(t, p, r) =~= t);
    }
}

/// Label synthesis is the identity on any text in which neither the closure
/// marker nor any of the substitution patterns occurs: with nothing to match,
/// the output equals the input.
pub proof fn lemma_label_identity(expr_text: Seq<char>, subs: Seq<(Seq<char>, Seq<char>)>)
    requires
        !occurs(expr_text, marker()),
        forall|k: int| 0 <= k < subs.len()
            ==> !occurs(expr_text, (#[trigger] subs[k]).0) || subs[k].0.len() == 0,
    ensures
        label_of(expr_text, subs) == expr_text,
{
    lemma_replaced_absent(expr_text, marker(), marker_replacement());
    lemma_substituted_absent(expr_text, subs);
}

/// Substitutions compose sequentially: running two substitution lists back to
/// back equals running the second list on the result of the first. In
/// particular an earlier substitution is finished before a later one runs, so
/// a later substitution that introduces an earlier pattern cannot re-trigger
/// it.
pub proof fn lemma_substituted_append(
    t: Seq<char>,
    first: Seq<(Seq<char>, Seq<char>)>,
    second: Seq<(Seq<char>, Seq<char>)>,
)
    ensures
        substituted(t, first + second) == substituted(substituted(t, first), second),
    decreases first.len(),
{
    if first.len() == 0 {
        assert(first + second =~= second);
    } else {
        let stepped = replaced(t, first[0].0, first[0].1);
        assert((first + second)[0] == first[0]);
        assert((first + second).skip(1) =~= first.skip(1) + second);
        lemma_substituted_append(stepped, first.skip(1), second);
    }
}

proof fn lemma_substituted_absent(t: Seq<char>, subs: Seq<(Seq<char>, Seq<char>)>)
    requires
        forall|k: int| 0 <= k < subs.len()
            ==> !occurs(t, (#[trigger] subs[k]).0) || subs[k].0.len() == 0,
    ensures
        substituted(t, subs) == t,
    decreases subs.len(),
{
    if subs.len() > 0 {
        lemma_replaced_absent(t, subs[0].0, subs[0].1);
        assert forall|k: int| 0 <= k < subs.skip(1).len() implies
            !occurs(t, (#[trigger] subs.skip(1)[k]).0) || subs.skip(1)[k].0.len() == 0 by {
            assert(subs.skip(1)[k] == subs[k + 1]);
        }
        lemma_substituted_absent(t, subs.skip(1));
    }
}

} // verus!
