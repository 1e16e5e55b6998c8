use vstd::prelude::*;
use vstd::utf8::{encode_scalar, encode_utf8};

use crate::lines::{file_lines, is_plain_line, keep, lemma_file_lines_render, render, scan, strip_cr, LINE_FEED};
use crate::normalize::{is_normal_form, lemma_normal_form, normal_form, strictly_sorted};
use crate::order::lemma_lex_irreflexive;
use crate::policy::{answer_step, missing_file_step, CreationPolicy, MissingFileStep, NotFoundError};
use crate::reconcile::{
    final_lines, is_changed, kept_additions, original_lines, resulting_content, working_lines,
};

verus! {

proof fn lemma_scan_lines(text: Seq<u8>)
    ensures
        forall|i: int| 0 <= i < scan(text).0.len() ==> (#[trigger] scan(text).0[i]).len() > 0
            && !scan(text).0[i].contains(LINE_FEED),
        !scan(text).1.contains(LINE_FEED),
    decreases text.len(),
{
    if text.len() > 0 {
        let p = text.drop_last();
        lemma_scan_lines(p);
        let (done, cur) = scan(p);
        if text.last() == LINE_FEED {
            let s = strip_cr(cur);
            assert(!s.contains(LINE_FEED)) by {
                if s.contains(LINE_FEED) {
                    let k = choose|k: int| 0 <= k < s.len() && s[k] == LINE_FEED;
                    assert(cur[k] == LINE_FEED);
                }
            }
            let d = done + keep(s);
            assert forall|i: int| 0 <= i < d.len() implies (#[trigger] d[i]).len() > 0 && !d[i].contains(LINE_FEED) by {
                if i >= done.len() {
                    assert(d[i] == s);
                }
            }
            assert(!Seq::<u8>::empty().contains(LINE_FEED));
        } else {
            let c = cur.push(text.last());
            assert(!c.contains(LINE_FEED)) by {
                if c.contains(LINE_FEED) {
                    let k = choose|k: int| 0 <= k < c.len() && c[k] == LINE_FEED;
                    if k < cur.len() {
                        assert(cur[k] == LINE_FEED);
                    }
                }
            }
        }
    }
}

/// Each line of a text is non-empty and holds no line feed.
pub proof fn lemma_file_lines_shape(text: Seq<u8>)
    ensures
        forall|i: int| 0 <= i < file_lines(text).len() ==> (#[trigger] file_lines(text)[i]).len() > 0
            && !file_lines(text)[i].contains(LINE_FEED),
{
    lemma_scan_lines(text);
    let f = file_lines(text);
    assert forall|i: int| 0 <= i < f.len() implies (#[trigger] f[i]).len() > 0 && !f[i].contains(LINE_FEED) by {
        if i >= scan(text).0.len() {
            assert(f[i] == scan(text).1);
        }
    }
}

/// The UTF-8 encoding of a non-empty text is not empty.
pub proof fn lemma_encode_nonempty(s: Seq<char>)
    ensures
        s.len() > 0 <==> encode_utf8(s).len() > 0,
{
    if s.len() > 0 {
        assert(encode_scalar(s[0] as u32).len() >= 1);
    }
}

/// Each kept addition is non-empty, and each non-empty addition is kept.
pub proof fn lemma_kept_additions(adds: Seq<Seq<char>>)
    ensures
        forall|i: int| 0 <= i < kept_additions(adds).len() ==> (#[trigger] kept_additions(adds)[i]).len() > 0,
        forall|i: int| 0 <= i < adds.len() && adds[i].len() > 0 ==> kept_additions(adds).contains(
            encode_utf8(#[trigger] adds[i]),
        ),
    decreases adds.len(),
{
    if adds.len() > 0 {
        let p = adds.drop_last();
        lemma_kept_additions(p);
        let k = kept_additions(p);
        let a = adds.last();
        lemma_encode_nonempty(a);
        assert forall|i: int| 0 <= i < adds.len() && adds[i].len() > 0 implies kept_additions(adds).contains(
            encode_utf8(#[trigger] adds[i]),
        ) by {
            let e = encode_utf8(adds[i]);
            if i < p.len() {
                assert(p[i] == adds[i]);
                assert(k.contains(e));
                let m = choose|m: int| 0 <= m < k.len() && k[m] == e;
                assert(kept_additions(adds)[m] == e);
            } else {
                assert(kept_additions(adds) == k.push(e));
                assert(kept_additions(adds)[k.len() as int] == e);
            }
        }
    }
}

/// No line of the result is empty: empty lines of the file and empty additions never
/// reach it.
pub proof fn law_no_empty_line(text: Seq<u8>, adds: Seq<Seq<char>>)
    ensures
        forall|i: int| 0 <= i < final_lines(text, adds).len() ==> (#[trigger] final_lines(text, adds)[i]).len() > 0,
{
    let w = working_lines(text, adds);
    let n = final_lines(text, adds);
    lemma_normal_form(n, w);
    lemma_file_lines_shape(text);
    lemma_kept_additions(adds);
    assert forall|i: int| 0 <= i < n.len() implies (#[trigger] n[i]).len() > 0 by {
        assert(n.contains(n[i]));
        assert(w.contains(n[i]));
        let k = choose|k: int| 0 <= k < w.len() && w[k] == n[i];
        if k >= original_lines(text).len() {
            assert(w[k] == kept_additions(adds)[k - original_lines(text).len()]);
        }
    }
}

/// The result is strictly ascending; read back from the file after reconciling, it is
/// strictly ascending too, given that every line to write is a plain line.
pub proof fn law_sorted_unique(text: Seq<u8>, adds: Seq<Seq<char>>)
    requires
        forall|l: Seq<u8>| #[trigger] working_lines(text, adds).contains(l) ==> is_plain_line(l),
    ensures
        strictly_sorted(final_lines(text, adds)),
        strictly_sorted(file_lines(resulting_content(text, adds))),
{
    let w = working_lines(text, adds);
    let n = final_lines(text, adds);
    lemma_normal_form(n, w);
    if is_changed(text, adds) {
        assert forall|i: int| 0 <= i < n.len() implies is_plain_line(#[trigger] n[i]) by {
            assert(n.contains(n[i]));
            assert(w.contains(n[i]));
        }
        lemma_file_lines_render(n);
    }
}

/// Every non-empty addition is in the result, exactly once.
pub proof fn law_additions_honored(text: Seq<u8>, adds: Seq<Seq<char>>)
    ensures
        forall|i: int| 0 <= i < adds.len() && adds[i].len() > 0 ==> final_lines(text, adds).contains(
            encode_utf8(#[trigger] adds[i]),
        ),
        forall|i: int, j: int|
            0 <= i < final_lines(text, adds).len() && 0 <= j < final_lines(text, adds).len()
                && #[trigger] final_lines(text, adds)[i] == #[trigger] final_lines(text, adds)[j] ==> i == j,
{
    let w = working_lines(text, adds);
    let n = final_lines(text, adds);
    let o = original_lines(text);
    let k = kept_additions(adds);
    lemma_normal_form(n, w);
    lemma_kept_additions(adds);
    assert forall|i: int| 0 <= i < adds.len() && adds[i].len() > 0 implies n.contains(encode_utf8(#[trigger] adds[i])) by {
        let e = encode_utf8(adds[i]);
        assert(k.contains(e));
        let m = choose|m: int| 0 <= m < k.len() && k[m] == e;
        assert(w[o.len() + m] == e);
        assert(w.contains(e));
    }
    assert forall|i: int, j: int| 0 <= i < n.len() && 0 <= j < n.len() && #[trigger] n[i] == #[trigger] n[j] implies i == j by {
        if i != j {
            lemma_lex_irreflexive(n[i]);
        }
    }
}

/// Reconciling the file that a first run left, with the same additions, changes nothing:
/// the second run reports no change and the content stays as the first run left it.
/// This holds where every line to write is a plain line.
pub proof fn law_idempotent(text: Seq<u8>, adds: Seq<Seq<char>>)
    requires
        forall|l: Seq<u8>| #[trigger] working_lines(text, adds).contains(l) ==> is_plain_line(l),
    ensures
        !is_changed(resulting_content(text, adds), adds),
        resulting_content(resulting_content(text, adds), adds) == resulting_content(text, adds),
        final_lines(resulting_content(text, adds), adds) == final_lines(text, adds),
{
    let w = working_lines(text, adds);
    let n = final_lines(text, adds);
    let k = kept_additions(adds);
    lemma_normal_form(n, w);
    if is_changed(text, adds) {
        let t2 = render(n);
        assert forall|i: int| 0 <= i < n.len() implies is_plain_line(#[trigger] n[i]) by {
            assert(n.contains(n[i]));
            assert(w.contains(n[i]));
        }
        lemma_file_lines_render(n);
        let w2 = n + k;
        assert(working_lines(t2, adds) == w2);
        assert forall|x: Seq<u8>| #![trigger n.contains(x)] #![trigger w2.contains(x)] n.contains(x) <==> w2.contains(x) by {
            if n.contains(x) {
                let m = choose|m: int| 0 <= m < n.len() && n[m] == x;
                assert(w2[m] == x);
            }
            if w2.contains(x) {
                let m = choose|m: int| 0 <= m < w2.len() && w2[m] == x;
                if m >= n.len() {
                    assert(k[m - n.len()] == x);
                    assert(w[original_lines(text).len() + m - n.len()] == x);
                    assert(w.contains(x));
                } else {
                    assert(n[m] == x);
                }
            }
        }
        assert(is_normal_form(n, w2));
        lemma_normal_form(n, w2);
    }
}

/// For a file that does not exist: `AlwaysCreate` starts from an empty file, whose result
/// holds exactly the sorted, distinct additions and is written only if there are some;
/// `NeverCreate` fails; `Prompt` asks, goes on as `AlwaysCreate` on a yes and fails on a no.
pub proof fn law_creation_policy(adds: Seq<Seq<char>>)
    ensures
        missing_file_step(CreationPolicy::AlwaysCreate) == MissingFileStep::StartEmpty,
        missing_file_step(CreationPolicy::NeverCreate) == MissingFileStep::Fail(NotFoundError::CreationNotAllowed),
        missing_file_step(CreationPolicy::Prompt) == MissingFileStep::AskUser,
        answer_step(true) == MissingFileStep::StartEmpty,
        answer_step(false) == MissingFileStep::Fail(NotFoundError::CreationDeclined),
        final_lines(Seq::empty(), adds) == normal_form(kept_additions(adds)),
        is_changed(Seq::empty(), adds) <==> kept_additions(adds).len() > 0,
        is_changed(Seq::empty(), adds) ==> resulting_content(Seq::empty(), adds) == render(
            normal_form(kept_additions(adds)),
        ),
{
    let e = Seq::<u8>::empty();
    let k = kept_additions(adds);
    assert(original_lines(e) =~= Seq::<Seq<u8>>::empty());
    assert(working_lines(e, adds) =~= k);
    let n = normal_form(k);
    lemma_normal_form(n, k);
    if k.len() > 0 {
        assert(k.contains(k[0]));
        assert(n.contains(k[0]));
    }
    if n.len() > 0 {
        assert(n.contains(n[0]));
        assert(k.contains(n[0]));
    } else {
        assert(n =~= original_lines(e));
    }
}

} // verus!
