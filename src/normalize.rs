use vstd::prelude::*;

use crate::order::{lemma_lex_irreflexive, lemma_lex_total, lemma_lex_transitive, lex_lt, line_eq, line_less};

verus! {

/// The lines held by a vector, as byte sequences.
pub open spec fn lines_of(v: Seq<Vec<u8>>) -> Seq<Seq<u8>> {
    v.map_values(|l: Vec<u8>| l@)
}

/// Lines in strictly ascending order, hence with no line twice.
pub open spec fn strictly_sorted(s: Seq<Seq<u8>>) -> bool {
    forall|i: int, j: int| 0 <= i < j < s.len() ==> lex_lt(#[trigger] s[i], #[trigger] s[j])
}

/// Two sequences of lines hold the same lines, ignoring order and repetition.
pub open spec fn same_lines(a: Seq<Seq<u8>>, b: Seq<Seq<u8>>) -> bool {
    forall|x: Seq<u8>| #![trigger a.contains(x)] #![trigger b.contains(x)] a.contains(x) <==> b.contains(x)
}

/// `r` is the normal form of `s`: the distinct lines of `s`, in ascending order.
pub open spec fn is_normal_form(r: Seq<Seq<u8>>, s: Seq<Seq<u8>>) -> bool {
    strictly_sorted(r) && same_lines(r, s)
}

/// The normal form of a sequence of lines: sorted, with duplicates removed.
pub open spec fn normal_form(s: Seq<Seq<u8>>) -> Seq<Seq<u8>> {
    choose|r: Seq<Seq<u8>>| is_normal_form(r, s)
}

/// `x` put into the sorted sequence `r` at its place, unless it is there already.
pub open spec fn insert_line(r: Seq<Seq<u8>>, x: Seq<u8>) -> Seq<Seq<u8>>
    decreases r.len(),
{
    if r.len() == 0 {
        seq![x]
    } else if r[0] == x {
        r
    } else if lex_lt(x, r[0]) {
        seq![x] + r
    } else {
        seq![r[0]] + insert_line(r.drop_first(), x)
    }
}

proof fn lemma_insert_line(r: Seq<Seq<u8>>, x: Seq<u8>)
    requires
        strictly_sorted(r),
    ensures
        strictly_sorted(insert_line(r, x)),
        forall|y: Seq<u8>| #[trigger] insert_line(r, x).contains(y) <==> r.contains(y) || y == x,
    decreases r.len(),
{
    let t = insert_line(r, x);
    if r.len() == 0 {
        assert(t[0] == x);
    } else if r[0] == x {
        assert(r.contains(x));
    } else if lex_lt(x, r[0]) {
        assert forall|i: int, j: int| 0 <= i < j < t.len() implies lex_lt(#[trigger] t[i], #[trigger] t[j]) by {
            if i == 0 {
                if j > 1 {
                    assert(lex_lt(r[0], r[j - 1]));
                    lemma_lex_transitive(x, r[0], r[j - 1]);
                }
            } else {
                assert(t[i] == r[i - 1] && t[j] == r[j - 1]);
            }
        }
        assert forall|y: Seq<u8>| #[trigger] t.contains(y) <==> r.contains(y) || y == x by {
            if t.contains(y) {
                let k = choose|k: int| 0 <= k < t.len() && t[k] == y;
                if k > 0 {
                    assert(r[k - 1] == y);
                }
            }
            if r.contains(y) {
                let k = choose|k: int| 0 <= k < r.len() && r[k] == y;
                assert(t[k + 1] == y);
            }
            if y == x {
                assert(t[0] == y);
            }
        }
    } else {
        let rest = r.drop_first();
        assert forall|i: int, j: int| 0 <= i < j < rest.len() implies lex_lt(#[trigger] rest[i], #[trigger] rest[j]) by {
            assert(rest[i] == r[i + 1] && rest[j] == r[j + 1]);
        }
        lemma_insert_line(rest, x);
        let u = insert_line(rest, x);
        assert(t == seq![r[0]] + u);
        lemma_lex_total(x, r[0]);
        assert forall|k: int| 0 <= k < u.len() implies lex_lt(r[0], #[trigger] u[k]) by {
            assert(u.contains(u[k]));
            if rest.contains(u[k]) {
                let m = choose|m: int| 0 <= m < rest.len() && rest[m] == u[k];
                assert(r[m + 1] == u[k]);
            }
        }
        assert forall|i: int, j: int| 0 <= i < j < t.len() implies lex_lt(#[trigger] t[i], #[trigger] t[j]) by {
            if i == 0 {
                assert(t[j] == u[j - 1]);
            } else {
                assert(t[i] == u[i - 1] && t[j] == u[j - 1]);
            }
        }
        assert forall|y: Seq<u8>| #[trigger] t.contains(y) <==> r.contains(y) || y == x by {
            if t.contains(y) {
                let k = choose|k: int| 0 <= k < t.len() && t[k] == y;
                if k > 0 {
                    assert(u[k - 1] == y);
                    assert(u.contains(y));
                    if rest.contains(y) {
                        let m = choose|m: int| 0 <= m < rest.len() && rest[m] == y;
                        assert(r[m + 1] == y);
                    }
                }
            }
            if r.contains(y) {
                let k = choose|k: int| 0 <= k < r.len() && r[k] == y;
                if k == 0 {
                    assert(t[0] == y);
                } else {
                    assert(rest[k - 1] == y);
                    assert(rest.contains(y));
                    assert(u.contains(y));
                    let m = choose|m: int| 0 <= m < u.len() && u[m] == y;
                    assert(t[m + 1] == y);
                }
            }
            if y == x {
                assert(u.contains(y));
                let m = choose|m: int| 0 <= m < u.len() && u[m] == y;
                assert(t[m + 1] == y);
            }
        }
    }
}

proof fn lemma_normal_form_exists(s: Seq<Seq<u8>>)
    ensures
        exists|r: Seq<Seq<u8>>| is_normal_form(r, s),
    decreases s.len(),
{
    if s.len() == 0 {
        let r = Seq::<Seq<u8>>::empty();
        assert(is_normal_form(r, s));
    } else {
        let p = s.drop_last();
        lemma_normal_form_exists(p);
        let r0 = choose|r: Seq<Seq<u8>>| is_normal_form(r, p);
        lemma_insert_line(r0, s.last());
        let r = insert_line(r0, s.last());
        assert(s == p.push(s.last()));
        assert forall|y: Seq<u8>| #[trigger] r.contains(y) <==> s.contains(y) by {
            if s.contains(y) {
                let k = choose|k: int| 0 <= k < s.len() && s[k] == y;
                if k < p.len() {
                    assert(p[k] == y);
                    assert(p.contains(y));
                }
            }
            if p.contains(y) {
                let k = choose|k: int| 0 <= k < p.len() && p[k] == y;
                assert(s[k] == y);
            }
        }
        assert(is_normal_form(r, s));
    }
}

/// Two sorted sequences that hold the same lines are equal.
pub proof fn lemma_sorted_unique(a: Seq<Seq<u8>>, b: Seq<Seq<u8>>)
    requires
        strictly_sorted(a),
        strictly_sorted(b),
        same_lines(a, b),
    ensures
        a == b,
    decreases a.len(),
{
    if a.len() == 0 {
        if b.len() > 0 {
            assert(b.contains(b[0]));
        }
        assert(a =~= b);
    } else {
        assert(a.contains(a[0]));
        assert(b.len() > 0);
        assert(b.contains(b[0]));
        let j = choose|j: int| 0 <= j < b.len() && b[j] == a[0];
        let i = choose|i: int| 0 <= i < a.len() && a[i] == b[0];
        if j > 0 && i > 0 {
            assert(lex_lt(b[0], b[j]) && lex_lt(a[0], a[i]));
            lemma_lex_transitive(b[0], a[0], b[0]);
            lemma_lex_irreflexive(b[0]);
        }
        assert(a[0] == b[0]);
        let ta = a.drop_first();
        let tb = b.drop_first();
        assert forall|x: Seq<u8>| #![trigger ta.contains(x)] #![trigger tb.contains(x)] ta.contains(x) <==> tb.contains(x) by {
            if ta.contains(x) {
                let k = choose|k: int| 0 <= k < ta.len() && ta[k] == x;
                assert(a[k + 1] == x);
                assert(a.contains(x));
                let m = choose|m: int| 0 <= m < b.len() && b[m] == x;
                if m == 0 {
                    lemma_lex_irreflexive(x);
                }
                assert(tb[m - 1] == x);
            }
            if tb.contains(x) {
                let k = choose|k: int| 0 <= k < tb.len() && tb[k] == x;
                assert(b[k + 1] == x);
                assert(b.contains(x));
                let m = choose|m: int| 0 <= m < a.len() && a[m] == x;
                if m == 0 {
                    lemma_lex_irreflexive(x);
                }
                assert(ta[m - 1] == x);
            }
        }
        assert forall|p: int, q: int| 0 <= p < q < ta.len() implies lex_lt(#[trigger] ta[p], #[trigger] ta[q]) by {
            assert(ta[p] == a[p + 1] && ta[q] == a[q + 1]);
        }
        assert forall|p: int, q: int| 0 <= p < q < tb.len() implies lex_lt(#[trigger] tb[p], #[trigger] tb[q]) by {
            assert(tb[p] == b[p + 1] && tb[q] == b[q + 1]);
        }
        lemma_sorted_unique(ta, tb);
        assert(a =~= seq![a[0]] + ta);
        assert(b =~= seq![b[0]] + tb);
    }
}

/// The normal form exists, and it is the only sorted sequence with the same lines.
pub proof fn lemma_normal_form(r: Seq<Seq<u8>>, s: Seq<Seq<u8>>)
    ensures
        is_normal_form(normal_form(s), s),
        is_normal_form(r, s) <==> r == normal_form(s),
{
    lemma_normal_form_exists(s);
    let n = normal_form(s);
    assert(is_normal_form(n, s));
    if is_normal_form(r, s) {
        assert forall|x: Seq<u8>| #![trigger r.contains(x)] #![trigger n.contains(x)] r.contains(x) <==> n.contains(x) by {
            if r.contains(x) {
                assert(s.contains(x));
            }
            if n.contains(x) {
                assert(s.contains(x));
            }
        }
        lemma_sorted_unique(r, normal_form(s));
    }
}

} // verus!

verus! {

/// Puts `line` into the sorted `lines` at its place, unless `lines` holds it already.
pub fn insert_sorted(lines: &mut Vec<Vec<u8>>, line: Vec<u8>)
    requires
        strictly_sorted(lines_of(old(lines)@)),
    ensures
        is_normal_form(lines_of(final(lines)@), lines_of(old(lines)@).push(line@)),
{
    let ghost before = lines_of(lines@);
    let ghost x = line@;
    let mut j: usize = 0;
    while j < lines.len()
        invariant
            lines_of(lines@) == before,
            x == line@,
            j <= before.len(),
            forall|k: int| 0 <= k < j ==> lex_lt(#[trigger] before[k], x),
        ensures
            lines_of(lines@) == before,
            j <= before.len(),
            forall|k: int| 0 <= k < j ==> lex_lt(#[trigger] before[k], x),
            j < before.len() ==> !lex_lt(before[j as int], x),
        decreases before.len() - j,
    {
        assert(lines@[j as int]@ == before[j as int]);
        if !line_less(lines[j].as_slice(), line.as_slice()) {
            break;
        }
        j = j + 1;
    }
    let ghost after = before.push(x);
    assert(j < before.len() ==> lines@[j as int]@ == before[j as int]);
    if j < lines.len() && line_eq(lines[j].as_slice(), line.as_slice()) {
        assert(before[j as int] == x);
        assert forall|y: Seq<u8>| #![trigger before.contains(y)] #![trigger after.contains(y)] before.contains(y) <==> after.contains(y) by {
            if after.contains(y) {
                let k = choose|k: int| 0 <= k < after.len() && after[k] == y;
                if k == before.len() {
                    assert(before[j as int] == y);
                } else {
                    assert(before[k] == y);
                }
            }
            if before.contains(y) {
                let k = choose|k: int| 0 <= k < before.len() && before[k] == y;
                assert(after[k] == y);
            }
        }
        return;
    }
    proof {
        if j < before.len() {
            lemma_lex_total(before[j as int], x);
        }
    }
    lines.insert(j, line);
    let ghost now = lines_of(lines@);
    assert(now =~= before.insert(j as int, x));
    assert forall|p: int, q: int| 0 <= p < q < now.len() implies lex_lt(#[trigger] now[p], #[trigger] now[q]) by {
        if q < j {
        } else if q == j {
            assert(now[p] == before[p]);
        } else if p < j {
            assert(now[p] == before[p] && now[q] == before[q - 1]);
            if q - 1 < j {
            } else {
                assert(lex_lt(x, before[q - 1])) by {
                    if q - 1 > j {
                        lemma_lex_transitive(x, before[j as int], before[q - 1]);
                    }
                }
                lemma_lex_transitive(before[p], x, before[q - 1]);
            }
        } else if p == j {
            assert(now[q] == before[q - 1]);
            if q - 1 > j {
                lemma_lex_transitive(x, before[j as int], before[q - 1]);
            }
        } else {
            assert(now[p] == before[p - 1] && now[q] == before[q - 1]);
        }
    }
    assert forall|y: Seq<u8>| #![trigger now.contains(y)] #![trigger after.contains(y)] now.contains(y) <==> after.contains(y) by {
        if after.contains(y) {
            let k = choose|k: int| 0 <= k < after.len() && after[k] == y;
            if k == before.len() {
                assert(now[j as int] == y);
            } else if k < j {
                assert(now[k] == y);
            } else {
                assert(now[k + 1] == y);
            }
        }
        if now.contains(y) {
            let k = choose|k: int| 0 <= k < now.len() && now[k] == y;
            if k == j {
                assert(after[before.len() as int] == y);
            } else if k < j {
                assert(after[k] == y);
            } else {
                assert(after[k - 1] == y);
            }
        }
    }
}

/// The distinct lines of `lines`, in ascending byte-wise order.
pub fn normalize(lines: &Vec<Vec<u8>>) -> (r: Vec<Vec<u8>>)
    ensures
        lines_of(r@) == normal_form(lines_of(lines@)),
{
    let ghost s = lines_of(lines@);
    let mut out: Vec<Vec<u8>> = Vec::new();
    let mut i: usize = 0;
    assert(s.subrange(0, 0) =~= Seq::<Seq<u8>>::empty());
    assert(lines_of(out@) =~= Seq::<Seq<u8>>::empty());
    while i < lines.len()
        invariant
            s == lines_of(lines@),
            i <= s.len(),
            is_normal_form(lines_of(out@), s.subrange(0, i as int)),
        decreases s.len() - i,
    {
        let ghost prev = lines_of(out@);
        let line = lines[i].clone();
        assert(line@ =~= s[i as int]);
        insert_sorted(&mut out, line);
        let ghost a = prev.push(s[i as int]);
        let ghost b = s.subrange(0, i + 1);
        assert(b =~= s.subrange(0, i as int).push(s[i as int]));
        assert forall|y: Seq<u8>| #![trigger lines_of(out@).contains(y)] #![trigger b.contains(y)] lines_of(out@).contains(y) <==> b.contains(y) by {
            let p = s.subrange(0, i as int);
            if a.contains(y) {
                let k = choose|k: int| 0 <= k < a.len() && a[k] == y;
                if k < prev.len() {
                    assert(prev[k] == y);
                    assert(prev.contains(y));
                    assert(p.contains(y));
                    let m = choose|m: int| 0 <= m < p.len() && p[m] == y;
                    assert(b[m] == y);
                } else {
                    assert(b[i as int] == y);
                }
            }
            if b.contains(y) {
                let k = choose|k: int| 0 <= k < b.len() && b[k] == y;
                if k < i {
                    assert(p[k] == y);
                    assert(p.contains(y));
                    assert(prev.contains(y));
                    let m = choose|m: int| 0 <= m < prev.len() && prev[m] == y;
                    assert(a[m] == y);
                } else {
                    assert(a[prev.len() as int] == y);
                }
            }
        }
        i = i + 1;
    }
    assert(s.subrange(0, i as int) =~= s);
    proof {
        lemma_normal_form(lines_of(out@), s);
    }
    out
}

} // verus!
