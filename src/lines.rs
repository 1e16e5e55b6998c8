use vstd::prelude::*;

use crate::normalize::lines_of;

verus! {

/// The line feed byte, which ends a line.
pub const LINE_FEED: u8 = 10;

/// The carriage return byte, dropped where it stands right before a line feed.
pub const CARRIAGE_RETURN: u8 = 13;

/// A segment that a line feed ended, without the carriage return before that line feed.
pub open spec fn strip_cr(seg: Seq<u8>) -> Seq<u8> {
    if seg.len() > 0 && seg.last() == CARRIAGE_RETURN {
        seg.drop_last()
    } else {
        seg
    }
}

/// A segment as the working set sees it: nothing when empty, else the segment itself.
pub open spec fn keep(seg: Seq<u8>) -> Seq<Seq<u8>> {
    if seg.len() == 0 {
        seq![]
    } else {
        seq![seg]
    }
}

/// Reads `text` from the left: the non-empty lines that a line feed has ended so far,
/// and the segment after the last line feed.
pub open spec fn scan(text: Seq<u8>) -> (Seq<Seq<u8>>, Seq<u8>)
    decreases text.len(),
{
    if text.len() == 0 {
        (seq![], seq![])
    } else {
        let (done, cur) = scan(text.drop_last());
        if text.last() == LINE_FEED {
            (done + keep(strip_cr(cur)), seq![])
        } else {
            (done, cur.push(text.last()))
        }
    }
}

/// The non-empty lines of a text, in the order they stand: split at each line feed,
/// a carriage return before a line feed dropped, an unterminated last line kept.
pub open spec fn file_lines(text: Seq<u8>) -> Seq<Seq<u8>> {
    scan(text).0 + keep(scan(text).1)
}

/// The file content for a sequence of lines: each line followed by a line feed.
pub open spec fn render(lines: Seq<Seq<u8>>) -> Seq<u8>
    decreases lines.len(),
{
    if lines.len() == 0 {
        seq![]
    } else {
        render(lines.drop_last()) + lines.last() + seq![LINE_FEED]
    }
}

/// A line that reads back as itself: not empty, without a line feed, and not ending
/// in a carriage return.
pub open spec fn is_plain_line(l: Seq<u8>) -> bool {
    l.len() > 0 && !l.contains(LINE_FEED) && l.last() != CARRIAGE_RETURN
}

/// The non-empty lines of `text`.
pub fn parse_lines(text: &[u8]) -> (r: Vec<Vec<u8>>)
    ensures
        lines_of(r@) == file_lines(text@),
{
    let mut out: Vec<Vec<u8>> = Vec::new();
    let mut cur: Vec<u8> = Vec::new();
    let mut i: usize = 0;
    assert(text@.subrange(0, 0) =~= Seq::<u8>::empty());
    assert(lines_of(out@) =~= Seq::<Seq<u8>>::empty());
    while i < text.len()
        invariant
            i <= text@.len(),
            (lines_of(out@), cur@) == scan(text@.subrange(0, i as int)),
        decreases text.len() - i,
    {
        let c = text[i];
        let ghost before = text@.subrange(0, i as int);
        let ghost next = text@.subrange(0, i + 1);
        assert(next.drop_last() =~= before);
        assert(next.last() == c);
        if c == LINE_FEED {
            let n = cur.len();
            if n > 0 && cur[n - 1] == CARRIAGE_RETURN {
                cur.pop();
            }
            let ghost seg = cur@;
            if cur.len() > 0 {
                out.push(cur);
                assert(lines_of(out@) =~= scan(before).0 + keep(seg));
            } else {
                assert(lines_of(out@) =~= scan(before).0 + keep(seg));
            }
            cur = Vec::new();
        } else {
            cur.push(c);
        }
        i = i + 1;
    }
    assert(text@.subrange(0, i as int) =~= text@);
    if cur.len() > 0 {
        let ghost seg = cur@;
        let ghost done = lines_of(out@);
        out.push(cur);
        assert(lines_of(out@) =~= done + keep(seg));
    } else {
        assert(lines_of(out@) =~= lines_of(out@) + keep(cur@));
    }
    out
}

/// The file content for `lines`: each line followed by a line feed.
pub fn render_lines(lines: &Vec<Vec<u8>>) -> (r: Vec<u8>)
    ensures
        r@ == render(lines_of(lines@)),
{
    let mut out: Vec<u8> = Vec::new();
    let mut i: usize = 0;
    assert(lines_of(lines@).subrange(0, 0) =~= Seq::<Seq<u8>>::empty());
    while i < lines.len()
        invariant
            i <= lines@.len(),
            out@ == render(lines_of(lines@).subrange(0, i as int)),
        decreases lines.len() - i,
    {
        let line = &lines[i];
        let ghost start = out@;
        let mut k: usize = 0;
        while k < line.len()
            invariant
                k <= line@.len(),
                out@ == start + line@.subrange(0, k as int),
            decreases line.len() - k,
        {
            out.push(line[k]);
            assert(line@.subrange(0, k + 1) =~= line@.subrange(0, k as int).push(line@[k as int]));
            k = k + 1;
        }
        out.push(LINE_FEED);
        let ghost upto = lines_of(lines@).subrange(0, i + 1);
        assert(upto.drop_last() =~= lines_of(lines@).subrange(0, i as int));
        assert(line@.subrange(0, k as int) =~= line@);
        assert(out@ =~= render(upto));
        i = i + 1;
    }
    assert(lines_of(lines@).subrange(0, i as int) =~= lines_of(lines@));
    out
}

proof fn lemma_scan_segment(p: Seq<u8>, s: Seq<u8>)
    requires
        scan(p).1 == Seq::<u8>::empty(),
        !s.contains(LINE_FEED),
    ensures
        scan(p + s) == (scan(p).0, s),
    decreases s.len(),
{
    if s.len() == 0 {
        assert(p + s =~= p);
    } else {
        let t = s.drop_last();
        assert(!t.contains(LINE_FEED)) by {
            if t.contains(LINE_FEED) {
                let k = choose|k: int| 0 <= k < t.len() && t[k] == LINE_FEED;
                assert(s[k] == LINE_FEED);
            }
        }
        lemma_scan_segment(p, t);
        assert((p + s).drop_last() =~= p + t);
        assert(s[s.len() - 1] != LINE_FEED);
        assert(t.push(s.last()) =~= s);
    }
}

/// Rendering plain lines and reading them back gives the same lines.
pub proof fn lemma_file_lines_render(ls: Seq<Seq<u8>>)
    requires
        forall|i: int| 0 <= i < ls.len() ==> is_plain_line(#[trigger] ls[i]),
    ensures
        scan(render(ls)) == (ls, Seq::<u8>::empty()),
        file_lines(render(ls)) == ls,
    decreases ls.len(),
{
    if ls.len() == 0 {
        assert(file_lines(render(ls)) =~= ls);
    } else {
        let p = ls.drop_last();
        let l = ls.last();
        assert forall|i: int| 0 <= i < p.len() implies is_plain_line(#[trigger] p[i]) by {
            assert(p[i] == ls[i]);
        }
        lemma_file_lines_render(p);
        assert(is_plain_line(ls[ls.len() - 1]));
        lemma_scan_segment(render(p), l);
        let t = render(ls);
        assert(t.drop_last() =~= render(p) + l);
        assert(strip_cr(l) == l);
        assert(ls =~= p + keep(l));
        assert(file_lines(t) =~= ls);
    }
}

} // verus!
