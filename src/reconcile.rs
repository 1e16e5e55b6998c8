use vstd::prelude::*;
use vstd::utf8::encode_utf8;

use crate::lines::{file_lines, parse_lines, render, render_lines};
use crate::normalize::{lines_of, normal_form, normalize};
use crate::order::line_eq;
use crate::text::{decimal, push_decimal, push_text};

verus! {

/// The warning printed for each empty addition.
pub const EMPTY_ADDITION_WARNING: &'static str = "Warning: empty string passed as addition, skipping.";

/// The text of each string.
pub open spec fn texts_of(v: Seq<String>) -> Seq<Seq<char>> {
    v.map_values(|s: String| s@)
}

/// The additions that join the working set, as UTF-8 bytes: the non-empty ones, in order.
pub open spec fn kept_additions(adds: Seq<Seq<char>>) -> Seq<Seq<u8>>
    decreases adds.len(),
{
    if adds.len() == 0 {
        seq![]
    } else if adds.last().len() == 0 {
        kept_additions(adds.drop_last())
    } else {
        kept_additions(adds.drop_last()).push(encode_utf8(adds.last()))
    }
}

/// How many additions are empty, each skipped with a warning.
pub open spec fn empty_additions(adds: Seq<Seq<char>>) -> nat
    decreases adds.len(),
{
    if adds.len() == 0 {
        0
    } else if adds.last().len() == 0 {
        empty_additions(adds.drop_last()) + 1
    } else {
        empty_additions(adds.drop_last())
    }
}

/// The lines of the file as loaded: the snapshot that the result is compared with.
pub open spec fn original_lines(text: Seq<u8>) -> Seq<Seq<u8>> {
    file_lines(text)
}

/// The snapshot followed by the kept additions.
pub open spec fn working_lines(text: Seq<u8>, adds: Seq<Seq<char>>) -> Seq<Seq<u8>> {
    original_lines(text) + kept_additions(adds)
}

/// The lines of the file after reconciling.
pub open spec fn final_lines(text: Seq<u8>, adds: Seq<Seq<char>>) -> Seq<Seq<u8>> {
    normal_form(working_lines(text, adds))
}

/// Whether reconciling changes the lines, so that the file is rewritten.
pub open spec fn is_changed(text: Seq<u8>, adds: Seq<Seq<char>>) -> bool {
    final_lines(text, adds) != original_lines(text)
}

/// What the file holds after reconciling: the rendered lines if they changed,
/// else the text as it was.
pub open spec fn resulting_content(text: Seq<u8>, adds: Seq<Seq<char>>) -> Seq<u8> {
    if is_changed(text, adds) {
        render(final_lines(text, adds))
    } else {
        text
    }
}

/// The outcome of reconciling one file.
pub struct Reconciled {
    /// The new content of the file when it must be rewritten; `None` when it is left untouched.
    pub new_contents: Option<Vec<u8>>,
    /// How many lines the file had, empty lines not counted.
    pub original_count: usize,
    /// How many lines the file has after reconciling.
    pub final_count: usize,
    /// How many empty additions were skipped.
    pub skipped: usize,
}

/// The status line reported for a file.
pub open spec fn report_text(filename: Seq<char>, changed: bool, original: nat, fin: nat) -> Seq<char> {
    if !changed {
        filename + " left unchanged."@
    } else {
        let sign = if fin >= original { '+' } else { '-' };
        let magnitude: nat = if fin >= original { (fin - original) as nat } else { (original - fin) as nat };
        filename + " sorted and de-duplicated; delta: "@ + seq![sign] + decimal(magnitude) + (if magnitude == 1 {
            " line"@
        } else {
            " lines"@
        })
    }
}

/// Appends the non-empty additions to `lines`, as UTF-8 bytes, and counts the empty ones.
pub fn merge_additions(lines: &mut Vec<Vec<u8>>, additions: &Vec<String>) -> (skipped: usize)
    ensures
        lines_of(final(lines)@) == lines_of(old(lines)@) + kept_additions(texts_of(additions@)),
        skipped == empty_additions(texts_of(additions@)),
{
    let ghost start = lines_of(lines@);
    let ghost adds = texts_of(additions@);
    let mut skipped: usize = 0;
    let mut i: usize = 0;
    assert(adds.subrange(0, 0) =~= Seq::<Seq<char>>::empty());
    assert(start + kept_additions(adds.subrange(0, 0)) =~= start);
    while i < additions.len()
        invariant
            adds == texts_of(additions@),
            i <= additions@.len(),
            skipped <= i,
            lines_of(lines@) == start + kept_additions(adds.subrange(0, i as int)),
            skipped == empty_additions(adds.subrange(0, i as int)),
        decreases additions.len() - i,
    {
        let a = additions[i].as_str();
        let ghost upto = adds.subrange(0, i + 1);
        assert(upto.drop_last() =~= adds.subrange(0, i as int));
        assert(upto.last() == a@);
        if a.is_empty() {
            skipped = skipped + 1;
        } else {
            let bytes = vstd::slice::slice_to_vec(a.as_bytes());
            let ghost before = lines_of(lines@);
            lines.push(bytes);
            assert(lines_of(lines@) =~= before.push(encode_utf8(a@)));
        }
        i = i + 1;
    }
    assert(adds.subrange(0, i as int) =~= adds);
    skipped
}

/// Whether two sequences of lines are equal, in length and line by line.
pub fn lines_equal(a: &Vec<Vec<u8>>, b: &Vec<Vec<u8>>) -> (r: bool)
    ensures
        r == (lines_of(a@) == lines_of(b@)),
{
    if a.len() != b.len() {
        assert(lines_of(a@).len() != lines_of(b@).len());
        return false;
    }
    let mut i: usize = 0;
    while i < a.len()
        invariant
            a@.len() == b@.len(),
            i <= a@.len(),
            forall|k: int| 0 <= k < i ==> lines_of(a@)[k] == lines_of(b@)[k],
        decreases a.len() - i,
    {
        if !line_eq(a[i].as_slice(), b[i].as_slice()) {
            assert(lines_of(a@)[i as int] != lines_of(b@)[i as int]);
            return false;
        }
        i = i + 1;
    }
    assert(lines_of(a@) =~= lines_of(b@));
    true
}

/// Merges the additions into the lines of `text`, sorts them and removes duplicates,
/// and says whether the file must be rewritten and with what.
pub fn reconcile(text: &str, additions: &Vec<String>) -> (r: Reconciled)
    ensures
        r.original_count == original_lines(encode_utf8(text@)).len(),
        r.final_count == final_lines(encode_utf8(text@), texts_of(additions@)).len(),
        r.skipped == empty_additions(texts_of(additions@)),
        r.new_contents is Some <==> is_changed(encode_utf8(text@), texts_of(additions@)),
        r.new_contents matches Some(c) ==> c@ == render(final_lines(encode_utf8(text@), texts_of(additions@))),
{
    let original = parse_lines(text.as_bytes());
    let mut working = original.clone();
    assert(lines_of(working@) =~= lines_of(original@));
    let skipped = merge_additions(&mut working, additions);
    let normalized = normalize(&working);
    let changed = !lines_equal(&normalized, &original);
    let new_contents = if changed {
        Some(render_lines(&normalized))
    } else {
        None
    };
    Reconciled {
        new_contents,
        original_count: original.len(),
        final_count: normalized.len(),
        skipped,
    }
}

impl Reconciled {
    /// Whether the file must be rewritten.
    pub fn is_changed(&self) -> (r: bool)
        ensures
            r == self.new_contents is Some,
    {
        self.new_contents.is_some()
    }

    /// The signed change in the number of lines.
    pub fn delta(&self) -> (r: i128)
        ensures
            r == self.final_count - self.original_count,
    {
        self.final_count as i128 - self.original_count as i128
    }

    /// The status line for `filename`: left unchanged, or the signed delta in lines.
    pub fn report(&self, filename: &str) -> (r: String)
        ensures
            r@ == report_text(filename@, self.new_contents is Some, self.original_count as nat, self.final_count as nat),
    {
        let mut s = String::new();
        push_text(&mut s, filename);
        if self.new_contents.is_none() {
            push_text(&mut s, " left unchanged.");
            return s;
        }
        push_text(&mut s, " sorted and de-duplicated; delta: ");
        let magnitude: usize;
        if self.final_count >= self.original_count {
            push_text(&mut s, "+");
            magnitude = self.final_count - self.original_count;
        } else {
            push_text(&mut s, "-");
            magnitude = self.original_count - self.final_count;
        }
        proof {
            reveal_strlit("+");
            reveal_strlit("-");
        }
        push_decimal(&mut s, magnitude);
        if magnitude == 1 {
            push_text(&mut s, " line");
        } else {
            push_text(&mut s, " lines");
        }
        s
    }
}

} // verus!
