use insort::policy::{on_answer, on_missing_file, prompt_text, CreationPolicy, MissingFileStep, NotFoundError};
use insort::reconcile::{reconcile, Reconciled, EMPTY_ADDITION_WARNING};
use insort::text::answer_accepts;

fn strings(items: &[&str]) -> Vec<String> {
    items.iter().map(|s| s.to_string()).collect()
}

fn content_after(text: &str, r: &Reconciled) -> String {
    match &r.new_contents {
        Some(bytes) => String::from_utf8(bytes.clone()).unwrap(),
        None => text.to_string(),
    }
}

#[test]
fn test_prompt_user_yes() {
    assert_eq!(answer_accepts("y\n"), true);
    assert_eq!(prompt_text("test.txt"), "test.txt does not exist. create it? (y/n) >");
}

#[test]
fn test_prompt_user_no() {
    assert_eq!(answer_accepts("n\n"), false);
    assert_eq!(prompt_text("test.txt"), "test.txt does not exist. create it? (y/n) >");
}

#[test]
fn test_insert_and_sort() {
    let text = "line2\nline1\n";
    let r = reconcile(text, &strings(&["line3"]));
    assert_eq!(content_after(text, &r), "line1\nline2\nline3\n".to_string());

    let text = "";
    let r = reconcile(text, &vec![]);
    assert_eq!(content_after(text, &r), "".to_string());

    let text = "line1\n";
    let r = reconcile(text, &vec![]);
    assert_eq!(content_after(text, &r), "line1\n".to_string());

    let text = "";
    let r = reconcile(text, &strings(&["line1"]));
    assert_eq!(content_after(text, &r), "line1\n".to_string());
}

#[test]
fn it_runs() {
    let text = "line2\nline1\n";
    let r = reconcile(text, &strings(&["line4", "line4", "line3", "line9", "", "line1"]));
    assert_eq!(r.skipped, 1);
    assert_eq!(EMPTY_ADDITION_WARNING, "Warning: empty string passed as addition, skipping.");
    assert_eq!(r.report("data.txt"), "data.txt sorted and de-duplicated; delta: +3 lines");
    assert_eq!(content_after(text, &r), "line1\nline2\nline3\nline4\nline9\n");
}

#[test]
fn scenario_one_addition_reports_singular() {
    let r = reconcile("line2\nline1\n", &strings(&["line3"]));
    assert!(r.is_changed());
    assert_eq!(r.delta(), 1);
    assert_eq!(r.report("f"), "f sorted and de-duplicated; delta: +1 line");
}

#[test]
fn scenario_empty_file_no_additions_unchanged() {
    let r = reconcile("", &vec![]);
    assert!(!r.is_changed());
    assert!(r.new_contents.is_none());
    assert_eq!(r.report("f"), "f left unchanged.");
}

#[test]
fn scenario_single_line_unchanged() {
    let r = reconcile("line1\n", &vec![]);
    assert!(!r.is_changed());
    assert_eq!(r.report("f"), "f left unchanged.");
}

#[test]
fn scenario_empty_file_one_addition() {
    let r = reconcile("", &strings(&["line1"]));
    assert_eq!(r.new_contents, Some(b"line1\n".to_vec()));
    assert_eq!(r.report("f"), "f sorted and de-duplicated; delta: +1 line");
}

#[test]
fn second_run_is_unchanged() {
    let adds = strings(&["line4", "line4", "line3", "line9", "", "line1"]);
    let first = reconcile("line2\nline1\n", &adds);
    let written = content_after("line2\nline1\n", &first);
    let second = reconcile(&written, &adds);
    assert!(!second.is_changed());
    assert_eq!(content_after(&written, &second), written);
    assert_eq!(second.report("f"), "f left unchanged.");
}

#[test]
fn result_is_sorted_without_duplicates() {
    let r = reconcile("b\na\nc\na\n\n", &strings(&["b", "d", "a"]));
    let out = content_after("", &r);
    assert_eq!(out, "a\nb\nc\nd\n");
    let lines: Vec<&str> = out.lines().collect();
    for w in lines.windows(2) {
        assert!(w[0] < w[1]);
    }
}

#[test]
fn additions_present_once() {
    let r = reconcile("x\ny\n", &strings(&["y", "z", "z"]));
    assert_eq!(content_after("", &r), "x\ny\nz\n");
    assert_eq!(r.delta(), 1);
}

#[test]
fn empty_additions_are_counted_and_skipped() {
    let r = reconcile("a\n", &strings(&["", "", "b", ""]));
    assert_eq!(r.skipped, 3);
    assert_eq!(content_after("a\n", &r), "a\nb\n");
    let r = reconcile("a\n", &strings(&[""]));
    assert_eq!(r.skipped, 1);
    assert!(!r.is_changed());
}

#[test]
fn duplicate_lines_give_negative_delta() {
    let r = reconcile("a\na\n", &vec![]);
    assert_eq!(r.original_count, 2);
    assert_eq!(r.final_count, 1);
    assert_eq!(r.delta(), -1);
    assert_eq!(r.report("f"), "f sorted and de-duplicated; delta: -1 line");
    assert_eq!(content_after("", &r), "a\n");
}

#[test]
fn reordering_gives_zero_delta_plural() {
    let r = reconcile("b\na\n", &vec![]);
    assert_eq!(r.delta(), 0);
    assert_eq!(r.report("f"), "f sorted and de-duplicated; delta: +0 lines");
}

#[test]
fn negative_delta_plural() {
    let r = reconcile("c\nc\nc\nb\nb\n", &vec![]);
    assert_eq!(r.delta(), -3);
    assert_eq!(r.report("f"), "f sorted and de-duplicated; delta: -3 lines");
}

#[test]
fn large_delta_in_decimal() {
    let adds: Vec<String> = (0..12).map(|i| format!("l{:02}", i)).collect();
    let r = reconcile("", &adds);
    assert_eq!(r.delta(), 12);
    assert_eq!(r.report("f"), "f sorted and de-duplicated; delta: +12 lines");
}

#[test]
fn crlf_and_missing_final_newline() {
    let r = reconcile("b\r\na\r\nc", &vec![]);
    assert_eq!(content_after("", &r), "a\nb\nc\n");
    assert_eq!(r.original_count, 3);
}

#[test]
fn byte_order_sorting() {
    let r = reconcile("b\nB\né\nab\na\n", &vec![]);
    assert_eq!(content_after("", &r), "B\na\nab\nb\né\n");
}

#[test]
fn creation_policy_steps() {
    assert_eq!(CreationPolicy::from_flags(true, false), CreationPolicy::AlwaysCreate);
    assert_eq!(CreationPolicy::from_flags(false, true), CreationPolicy::NeverCreate);
    assert_eq!(CreationPolicy::from_flags(false, false), CreationPolicy::Prompt);
    assert_eq!(on_missing_file(CreationPolicy::AlwaysCreate), MissingFileStep::StartEmpty);
    assert_eq!(
        on_missing_file(CreationPolicy::NeverCreate),
        MissingFileStep::Fail(NotFoundError::CreationNotAllowed)
    );
    assert_eq!(on_missing_file(CreationPolicy::Prompt), MissingFileStep::AskUser);
    assert_eq!(on_answer(true), MissingFileStep::StartEmpty);
    assert_eq!(on_answer(false), MissingFileStep::Fail(NotFoundError::CreationDeclined));
}

#[test]
fn created_file_holds_sorted_additions() {
    let r = reconcile("", &strings(&["q", "p", "q"]));
    assert_eq!(content_after("", &r), "p\nq\n");
    let r = reconcile("", &vec![]);
    assert!(r.new_contents.is_none());
}

#[test]
fn not_found_messages() {
    assert_eq!(NotFoundError::CreationNotAllowed.message(), "file not found and creation is not allowed");
    assert_eq!(NotFoundError::CreationDeclined.message(), "file not found and user declined creation");
}

#[test]
fn answers_are_trimmed() {
    assert!(answer_accepts("  y \t\n"));
    assert!(!answer_accepts("yes\n"));
    assert!(!answer_accepts(""));
    assert!(!answer_accepts("Y\n"));
}
