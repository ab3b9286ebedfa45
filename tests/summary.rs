use statusbot::bugs::extract_bug_numbers;
use statusbot::digest::{bug_numbers_to_resolve, summarize_reports, Status, Timestamp};
use statusbot::normalize::{normalize, textify};
use statusbot::text::titlecase;

fn status(id: i32, name: &str, report: &str) -> Status {
    Status {
        id,
        name: String::from(name),
        time_created: Timestamp { sec: 1_400_000_000 + id as i64, nsec: 0 },
        report: String::from(report),
    }
}

#[test]
fn extraction_keeps_order_and_repeats() {
    assert_eq!(extract_bug_numbers("bug 123 and bug 123"), vec![123, 123]);
    assert_eq!(extract_bug_numbers("Bug 7, then bug  3 and bug\t9"), vec![7, 3, 9]);
}

#[test]
fn extraction_rejects_fused_and_oversized_numbers() {
    assert_eq!(extract_bug_numbers("bug 12ab"), Vec::<u32>::new());
    assert_eq!(extract_bug_numbers("bug99"), Vec::<u32>::new());
    assert_eq!(extract_bug_numbers("bug 99999999999"), Vec::<u32>::new());
    assert_eq!(extract_bug_numbers("bug 4294967295"), vec![4294967295]);
    assert_eq!(extract_bug_numbers("no references here"), Vec::<u32>::new());
}

#[test]
fn titlecase_changes_only_first_character() {
    assert_eq!(titlecase("hello world"), "Hello world");
    assert_eq!(titlecase("ßa"), "Sa");
    assert_eq!(titlecase("éclair"), "Éclair");
    assert_eq!(titlecase(""), "");
    assert_eq!(titlecase("1 thing"), "1 thing");
}

#[test]
fn textify_labels_bare_long_numbers() {
    assert_eq!(textify("landed 12345"), "landed bug 12345");
    assert_eq!(textify("bug 12345 landed"), "bug 12345 landed");
    assert_eq!(textify("Bug  123456"), "Bug  123456");
    assert_eq!(textify("room 1234"), "room 1234");
}

#[test]
fn normalize_strips_bug_links() {
    let raw = "<a href=\"http://bugzilla.example/show_bug.cgi?id=5\">bug 5</a> fixed";
    let n = normalize(raw);
    assert!(n.contains("5 fixed"));
    assert_eq!(n, "5 fixed");
    let raw = "fixed <a href=\"http://bugzilla.example/show_bug.cgi?id=123456\">Bug 123456</a>";
    assert_eq!(normalize(raw), "Fixed bug 123456");
}

#[test]
fn normalize_leaves_other_links_alone() {
    let raw = "see <a href=\"http://example.org/\">bug 5</a>";
    assert_eq!(normalize(raw), "See <a href=\"http://example.org/\">bug 5</a>");
}

#[test]
fn digest_shows_resolved_bug() {
    let reports = vec![status(1, "alice", "Fixed bug 445566")];
    let details = vec![(445566u32, String::from("Crash on startup"))];
    let d = summarize_reports(&reports, &details);
    assert_eq!(d, "\n== alice ==\n* {{bug|445566}} Crash on startup\n** Fixed bug 445566\n");
}

#[test]
fn digest_uses_placeholder_for_unknown_bug() {
    let reports = vec![status(1, "bob", "looked at bug 7")];
    let d = summarize_reports(&reports, &Vec::new());
    assert_eq!(d, "\n== bob ==\n* {{bug|7}} invalid or inaccessible bug\n** Looked at bug 7\n");
}

#[test]
fn digest_of_no_reports_is_empty() {
    let d = summarize_reports(&Vec::new(), &Vec::new());
    assert_eq!(d, "");
}

#[test]
fn digest_lists_duplicate_text_once() {
    let reports = vec![
        status(1, "carol", "wrote docs"),
        status(2, "carol", "Wrote docs"),
        status(3, "carol", "tested"),
    ];
    let d = summarize_reports(&reports, &Vec::new());
    assert_eq!(d, "\n== carol ==\n* Tested\n* Wrote docs\n");
}

#[test]
fn digest_files_report_under_each_bug() {
    let reports = vec![status(1, "dave", "fixed bug 2 and bug 1"), status(2, "dave", "lunch")];
    let details = vec![(1u32, String::from("One")), (2u32, String::from("Two"))];
    let d = summarize_reports(&reports, &details);
    assert_eq!(
        d,
        "\n== dave ==\n* Lunch\n* {{bug|1}} One\n** Fixed bug 2 and bug 1\n* {{bug|2}} Two\n** Fixed bug 2 and bug 1\n"
    );
}

#[test]
fn digest_orders_authors_and_is_deterministic() {
    let a = vec![
        status(1, "zed", "b"),
        status(2, "amy", "bug 10 done"),
        status(3, "zed", "a"),
        status(4, "amy", "bug 10 done"),
    ];
    let b = vec![status(5, "zed", "a"), status(6, "amy", "bug 10 done"), status(7, "zed", "b")];
    let details = vec![(10u32, String::from("Ten")), (10u32, String::from("Later"))];
    let da = summarize_reports(&a, &details);
    let db = summarize_reports(&b, &details);
    assert_eq!(da, db);
    assert_eq!(da, "\n== amy ==\n* {{bug|10}} Ten\n** Bug 10 done\n\n== zed ==\n* A\n* B\n");
}

#[test]
fn resolver_request_is_sorted_and_distinct() {
    let reports = vec![
        status(1, "a", "bug 30 and bug 4"),
        status(2, "b", "bug 4 again, and 123456"),
        status(3, "c", "nothing"),
    ];
    assert_eq!(bug_numbers_to_resolve(&reports), vec![4, 30, 123456]);
    assert_eq!(bug_numbers_to_resolve(&Vec::new()), Vec::<u32>::new());
}

#[test]
fn bug_word_matches_in_any_case() {
    assert_eq!(extract_bug_numbers("BUG 7, Bug 8, bug 9"), vec![7, 8, 9]);
    assert_eq!(extract_bug_numbers("bUg 1 and BuG 2"), vec![1, 2]);
    assert_eq!(textify("BUG 12345"), "BUG 12345");
    let raw = "<a href=\"http://bugzilla.example/x\">BUG 5</a>";
    assert_eq!(textify(raw), "5");
}

#[test]
fn bug_number_zero_is_no_reference() {
    assert_eq!(extract_bug_numbers("bug 0 and bug 00"), Vec::<u32>::new());
    assert_eq!(extract_bug_numbers("bug 007"), vec![7]);
}

#[test]
fn unicode_whitespace_separates_word_and_number() {
    assert_eq!(extract_bug_numbers("bug\u{a0}42"), vec![42]);
    assert_eq!(extract_bug_numbers("bug\u{3000}43"), vec![43]);
}

#[test]
fn non_ascii_letter_after_number_blocks_reference() {
    assert_eq!(extract_bug_numbers("bug 1\u{e9}"), Vec::<u32>::new());
    assert_eq!(extract_bug_numbers("bug 2\u{3b1} and bug 3."), vec![3]);
}

#[test]
fn duplicate_text_anywhere_is_listed_once() {
    let reports = vec![
        status(1, "erin", "bug 4 fixed"),
        status(2, "frank", "idle"),
        status(3, "erin", "Bug 4 fixed"),
    ];
    let once = vec![status(1, "erin", "bug 4 fixed"), status(2, "frank", "idle")];
    let d = summarize_reports(&reports, &Vec::new());
    assert_eq!(d, summarize_reports(&once, &Vec::new()));
    assert_eq!(
        d,
        "\n== erin ==\n* {{bug|4}} invalid or inaccessible bug\n** Bug 4 fixed\n\n== frank ==\n* Idle\n"
    );
}
