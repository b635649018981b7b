use yapm::naming::{document_stem, file_name, numbered_name, page_file_name, page_label, page_status, prefixed, temp_page_file};
use yapm::text::{chars_of, contains, decimal_chars, ends_with, last_piece, leading_pieces, replace_all, replace_first, same_text, signed_decimal_chars, string_of};

fn text(v: &Vec<char>) -> String {
    string_of(v)
}

#[test]
fn pieces_of_a_path() {
    let p = chars_of("/home/me/doc.pdf");
    assert_eq!(text(&last_piece(&p, '/')), "doc.pdf");
    assert_eq!(text(&leading_pieces(&p, '/')), "/home/me");
    let bare = chars_of("doc.pdf");
    assert_eq!(text(&last_piece(&bare, '/')), "doc.pdf");
    assert_eq!(text(&leading_pieces(&bare, '/')), "");
    let trailing = chars_of("/tmp/");
    assert_eq!(text(&last_piece(&trailing, '/')), "");
    assert_eq!(text(&leading_pieces(&trailing, '/')), "/tmp");
}

#[test]
fn replacing_like_std() {
    for (s, pat, rep) in [("a.pdf.pdf", ".pdf", ""), ("aaa", "aa", "b"), ("x", "y", "z"), ("", "a", "b"), ("abab", "ab", "ba")] {
        let all = replace_all(&chars_of(s), &chars_of(pat), &chars_of(rep));
        assert_eq!(text(&all), s.replace(pat, rep));
        let once = replace_first(&chars_of(s), &chars_of(pat), &chars_of(rep));
        assert_eq!(text(&once), s.replacen(pat, rep, 1));
    }
}

#[test]
fn searching() {
    assert!(contains(&chars_of("report.zip.bak"), &chars_of(".zip")));
    assert!(!contains(&chars_of("report"), &chars_of(".zip")));
    assert!(contains(&chars_of("x"), &chars_of("")));
    assert!(ends_with(&chars_of("a.pdf"), &chars_of(".pdf")));
    assert!(!ends_with(&chars_of("pdf"), &chars_of(".pdf")));
    assert!(same_text("é", "é"));
    assert!(!same_text("a", "ab"));
}

#[test]
fn decimal_writing() {
    assert_eq!(text(&decimal_chars(0)), "0");
    assert_eq!(text(&decimal_chars(1907)), "1907");
    assert_eq!(text(&decimal_chars(u64::MAX)), u64::MAX.to_string());
    assert_eq!(text(&signed_decimal_chars(-42)), "-42");
    assert_eq!(text(&signed_decimal_chars(i64::MIN)), i64::MIN.to_string());
}

#[test]
fn file_names() {
    assert_eq!(page_file_name(12), "page_12.pdf");
    assert_eq!(prefixed("modified_", "doc.pdf"), "modified_doc.pdf");
    assert_eq!(numbered_name("tmp_", 3, "doc.pdf"), "tmp_3_doc.pdf");
    assert_eq!(numbered_name("Page_", -1, "doc.pdf"), "Page_-1_doc.pdf");
    assert_eq!(document_stem("/home/me/report.pdf"), "report");
    assert_eq!(document_stem("a.pdf.pdf"), "a");
    assert_eq!(temp_page_file("/usr/share/yapm/tmp", "report", 2), "/usr/share/yapm/tmp/report_page_2.pdf");
    assert_eq!(file_name("/usr/share/yapm/tmp/report_page_2.pdf"), "report_page_2.pdf");
    assert_eq!(page_label(5), "Page_5");
    assert_eq!(page_status(2, 9), "2 of 9");
}
