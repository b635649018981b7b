//! Names of the files the commands write.

use vstd::prelude::*;
use vstd::string::*;
use crate::text::{after_last, chars_of, concat, decimal, decimal_chars, replace_all, replaced, signed_decimal, signed_decimal_chars, string_of, last_piece};

verus! {

/// `a`, then `b`, then `c`, as one string.
fn joined3(a: &Vec<char>, b: &Vec<char>, c: &Vec<char>) -> (r: String)
    ensures
        r@ == a@ + b@ + c@,
{
    let ab = concat(a, b);
    let abc = concat(&ab, c);
    string_of(&abc)
}

/// `page_<n>.pdf`: the file one page is written to.
pub fn page_file_name(n: u32) -> (r: String)
    ensures
        r@ == "page_"@ + decimal(n as nat) + ".pdf"@,
{
    joined3(&chars_of("page_"), &decimal_chars(n as u64), &chars_of(".pdf"))
}

/// `prefix` followed by `name`.
pub fn prefixed(prefix: &str, name: &str) -> (r: String)
    ensures
        r@ == prefix@ + name@,
{
    let joined = concat(&chars_of(prefix), &chars_of(name));
    string_of(&joined)
}

/// `<prefix><n>_<name>`, as `tmp_3_doc.pdf` or `Page_2_doc.pdf`.
pub fn numbered_name(prefix: &str, n: i64, name: &str) -> (r: String)
    ensures
        r@ == prefix@ + signed_decimal(n as int) + "_"@ + name@,
{
    let head = concat(&chars_of(prefix), &signed_decimal_chars(n));
    let with_sep = concat(&head, &chars_of("_"));
    let all = concat(&with_sep, &chars_of(name));
    string_of(&all)
}

/// The name of a document without its folder and without `.pdf`.
pub open spec fn stem(path: Seq<char>) -> Seq<char> {
    replaced(after_last(path, '/'), ".pdf"@, Seq::empty())
}

/// The name of a document without its folder, every `.pdf` in it removed.
pub fn document_stem(path: &str) -> (r: String)
    ensures
        r@ == stem(path@),
{
    let name = last_piece(&chars_of(path), '/');
    let pdf = chars_of(".pdf");
    proof {
        reveal_strlit(".pdf");
    }
    let bare = replace_all(&name, &pdf, &Vec::new());
    string_of(&bare)
}

/// `<folder>/<stem>_page_<n>.pdf`: where the window application writes
/// page `n` of a document before it packs it.
pub fn temp_page_file(folder: &str, stem_text: &str, n: u32) -> (r: String)
    ensures
        r@ == folder@ + "/"@ + stem_text@ + "_page_"@ + decimal(n as nat) + ".pdf"@,
{
    let a = concat(&chars_of(folder), &chars_of("/"));
    let b = concat(&a, &chars_of(stem_text));
    let c = concat(&b, &chars_of("_page_"));
    joined3(&c, &decimal_chars(n as u64), &chars_of(".pdf"))
}

/// The last piece of a path: the name of the file.
pub fn file_name(path: &str) -> (r: String)
    ensures
        r@ == after_last(path@, '/'),
{
    let name = last_piece(&chars_of(path), '/');
    string_of(&name)
}

/// The name under which a page file goes into an archive: the file's name,
/// inside a folder named after its document (`<stem>/<name>`) when the
/// archive holds more than one document.
pub fn archive_entry(documents: usize, stem_text: &str, file: &str) -> (r: String)
    ensures
        documents > 1 ==> r@ == stem_text@ + "/"@ + after_last(file@, '/'),
        documents <= 1 ==> r@ == after_last(file@, '/'),
{
    let name = last_piece(&chars_of(file), '/');
    if documents > 1 {
        let head = concat(&chars_of(stem_text), &chars_of("/"));
        let all = concat(&head, &name);
        string_of(&all)
    } else {
        string_of(&name)
    }
}

/// `Page_<n>`: the label of page `n` in a page list.
pub fn page_label(n: u32) -> (r: String)
    ensures
        r@ == "Page_"@ + decimal(n as nat),
{
    let joined = concat(&chars_of("Page_"), &decimal_chars(n as u64));
    string_of(&joined)
}

/// `<current> of <total>`: where a page viewer stands.
pub fn page_status(current: u32, total: u32) -> (r: String)
    ensures
        r@ == decimal(current as nat) + " of "@ + decimal(total as nat),
{
    joined3(&decimal_chars(current as u64), &chars_of(" of "), &decimal_chars(total as u64))
}

} // verus!
