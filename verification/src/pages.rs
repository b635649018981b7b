//! Which pages the page commands keep, take or move, and the files they
//! write.

use vstd::prelude::*;
use vstd::string::*;
use crate::args::{split_archive_name, texts, MissingOptionValue, last_option_index, zip_name};
use crate::naming::{numbered_name, page_file_name, prefixed};
use crate::number::{parse_i32, parse_usize, parsed_i32, parsed_usize};
use crate::text::{decimal, same_text, signed_decimal};

verus! {

/// Reads every argument as a page number (`str::parse::<i32>`). Gives the
/// numbers, or the position of the first argument that is not one.
pub fn parse_page_numbers(args: &Vec<String>) -> (r: Result<Vec<i32>, usize>)
    ensures
        match r {
            Ok(v) => v@.len() == args@.len() && forall|i: int|
                0 <= i < args@.len() ==> parsed_i32(args@[i]@) == Some(#[trigger] v@[i]),
            Err(i) => i < args@.len() && parsed_i32(args@[i as int]@) is None && forall|k: int|
                0 <= k < i ==> parsed_i32(#[trigger] args@[k]@) is Some,
        },
{
    let mut v: Vec<i32> = Vec::new();
    let mut i: usize = 0;
    while i < args.len()
        invariant
            i <= args@.len(),
            v@.len() == i,
            forall|k: int| 0 <= k < i ==> parsed_i32(args@[k]@) == Some(#[trigger] v@[k]),
        decreases args.len() - i,
    {
        match parse_i32(args[i].as_str()) {
            Some(n) => v.push(n),
            None => {
                assert forall|k: int| 0 <= k < i implies parsed_i32(#[trigger] args@[k]@) is Some by {
                    assert(parsed_i32(args@[k]@) == Some(v@[k]));
                }
                return Err(i);
            },
        }
        i = i + 1;
    }
    Ok(v)
}

/// The pages from 1 to `n` that are not in `deleted`, in ascending order.
pub open spec fn kept_pages(n: int, deleted: Seq<i32>) -> Seq<i32>
    decreases n,
{
    if n <= 0 {
        Seq::empty()
    } else if deleted.contains(n as i32) {
        kept_pages(n - 1, deleted)
    } else {
        kept_pages(n - 1, deleted).push(n as i32)
    }
}

fn holds(v: &Vec<i32>, x: i32) -> (r: bool)
    ensures
        r == v@.contains(x),
{
    let mut i: usize = 0;
    while i < v.len()
        invariant
            i <= v@.len(),
            forall|k: int| 0 <= k < i ==> v@[k] != x,
        decreases v.len() - i,
    {
        if v[i] == x {
            assert(v@[i as int] == x);
            return true;
        }
        i = i + 1;
    }
    false
}

/// The pages of a document of `total` pages that remain when the pages in
/// `deleted` are deleted, in ascending order.
pub fn pages_to_keep(total: i32, deleted: &Vec<i32>) -> (r: Vec<i32>)
    ensures
        r@ == kept_pages(total as int, deleted@),
{
    let mut r: Vec<i32> = Vec::new();
    let mut i: i32 = 0;
    if total <= 0 {
        return r;
    }
    while i < total
        invariant
            0 <= i <= total,
            r@ == kept_pages(i as int, deleted@),
        decreases total - i,
    {
        let page = i + 1;
        if !holds(deleted, page) {
            r.push(page);
        }
        i = i + 1;
    }
    r
}

/// A page is kept exactly when it lies between 1 and the number of pages and
/// is not deleted, and the kept pages ascend.
pub proof fn lemma_kept_pages(n: int, deleted: Seq<i32>)
    requires
        n <= i32::MAX,
    ensures
        forall|i: int|
            0 <= i < kept_pages(n, deleted).len() ==> 1 <= #[trigger] kept_pages(n, deleted)[i] <= n
                && !deleted.contains(kept_pages(n, deleted)[i]),
        forall|p: i32| 1 <= p <= n && !deleted.contains(p) ==> #[trigger] kept_pages(n, deleted).contains(p),
        forall|i: int, j: int|
            0 <= i < j < kept_pages(n, deleted).len() ==> kept_pages(n, deleted)[i] < kept_pages(n, deleted)[j],
    decreases n,
{
    if n > 0 {
        lemma_kept_pages(n - 1, deleted);
        let prev = kept_pages(n - 1, deleted);
        let cur = kept_pages(n, deleted);
        assert forall|p: i32| 1 <= p <= n && !deleted.contains(p) implies #[trigger] cur.contains(p) by {
            if p < n {
                assert(prev.contains(p));
                let k = choose|k: int| 0 <= k < prev.len() && prev[k] == p;
                assert(cur[k] == p);
            } else {
                assert(cur[prev.len() as int] == p);
            }
        }
    }
}

/// What `del_page` does: the pages kept, the file each one is written to
/// before they are put together again, and the name of the result.
pub struct DeletePlan {
    /// The pages kept, in ascending order.
    pub kept: Vec<i32>,
    /// `page_<n>.pdf` for each kept page `n`.
    pub page_files: Vec<String>,
    /// `modified_<document>`.
    pub output: String,
}

/// The page numbers the arguments write (each one does).
pub open spec fn written_pages(args: Seq<String>) -> Seq<i32> {
    args.map_values(|a: String| match parsed_i32(a@) {
        Some(v) => v,
        None => 0i32,
    })
}

/// Plans `del_page` on a document of `total` pages named `document`: the
/// arguments are the pages to delete. Every argument is a page number, and
/// at least one page is kept (the pages kept are merged again, which needs
/// one).
pub fn del_page(args: &Vec<String>, total: i32, document: &str) -> (plan: DeletePlan)
    requires
        forall|i: int| 0 <= i < args@.len() ==> parsed_i32(#[trigger] args@[i]@) is Some,
        kept_pages(total as int, written_pages(args@)).len() > 0,
    ensures
        plan.kept@ == kept_pages(total as int, written_pages(args@)),
        plan.page_files@.len() == plan.kept@.len(),
        forall|i: int|
            0 <= i < plan.kept@.len() ==> (#[trigger] plan.page_files@[i])@ == "page_"@ + decimal(plan.kept@[i] as nat)
                + ".pdf"@,
        plan.output@ == "modified_"@ + document@,
{
    let deleted = match parse_page_numbers(args) {
        Ok(v) => v,
        Err(i) => {
            // Not reached: every argument is a page number.
            assert(parsed_i32(args@[i as int]@) is Some);
            Vec::new()
        },
    };
    assert(deleted@ =~= written_pages(args@));
    let kept = pages_to_keep(total, &deleted);
    proof {
        lemma_kept_pages(total as int, deleted@);
    }
    let mut page_files: Vec<String> = Vec::new();
    let mut i: usize = 0;
    while i < kept.len()
        invariant
            i <= kept@.len(),
            kept@ == kept_pages(total as int, deleted@),
            forall|k: int| 0 <= k < kept@.len() ==> 1 <= #[trigger] kept@[k],
            page_files@.len() == i,
            forall|k: int| 0 <= k < i ==> (#[trigger] page_files@[k])@ == "page_"@ + decimal(kept@[k] as nat) + ".pdf"@,
        decreases kept.len() - i,
    {
        assert(kept@.contains(kept@[i as int]));
        page_files.push(page_file_name(kept[i] as u32));
        i = i + 1;
    }
    let output = prefixed("modified_", document);
    DeletePlan { kept, page_files, output }
}

/// What `get_page` does with the page it is asked for.
pub enum GetPagePlan {
    /// The page is beyond the last page of the document.
    OutOfRange {
        /// The page asked for.
        page: i32,
        /// The number of pages of the document.
        count: i32,
    },
    /// Write the page to `file`: page index `index` of the document, or no
    /// page when the number is below 1.
    Write {
        /// `Page_<page>_<document>`.
        file: String,
        /// The 0-based index of the page, when the number is at least 1.
        index: Option<i32>,
    },
}

/// Plans `get_page` on a document of `count` pages named `document`: the
/// first argument, a page number, is the page to get.
pub fn get_page(args: &Vec<String>, count: i32, document: &str) -> (r: GetPagePlan)
    requires
        args@.len() > 0,
        parsed_i32(args@[0]@) is Some,
    ensures
        ({
            let page = parsed_i32(args@[0]@)->Some_0;
            if page > count {
                r == GetPagePlan::OutOfRange { page, count }
            } else {
                (r matches GetPagePlan::Write { file, index } && file@ == "Page_"@ + signed_decimal(page as int)
                    + "_"@ + document@ && index == (if page >= 1 { Some((page - 1) as i32) } else { None }))
            }
        }),
{
    let page = match parse_i32(args[0].as_str()) {
        Some(page) => page,
        // Not reached: the first argument is a page number.
        None => 0,
    };
    if page > count {
        GetPagePlan::OutOfRange { page, count }
    } else {
        let file = numbered_name("Page_", page as i64, document);
        let index = if page >= 1 { Some(page - 1) } else { None };
        GetPagePlan::Write { file, index }
    }
}

/// The page numbers from 1 to `count` other than `keep`.
pub open spec fn all_pages_but(count: int, keep: int) -> Seq<u32>
    decreases count,
{
    if count <= 0 {
        Seq::empty()
    } else if count == keep {
        all_pages_but(count - 1, keep)
    } else {
        all_pages_but(count - 1, keep).push(count as u32)
    }
}

/// The pages to delete from a document of `count` pages to keep page
/// `keep` only.
pub fn single_page_deletions(count: usize, keep: usize) -> (r: Vec<u32>)
    requires
        count <= u32::MAX,
    ensures
        r@ == all_pages_but(count as int, keep as int),
{
    let mut r: Vec<u32> = Vec::new();
    let mut j: usize = 0;
    while j < count
        invariant
            j <= count <= u32::MAX,
            r@ == all_pages_but(j as int, keep as int),
        decreases count - j,
    {
        let page = j + 1;
        if page != keep {
            r.push(page as u32);
        }
        j = j + 1;
    }
    r
}

/// The pages to delete from a document of `count` pages to keep page `page`
/// only; nothing when `page` is not a page of the document (or the pages
/// cannot be numbered in `u32`).
pub fn single_page_plan(count: usize, page: usize) -> (r: Option<Vec<u32>>)
    ensures
        r is None <==> !(1 <= page <= count && count <= u32::MAX),
        r matches Some(d) ==> d@ == all_pages_but(count as int, page as int),
{
    if page == 0 || page > count || count > u32::MAX as usize {
        None
    } else {
        Some(single_page_deletions(count, page))
    }
}

/// The order of `count` items once the items at `a` and `b` trade places.
pub open spec fn swapped(count: int, a: int, b: int) -> Seq<usize> {
    Seq::new(count as nat, |i: int| (if i == a { b } else if i == b { a } else { i }) as usize)
}

/// The order of `count` items once the items at `a` and `b` trade places.
pub fn swapped_order(count: usize, a: usize, b: usize) -> (r: Vec<usize>)
    requires
        a < count,
        b < count,
    ensures
        r@ == swapped(count as int, a as int, b as int),
        r@.len() == count,
        r@[a as int] == b,
        r@[b as int] == a,
        forall|i: int| 0 <= i < count && i != a && i != b ==> r@[i] == i,
{
    let mut r: Vec<usize> = Vec::new();
    let mut i: usize = 0;
    while i < count
        invariant
            i <= count,
            r@ == swapped(count as int, a as int, b as int).subrange(0, i as int),
        decreases count - i,
    {
        let item = if i == a { b } else if i == b { a } else { i };
        r.push(item);
        i = i + 1;
        assert(r@ =~= swapped(count as int, a as int, b as int).subrange(0, i as int));
    }
    assert(r@ =~= swapped(count as int, a as int, b as int));
    r
}

/// Swapping two places is undone by swapping them again, and gives an
/// order that holds every place once.
pub proof fn lemma_swap_involution(count: int, a: int, b: int)
    requires
        0 <= a < count,
        0 <= b < count,
        count <= usize::MAX,
    ensures
        forall|i: int| 0 <= i < count ==> swapped(count, a, b)[swapped(count, a, b)[i] as int] == i,
        forall|i: int| 0 <= i < count ==> 0 <= #[trigger] swapped(count, a, b)[i] < count,
        forall|i: int, j: int|
            0 <= i < j < count ==> swapped(count, a, b)[i] != swapped(count, a, b)[j],
{
}

/// Swapping two pages moves only those two: the page at `a` goes to `b`,
/// the page at `b` goes to `a`, and every other page stays where it was;
/// the order has as many places as the document has pages.
pub proof fn lemma_swap_moves_two_places(count: int, a: int, b: int)
    requires
        0 <= a < count,
        0 <= b < count,
        count <= usize::MAX,
    ensures
        swapped(count, a, b).len() == count,
        swapped(count, a, b)[a] == b,
        swapped(count, a, b)[b] == a,
        forall|i: int| 0 <= i < count && i != a && i != b ==> swapped(count, a, b)[i] == i,
{
}

/// What `reorganize` does.
pub enum ReorganizePlan {
    /// Nothing: the arguments do not ask for a swap.
    Nothing,
    /// A swap was asked for without exactly two pages: print its usage.
    Usage,
    /// Split the document into single pages, then merge them in a new order.
    Swap {
        /// For each page `i` from 1: the pages to delete to keep page `i` only.
        deletions: Vec<Vec<u32>>,
        /// For each page `i` from 1: `tmp_<i>_<document>`.
        temp_files: Vec<String>,
        /// The new order of the pages (0-based).
        order: Vec<usize>,
        /// `swapped_<document>`.
        output: String,
    },
}

/// Which pages of `count` two arguments name, by number from 1.
pub open spec fn named_pages(first: Seq<char>, second: Seq<char>, count: int) -> Option<(int, int)> {
    match (parsed_usize(first), parsed_usize(second)) {
        (Some(a), Some(b)) => if 1 <= a <= count && 1 <= b <= count {
            Some((a - 1, b - 1))
        } else {
            None
        },
        _ => None,
    }
}

/// Plans `reorganize` on a document of `count` pages named `document`. The
/// arguments `-s <a> <b>` swap pages `a` and `b`, which are pages of the
/// document; `-s` with another number of arguments asks for the usage;
/// anything else does nothing.
pub fn reorganize(args: &Vec<String>, count: usize, document: &str) -> (r: ReorganizePlan)
    requires
        count <= u32::MAX,
        args@.len() == 3 && args@[0]@ == "-s"@ ==> named_pages(args@[1]@, args@[2]@, count as int) is Some,
    ensures
        !(args@.len() > 1 && args@[0]@ == "-s"@) ==> r is Nothing,
        args@.len() > 1 && args@[0]@ == "-s"@ && args@.len() != 3 ==> r is Usage,
        args@.len() == 3 && args@[0]@ == "-s"@ ==> (r matches ReorganizePlan::Swap {
            deletions,
            temp_files,
            order,
            output,
        } && {
            &&& deletions@.len() == count && temp_files@.len() == count
            &&& forall|i: int| 0 <= i < count ==> (#[trigger] deletions@[i])@ == all_pages_but(count as int, i + 1)
            &&& forall|i: int| 0 <= i < count ==> (#[trigger] temp_files@[i])@ == "tmp_"@ + signed_decimal(i + 1) + "_"@ + document@
            &&& output@ == "swapped_"@ + document@
            &&& match named_pages(args@[1]@, args@[2]@, count as int) {
                None => false,
                Some((a, b)) => order@ == swapped(count as int, a, b),
            }
        }),
{
    if !(args.len() > 1 && same_text(args[0].as_str(), "-s")) {
        return ReorganizePlan::Nothing;
    }
    if args.len() != 3 {
        return ReorganizePlan::Usage;
    }
    let mut deletions: Vec<Vec<u32>> = Vec::new();
    let mut temp_files: Vec<String> = Vec::new();
    let mut i: usize = 0;
    while i < count
        invariant
            i <= count <= u32::MAX,
            deletions@.len() == i,
            temp_files@.len() == i,
            forall|k: int| 0 <= k < i ==> (#[trigger] deletions@[k])@ == all_pages_but(count as int, k + 1),
            forall|k: int| 0 <= k < i ==> (#[trigger] temp_files@[k])@ == "tmp_"@ + signed_decimal(k + 1) + "_"@ + document@,
        decreases count - i,
    {
        deletions.push(single_page_deletions(count, i + 1));
        temp_files.push(numbered_name("tmp_", (i + 1) as i64, document));
        i = i + 1;
    }
    let order = match (parse_usize(args[1].as_str()), parse_usize(args[2].as_str())) {
        (Some(a), Some(b)) => {
            if 1 <= a && a <= count && 1 <= b && b <= count {
                swapped_order(count, a - 1, b - 1)
            } else {
                // Not reached: both are pages of the document.
                Vec::new()
            }
        },
        // Not reached: both are page numbers.
        _ => Vec::new(),
    };
    let output = prefixed("swapped_", document);
    ReorganizePlan::Swap { deletions, temp_files, order, output }
}

/// What `split` does from the command line.
pub struct SplitPlan {
    /// `page_<n>.pdf` for each page `n` from 1.
    pub page_files: Vec<String>,
    /// The name of the archive.
    pub archive: String,
}

/// Plans `split` of a document of `pages` pages: each page goes to its own
/// file and the files are packed in an archive named by the arguments that
/// follow the document (see `split_archive_name`).
pub fn split(args: &Vec<String>, pages: u32) -> (r: Result<SplitPlan, MissingOptionValue>)
    ensures
        ({
            let k = last_option_index(texts(args@));
            &&& (r is Err <==> k >= 0 && k == args@.len() - 1)
            &&& (r matches Ok(plan) ==> {
                &&& plan.page_files@.len() == pages
                &&& forall|i: int| 0 <= i < pages ==> (#[trigger] plan.page_files@[i])@ == "page_"@ + decimal((i + 1) as nat) + ".pdf"@
                &&& plan.archive@ == if k == -1 { "splitted_document.zip"@ } else { zip_name(args@[k + 1]@) }
            })
        }),
{
    let mut page_files: Vec<String> = Vec::new();
    let mut i: u32 = 0;
    while i < pages
        invariant
            i <= pages,
            page_files@.len() == i,
            forall|k: int| 0 <= k < i ==> (#[trigger] page_files@[k])@ == "page_"@ + decimal((k + 1) as nat) + ".pdf"@,
        decreases pages - i,
    {
        page_files.push(page_file_name(i + 1));
        i = i + 1;
    }
    match split_archive_name(args) {
        Ok(archive) => Ok(SplitPlan { page_files, archive }),
        Err(e) => Err(e),
    }
}

} // verus!
