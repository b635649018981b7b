//! The decisions of the window application: which panel a tile opens, how
//! rows move in a list, how the page viewer turns pages, and which files a
//! panel accepts.

use vstd::prelude::*;
use vstd::string::*;
use crate::text::{
    after_last, chars_of, concat, contains, ends_with, has_infix, has_suffix, last_piece, replace_all,
    replace_first, replaced, replaced_once, same_text, string_of,
};

verus! {

/// A panel of the window application.
#[derive(Clone, Copy, Debug, PartialEq, Eq, Structural)]
pub enum Panel {
    /// Merge documents.
    Merge,
    /// Split documents into pages.
    Split,
    /// Reorder pages.
    Reorganize,
    /// Extract pages.
    GetPage,
    /// Delete pages.
    DeletePages,
    /// An empty panel.
    Empty,
}

/// The panel a tile named `name` opens.
pub open spec fn panel_named(name: Seq<char>) -> Panel {
    if name == "Merge"@ {
        Panel::Merge
    } else if name == "Split"@ {
        Panel::Split
    } else if name == "Reorganize"@ {
        Panel::Reorganize
    } else if name == "Get page"@ {
        Panel::GetPage
    } else if name == "Delete pages"@ {
        Panel::DeletePages
    } else {
        Panel::Empty
    }
}

/// The panel a tile named `name` opens.
pub fn get_widget(name: &str) -> (p: Panel)
    ensures
        p == panel_named(name@),
{
    if same_text(name, "Merge") {
        Panel::Merge
    } else if same_text(name, "Split") {
        Panel::Split
    } else if same_text(name, "Reorganize") {
        Panel::Reorganize
    } else if same_text(name, "Get page") {
        Panel::GetPage
    } else if same_text(name, "Delete pages") {
        Panel::DeletePages
    } else {
        Panel::Empty
    }
}

/// Each tool tile opens the panel of the same name (`Merge`, `Split`,
/// `Reorganize`, `Get page`, `Delete pages`), so distinct tools open
/// distinct panels; any other name opens the empty panel.
pub proof fn lemma_tiles_open_their_panels(name: Seq<char>)
    ensures
        panel_named("Merge"@) == Panel::Merge,
        panel_named("Split"@) == Panel::Split,
        panel_named("Reorganize"@) == Panel::Reorganize,
        panel_named("Get page"@) == Panel::GetPage,
        panel_named("Delete pages"@) == Panel::DeletePages,
        panel_named(name) == Panel::Empty <==> !(name == "Merge"@ || name == "Split"@ || name == "Reorganize"@ || name == "Get page"@ || name == "Delete pages"@),
{
    reveal_strlit("Merge");
    reveal_strlit("Split");
    reveal_strlit("Reorganize");
    reveal_strlit("Get page");
    reveal_strlit("Delete pages");
    assert("Merge"@[0] == 'M' && "Merge"@.len() == 5);
    assert("Split"@[0] == 'S' && "Split"@.len() == 5);
    assert("Reorganize"@[0] == 'R' && "Reorganize"@.len() == 10);
    assert("Get page"@[0] == 'G' && "Get page"@.len() == 8);
    assert("Delete pages"@[0] == 'D' && "Delete pages"@.len() == 12);
}

/// The theme button: its widget name says which theme is on (`button` for
/// the day theme, `nbutton` for the night theme). A press gives whether the
/// night theme is to be loaded and the button's new name; a button with
/// another name does nothing.
pub fn theme_toggle(name: &str) -> (r: Option<(bool, String)>)
    ensures
        name@ == "button"@ ==> (r matches Some((night, new_name)) && night && new_name@ == "nbutton"@),
        name@ == "nbutton"@ ==> (r matches Some((night, new_name)) && !night && new_name@ == "button"@),
        name@ != "button"@ && name@ != "nbutton"@ ==> r is None,
{
    proof {
        reveal_strlit("button");
        reveal_strlit("nbutton");
        assert("button"@.len() != "nbutton"@.len());
    }
    if same_text(name, "button") {
        Some((true, String::from_str("nbutton")))
    } else if same_text(name, "nbutton") {
        Some((false, String::from_str("button")))
    } else {
        None
    }
}

/// Position of the last `target` in `rows`, or 0 when there is none.
pub open spec fn row_position(rows: Seq<u64>, target: u64) -> int
    decreases rows.len(),
{
    if rows.len() == 0 {
        0
    } else if rows.last() == target {
        rows.len() - 1
    } else {
        row_position(rows.drop_last(), target)
    }
}

/// The index of the last row of a list (-1 when it is empty) and the
/// position of the row `target` in it (0 when it is not there). Rows are
/// told apart by their identity.
pub fn count(rows: &Vec<u64>, target: u64) -> (r: (i32, i32))
    requires
        rows@.len() <= i32::MAX,
    ensures
        r.0 == rows@.len() - 1,
        r.1 == row_position(rows@, target),
{
    let mut number: i32 = 0;
    let mut row_index: i32 = 0;
    while (number as usize) < rows.len()
        invariant
            0 <= number <= rows@.len() <= i32::MAX,
            row_index == row_position(rows@.subrange(0, number as int), target),
        decreases rows@.len() - number,
    {
        proof {
            assert(rows@.subrange(0, number + 1).drop_last() =~= rows@.subrange(0, number as int));
        }
        if rows[number as usize] == target {
            row_index = number;
        }
        number = number + 1;
    }
    assert(rows@.subrange(0, number as int) =~= rows@);
    (number - 1, row_index)
}

/// The list once the row at `i` moves one place up (towards the top) or
/// down; a row already at that end stays.
pub open spec fn moved<T>(s: Seq<T>, i: int, up: bool) -> Seq<T> {
    if up && 0 < i < s.len() {
        s.update(i - 1, s[i]).update(i, s[i - 1])
    } else if !up && 0 <= i < s.len() - 1 {
        s.update(i + 1, s[i]).update(i, s[i + 1])
    } else {
        s
    }
}

/// Where the row at `i` stands once moved.
pub open spec fn moved_position(len: int, i: int, up: bool) -> int {
    if up && 0 < i < len {
        i - 1
    } else if !up && 0 <= i < len - 1 {
        i + 1
    } else {
        i
    }
}

/// Moves the row at `index` one place up or down in the list, as the move
/// buttons do: the row is taken out and put back one place further, unless
/// it already is at that end of the list. Gives the row's new position.
pub fn move_row<T>(rows: &mut Vec<T>, index: usize, up: bool) -> (r: usize)
    requires
        index < old(rows)@.len(),
    ensures
        final(rows)@ == moved(old(rows)@, index as int, up),
        r == moved_position(old(rows)@.len() as int, index as int, up),
{
    if up {
        if index > 0 {
            let row = rows.remove(index);
            rows.insert(index - 1, row);
            assert(rows@ =~= moved(old(rows)@, index as int, up));
            index - 1
        } else {
            index
        }
    } else {
        if index < rows.len() - 1 {
            let row = rows.remove(index);
            rows.insert(index + 1, row);
            assert(rows@ =~= moved(old(rows)@, index as int, up));
            index + 1
        } else {
            index
        }
    }
}

/// Moving a row up and then down again (or down and then up) gives back
/// the list and the row's position.
pub proof fn lemma_move_back<T>(s: Seq<T>, i: int, up: bool)
    requires
        0 <= i < s.len(),
    ensures
        moved_position(s.len() as int, i, up) != i ==> moved(
            moved(s, i, up),
            moved_position(s.len() as int, i, up),
            !up,
        ) == s && moved_position(s.len() as int, moved_position(s.len() as int, i, up), !up) == i,
{
    if moved_position(s.len() as int, i, up) != i {
        assert(moved(moved(s, i, up), moved_position(s.len() as int, i, up), !up) =~= s);
    }
}

/// Where a click lands on the page viewer.
#[derive(Clone, Copy, Debug, PartialEq, Eq, Structural)]
pub enum ClickZone {
    /// The top fifth: show or hide the bars.
    Top,
    /// Right of the middle: next page.
    Right,
    /// Left of the middle: previous page.
    Left,
    /// Exactly on the middle: nothing.
    Middle,
}

/// What the page viewer does on a click: the page it shows next and
/// whether it shows or hides its bars.
pub open spec fn viewer_step(current: i32, pages: i32, zone: ClickZone) -> (i32, bool) {
    match zone {
        ClickZone::Top => (current, true),
        ClickZone::Right => if current < pages {
            ((current + 1) as i32, false)
        } else {
            (current, false)
        },
        ClickZone::Left => if current > 1 {
            ((current - 1) as i32, false)
        } else {
            (current, false)
        },
        ClickZone::Middle => (current, false),
    }
}

/// The page viewer's answer to a click: the page it shows next and whether
/// it toggles its bars.
pub fn viewer_click(current: i32, pages: i32, zone: ClickZone) -> (r: (i32, bool))
    ensures
        r == viewer_step(current, pages, zone),
{
    match zone {
        ClickZone::Top => (current, true),
        ClickZone::Right => if current < pages {
            (current + 1, false)
        } else {
            (current, false)
        },
        ClickZone::Left => if current > 1 {
            (current - 1, false)
        } else {
            (current, false)
        },
        ClickZone::Middle => (current, false),
    }
}

/// The viewer never leaves the pages of the document: from a page between 1
/// and the last, every click leads to such a page; and the next page is
/// left again by a click on the left.
pub proof fn lemma_viewer_stays(current: i32, pages: i32, zone: ClickZone)
    requires
        1 <= current <= pages,
    ensures
        1 <= viewer_step(current, pages, zone).0 <= pages,
        zone == ClickZone::Right && current < pages ==> viewer_step(
            viewer_step(current, pages, zone).0,
            pages,
            ClickZone::Left,
        ).0 == current,
{
}

/// Whether the merge panel takes a chosen file: its name (the last piece
/// of its path) contains `.pdf`.
pub fn takes_document(path: &str) -> (r: bool)
    ensures
        r == has_infix(after_last(path@, '/'), ".pdf"@),
{
    contains(&last_piece(&chars_of(path), '/'), &chars_of(".pdf"))
}

/// Whether the page panels take a chosen file: its path ends with `.pdf`.
pub fn is_pdf_path(path: &str) -> (r: bool)
    ensures
        r == has_suffix(path@, ".pdf"@),
{
    ends_with(&chars_of(path), &chars_of(".pdf"))
}

/// The path a page extraction proposes: the document's path with its first
/// `.pdf` turned into `_modified.pdf`.
pub fn modified_path(path: &str) -> (r: String)
    ensures
        r@ == replaced_once(path@, ".pdf"@, "_modified.pdf"@),
{
    let s = replace_first(&chars_of(path), &chars_of(".pdf"), &chars_of("_modified.pdf"));
    string_of(&s)
}

/// The document a page extraction reads, from the path it writes: every
/// `_modified.pdf` turned back into `.pdf`.
pub fn source_path(path: &str) -> (r: String)
    ensures
        r@ == replaced(path@, "_modified.pdf"@, ".pdf"@),
{
    proof {
        reveal_strlit("_modified.pdf");
    }
    let s = replace_all(&chars_of(path), &chars_of("_modified.pdf"), &chars_of(".pdf"));
    string_of(&s)
}

/// The pages of the page list that are not ticked, last first, each
/// followed by a space.
pub open spec fn unticked_pages_text(rows: Seq<(Seq<char>, bool)>) -> Seq<char>
    decreases rows.len(),
{
    if rows.len() == 0 {
        Seq::empty()
    } else if rows.last().1 {
        unticked_pages_text(rows.drop_last())
    } else {
        rows.last().0 + " "@ + unticked_pages_text(rows.drop_last())
    }
}

/// The view of page rows: each page's number and whether it is ticked.
pub open spec fn row_texts(rows: Seq<(String, bool)>) -> Seq<(Seq<char>, bool)> {
    rows.map_values(|r: (String, bool)| (r.0@, r.1))
}

/// The pages to extract, as one argument: the numbers of the pages that
/// are not ticked, last first, separated by spaces.
pub fn unticked_pages(rows: &Vec<(String, bool)>) -> (r: String)
    ensures
        r@ == (if unticked_pages_text(row_texts(rows@)).len() == 0 {
            Seq::empty()
        } else {
            unticked_pages_text(row_texts(rows@)).drop_last()
        }),
{
    let mut acc: Vec<char> = Vec::new();
    let mut i: usize = 0;
    while i < rows.len()
        invariant
            i <= rows@.len(),
            acc@ == unticked_pages_text(row_texts(rows@.subrange(0, i as int))),
        decreases rows.len() - i,
    {
        proof {
            assert(row_texts(rows@.subrange(0, i + 1)).drop_last() =~= row_texts(rows@.subrange(0, i as int)));
            assert(row_texts(rows@.subrange(0, i + 1)).last() == (rows@[i as int].0@, rows@[i as int].1));
        }
        if !rows[i].1 {
            let head = concat(&chars_of(rows[i].0.as_str()), &chars_of(" "));
            acc = concat(&head, &acc);
        }
        i = i + 1;
    }
    assert(rows@.subrange(0, i as int) =~= rows@);
    if acc.len() > 0 {
        acc.pop();
    }
    string_of(&acc)
}

} // verus!
