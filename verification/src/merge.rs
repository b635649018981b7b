//! The plan of a merge of several PDF documents.
//!
//! Each input document is described by an outline: the ids of its pages in
//! page order, and the ids of its objects with their `/Type` name. The plan
//! says which objects of which input end up in the merged document, which
//! object becomes the catalog and which the page tree root, the page list of
//! the root, and the bookmarks that mark where each input starts.

use vstd::prelude::*;
use crate::ids::{
    ascending_union, id_key, in_some_list, key_listed, keys_ascending, last_holder, lemma_id_key_injective,
    lemma_last_holder_range, list_views,
};

verus! {

/// What an object of an input document is, by its `/Type` name.
#[derive(Clone, Copy, Debug, PartialEq, Eq, Structural)]
pub enum ObjectKind {
    /// `/Type /Catalog`: the document catalog.
    Catalog,
    /// `/Type /Pages`: a node of the page tree.
    PageTree,
    /// `/Type /Page`: a page.
    Page,
    /// `/Type /Outlines`: the root of the outline.
    Outlines,
    /// `/Type /Outline`: an outline item.
    Outline,
    /// Any other object, with another type name or none.
    Other,
}

/// One object of an input document.
pub struct ObjectEntry {
    /// The object's id.
    pub id: (u32, u16),
    /// The object's `/Type` name, when it has one.
    pub kind_name: Option<Vec<u8>>,
    /// The object is a dictionary (and not, say, a stream).
    pub is_dictionary: bool,
}

/// One page of an input document.
pub struct PageEntry {
    /// The id of the page object.
    pub id: (u32, u16),
    /// The page object can be found in the document.
    pub found: bool,
    /// The page object that was found is a dictionary.
    pub is_dictionary: bool,
}

/// What the merge reads of one input document.
pub struct DocumentOutline {
    /// Its pages, in page order.
    pub pages: Vec<PageEntry>,
    /// Its objects, in ascending id order.
    pub objects: Vec<ObjectEntry>,
}

/// A bookmark of the merged document: it is titled `Page_<number>` and
/// points at `page`.
pub struct BookmarkPlan {
    /// The number in the bookmark's title.
    pub number: usize,
    /// The page the bookmark points at.
    pub page: (u32, u16),
}

/// Where each object of the merged document comes from.
pub struct MergePlan {
    /// One bookmark for each input that has pages, at its first page.
    pub bookmarks: Vec<BookmarkPlan>,
    /// The objects copied as they are, each with the input it is taken from.
    pub copied: Vec<((u32, u16), usize)>,
    /// The pages, in ascending id order, each with the input it is taken
    /// from and whether that page object is a dictionary; every page gets
    /// the page tree root as its parent, and the list is the root's `/Kids`.
    pub pages: Vec<((u32, u16), (usize, bool))>,
    /// The id of the page tree root.
    pub page_tree_root: (u32, u16),
    /// The page tree nodes whose dictionaries are combined into the root, in
    /// ascending id order, each with the input it is taken from.
    pub page_tree_sources: Vec<((u32, u16), usize)>,
    /// The id of the catalog.
    pub catalog_root: (u32, u16),
    /// The catalog object that is used, with the input it is taken from.
    pub catalog_source: ((u32, u16), usize),
    /// That catalog object is a dictionary.
    pub catalog_is_dictionary: bool,
}

/// Why a merge cannot be planned.
#[derive(Clone, Copy, Debug, PartialEq, Eq, Structural)]
pub enum MergeError {
    /// A page of an input cannot be found among its objects.
    PageObjectMissing,
    /// No input holds a page tree node that is a dictionary.
    PageTreeRootMissing,
    /// No input holds a catalog.
    CatalogMissing,
    /// The inputs hold too many objects to be numbered one after the other.
    IdsExhausted,
}

/// The type name `Catalog`.
pub open spec fn catalog_word() -> Seq<u8> {
    seq![67u8, 97, 116, 97, 108, 111, 103]
}

/// The type name `Pages`.
pub open spec fn pages_word() -> Seq<u8> {
    seq![80u8, 97, 103, 101, 115]
}

/// The type name `Page`.
pub open spec fn page_word() -> Seq<u8> {
    seq![80u8, 97, 103, 101]
}

/// The type name `Outlines`.
pub open spec fn outlines_word() -> Seq<u8> {
    seq![79u8, 117, 116, 108, 105, 110, 101, 115]
}

/// The type name `Outline`.
pub open spec fn outline_word() -> Seq<u8> {
    seq![79u8, 117, 116, 108, 105, 110, 101]
}

/// The kind of an object with the given type name.
pub open spec fn kind_of_name(name: Option<Seq<u8>>) -> ObjectKind {
    match name {
        None => ObjectKind::Other,
        Some(n) => if n == catalog_word() {
            ObjectKind::Catalog
        } else if n == pages_word() {
            ObjectKind::PageTree
        } else if n == page_word() {
            ObjectKind::Page
        } else if n == outlines_word() {
            ObjectKind::Outlines
        } else if n == outline_word() {
            ObjectKind::Outline
        } else {
            ObjectKind::Other
        },
    }
}

/// The type name of an entry, as bytes.
pub open spec fn entry_name(e: ObjectEntry) -> Option<Seq<u8>> {
    match e.kind_name {
        None => None,
        Some(v) => Some(v@),
    }
}

/// The kind of an entry.
pub open spec fn entry_kind(e: ObjectEntry) -> ObjectKind {
    kind_of_name(entry_name(e))
}

fn same_bytes(a: &Vec<u8>, b: &[u8]) -> (r: bool)
    ensures
        r == (a@ == b@),
{
    if a.len() != b.len() {
        return false;
    }
    let mut i: usize = 0;
    while i < a.len()
        invariant
            i <= a.len(),
            a.len() == b@.len(),
            forall|k: int| 0 <= k < i ==> a@[k] == b@[k],
        decreases a.len() - i,
    {
        if a[i] != b[i] {
            return false;
        }
        i = i + 1;
    }
    assert(a@ =~= b@);
    true
}

/// The kind of an object with the given type name.
pub fn classify(name: &Option<Vec<u8>>) -> (k: ObjectKind)
    ensures
        k == kind_of_name(match name {
            None => None,
            Some(v) => Some(v@),
        }),
{
    match name {
        None => ObjectKind::Other,
        Some(n) => {
            let catalog: [u8; 7] = [67, 97, 116, 97, 108, 111, 103];
            let pages: [u8; 5] = [80, 97, 103, 101, 115];
            let page: [u8; 4] = [80, 97, 103, 101];
            let outlines: [u8; 8] = [79, 117, 116, 108, 105, 110, 101, 115];
            let outline: [u8; 7] = [79, 117, 116, 108, 105, 110, 101];
            if same_bytes(n, &catalog) {
                ObjectKind::Catalog
            } else if same_bytes(n, &pages) {
                ObjectKind::PageTree
            } else if same_bytes(n, &page) {
                ObjectKind::Page
            } else if same_bytes(n, &outlines) {
                ObjectKind::Outlines
            } else if same_bytes(n, &outline) {
                ObjectKind::Outline
            } else {
                ObjectKind::Other
            }
        },
    }
}

/// The ids of the objects of a document, in its order.
pub open spec fn object_ids(doc: DocumentOutline) -> Seq<(u32, u16)> {
    doc.objects@.map_values(|e: ObjectEntry| e.id)
}

/// The ids of the pages of a document, in page order.
pub open spec fn page_ids(doc: DocumentOutline) -> Seq<(u32, u16)> {
    doc.pages@.map_values(|p: PageEntry| p.id)
}

/// The object ids of each input.
pub open spec fn object_lists(docs: Seq<DocumentOutline>) -> Seq<Seq<(u32, u16)>> {
    docs.map_values(|d: DocumentOutline| object_ids(d))
}

/// The page ids of each input.
pub open spec fn page_lists(docs: Seq<DocumentOutline>) -> Seq<Seq<(u32, u16)>> {
    docs.map_values(|d: DocumentOutline| page_ids(d))
}

/// A document outline as the merge expects it: objects in strictly
/// ascending id order, and one page object described the same way wherever
/// it is listed.
pub open spec fn outline_wf(doc: DocumentOutline) -> bool {
    &&& forall|i: int, j: int|
        0 <= i < j < doc.objects@.len() ==> id_key(#[trigger] doc.objects@[i].id) < id_key(
            #[trigger] doc.objects@[j].id,
        )
    &&& forall|i: int, j: int|
        0 <= i < doc.pages@.len() && 0 <= j < doc.pages@.len() && #[trigger] doc.pages@[i].id
            == #[trigger] doc.pages@[j].id ==> doc.pages@[i].found == doc.pages@[j].found
            && doc.pages@[i].is_dictionary == doc.pages@[j].is_dictionary
}

/// Every input outline is well formed.
pub open spec fn outlines_wf(docs: Seq<DocumentOutline>) -> bool {
    forall|d: int| 0 <= d < docs.len() ==> outline_wf(#[trigger] docs[d])
}

/// Some input holds an object with this id.
pub open spec fn in_objects(docs: Seq<DocumentOutline>, id: (u32, u16)) -> bool {
    in_some_list(object_lists(docs), id)
}

/// Some input has a page with this id.
pub open spec fn in_pages(docs: Seq<DocumentOutline>, id: (u32, u16)) -> bool {
    in_some_list(page_lists(docs), id)
}

/// The input whose object with this id is kept: the last one holding it.
pub open spec fn object_source(docs: Seq<DocumentOutline>, id: (u32, u16)) -> int {
    last_holder(object_lists(docs), id, docs.len() as int)
}

/// The input whose page with this id is kept: the last one listing it.
pub open spec fn page_source(docs: Seq<DocumentOutline>, id: (u32, u16)) -> int {
    last_holder(page_lists(docs), id, docs.len() as int)
}

/// The object of a document with the given id.
pub open spec fn entry_in(doc: DocumentOutline, id: (u32, u16)) -> ObjectEntry {
    doc.objects@[choose|j: int| 0 <= j < doc.objects@.len() && doc.objects@[j].id == id]
}

/// The page of a document with the given id.
pub open spec fn page_in(doc: DocumentOutline, id: (u32, u16)) -> PageEntry {
    doc.pages@[choose|j: int| 0 <= j < doc.pages@.len() && doc.pages@[j].id == id]
}

/// The object that is kept for this id.
pub open spec fn merged_entry(docs: Seq<DocumentOutline>, id: (u32, u16)) -> ObjectEntry {
    entry_in(docs[object_source(docs, id)], id)
}

/// The kind of the object that is kept for this id.
pub open spec fn merged_kind(docs: Seq<DocumentOutline>, id: (u32, u16)) -> ObjectKind {
    entry_kind(merged_entry(docs, id))
}

/// The page that is kept for this id.
pub open spec fn merged_page(docs: Seq<DocumentOutline>, id: (u32, u16)) -> PageEntry {
    page_in(docs[page_source(docs, id)], id)
}

/// Some page of some input cannot be found in that input.
pub open spec fn page_missing(docs: Seq<DocumentOutline>) -> bool {
    exists|d: int, i: int|
        0 <= d < docs.len() && 0 <= i < docs[d].pages@.len() && !(#[trigger] docs[d].pages@[i]).found
}

/// The kept object with this id is a page tree node that is a dictionary.
pub open spec fn is_tree_node(docs: Seq<DocumentOutline>, id: (u32, u16)) -> bool {
    &&& in_objects(docs, id)
    &&& merged_kind(docs, id) == ObjectKind::PageTree
    &&& merged_entry(docs, id).is_dictionary
}

/// The kept object with this id is a catalog.
pub open spec fn is_catalog(docs: Seq<DocumentOutline>, id: (u32, u16)) -> bool {
    in_objects(docs, id) && merged_kind(docs, id) == ObjectKind::Catalog
}

/// The kept object with this id is copied as it is.
pub open spec fn is_copied(docs: Seq<DocumentOutline>, id: (u32, u16)) -> bool {
    in_objects(docs, id) && merged_kind(docs, id) == ObjectKind::Other
}

/// The first page of each input that has pages, in input order.
pub open spec fn bookmark_pages(docs: Seq<DocumentOutline>) -> Seq<(u32, u16)>
    decreases docs.len(),
{
    if docs.len() == 0 {
        Seq::empty()
    } else {
        let rest = bookmark_pages(docs.drop_last());
        if docs.last().pages@.len() > 0 {
            rest.push(docs.last().pages@[0].id)
        } else {
            rest
        }
    }
}

/// `plan` is the plan of the merge of `docs`.
pub open spec fn is_merge_plan(docs: Seq<DocumentOutline>, plan: MergePlan) -> bool {
    &&& plan.bookmarks@.len() == bookmark_pages(docs).len()
    &&& forall|k: int|
        0 <= k < plan.bookmarks@.len() ==> (#[trigger] plan.bookmarks@[k]).number == k + 1
            && plan.bookmarks@[k].page == bookmark_pages(docs)[k]
    &&& keys_ascending(plan.copied@)
    &&& forall|i: int|
        0 <= i < plan.copied@.len() ==> is_copied(docs, (#[trigger] plan.copied@[i]).0)
            && plan.copied@[i].1 == object_source(docs, plan.copied@[i].0)
    &&& forall|id: (u32, u16)| #[trigger] is_copied(docs, id) ==> key_listed(plan.copied@, id)
    &&& keys_ascending(plan.pages@)
    &&& forall|i: int|
        0 <= i < plan.pages@.len() ==> in_pages(docs, (#[trigger] plan.pages@[i]).0)
            && plan.pages@[i].1.0 == page_source(docs, plan.pages@[i].0)
            && plan.pages@[i].1.1 == merged_page(docs, plan.pages@[i].0).is_dictionary
    &&& forall|id: (u32, u16)| #[trigger] in_pages(docs, id) ==> key_listed(plan.pages@, id)
    &&& keys_ascending(plan.page_tree_sources@)
    &&& forall|i: int|
        0 <= i < plan.page_tree_sources@.len() ==> is_tree_node(
            docs,
            (#[trigger] plan.page_tree_sources@[i]).0,
        ) && plan.page_tree_sources@[i].1 == object_source(docs, plan.page_tree_sources@[i].0)
    &&& forall|id: (u32, u16)|
        #[trigger] is_tree_node(docs, id) ==> key_listed(plan.page_tree_sources@, id)
    &&& plan.page_tree_sources@.len() > 0
    &&& plan.page_tree_root == plan.page_tree_sources@[0].0
    &&& is_catalog(docs, plan.catalog_root)
    &&& forall|id: (u32, u16)|
        #[trigger] is_catalog(docs, id) ==> id_key(plan.catalog_root) <= id_key(id)
    &&& is_catalog(docs, plan.catalog_source.0)
    &&& forall|id: (u32, u16)|
        #[trigger] is_catalog(docs, id) ==> id_key(id) <= id_key(plan.catalog_source.0)
    &&& plan.catalog_source.1 == object_source(docs, plan.catalog_source.0)
    &&& plan.catalog_is_dictionary == merged_entry(docs, plan.catalog_source.0).is_dictionary
}

/// In an outline whose ids ascend, the object found at `j` is the object
/// with that id.
proof fn lemma_entry_in(doc: DocumentOutline, id: (u32, u16), j: int)
    requires
        outline_wf(doc),
        0 <= j < doc.objects@.len(),
        doc.objects@[j].id == id,
    ensures
        entry_in(doc, id) == doc.objects@[j],
{
    let k = choose|k: int| 0 <= k < doc.objects@.len() && doc.objects@[k].id == id;
    if k != j {
        if k < j {
            assert(id_key(doc.objects@[k].id) < id_key(doc.objects@[j].id));
        } else {
            assert(id_key(doc.objects@[j].id) < id_key(doc.objects@[k].id));
        }
    }
}

/// The page found at `j` is described like the page with that id.
proof fn lemma_page_in(doc: DocumentOutline, id: (u32, u16), j: int)
    requires
        outline_wf(doc),
        0 <= j < doc.pages@.len(),
        doc.pages@[j].id == id,
    ensures
        page_in(doc, id).found == doc.pages@[j].found,
        page_in(doc, id).is_dictionary == doc.pages@[j].is_dictionary,
        page_in(doc, id).id == id,
{
    let k = choose|k: int| 0 <= k < doc.pages@.len() && doc.pages@[k].id == id;
    assert(doc.pages@[k].id == doc.pages@[j].id);
}

/// Index of the object with id `id` in `doc`, which holds one.
fn find_object(doc: &DocumentOutline, id: (u32, u16)) -> (j: usize)
    requires
        object_ids(*doc).contains(id),
    ensures
        j < doc.objects@.len(),
        doc.objects@[j as int].id == id,
{
    let mut j: usize = 0;
    while j < doc.objects.len()
        invariant
            j <= doc.objects@.len(),
            object_ids(*doc).contains(id),
            forall|k: int| 0 <= k < j ==> doc.objects@[k].id != id,
        decreases doc.objects.len() - j,
    {
        let e = &doc.objects[j];
        if e.id.0 == id.0 && e.id.1 == id.1 {
            return j;
        }
        j = j + 1;
    }
    proof {
        let k = choose|k: int| 0 <= k < object_ids(*doc).len() && object_ids(*doc)[k] == id;
        assert(doc.objects@[k].id == id);
    }
    0
}

/// Index of a page with id `id` in `doc`, which lists one.
fn find_page(doc: &DocumentOutline, id: (u32, u16)) -> (j: usize)
    requires
        page_ids(*doc).contains(id),
    ensures
        j < doc.pages@.len(),
        doc.pages@[j as int].id == id,
{
    let mut j: usize = 0;
    while j < doc.pages.len()
        invariant
            j <= doc.pages@.len(),
            page_ids(*doc).contains(id),
            forall|k: int| 0 <= k < j ==> doc.pages@[k].id != id,
        decreases doc.pages.len() - j,
    {
        let e = &doc.pages[j];
        if e.id.0 == id.0 && e.id.1 == id.1 {
            return j;
        }
        j = j + 1;
    }
    proof {
        let k = choose|k: int| 0 <= k < page_ids(*doc).len() && page_ids(*doc)[k] == id;
        assert(doc.pages@[k].id == id);
    }
    0
}

/// Whether some page of some input cannot be found in that input.
fn any_page_missing(docs: &Vec<DocumentOutline>) -> (r: bool)
    ensures
        r == page_missing(docs@),
{
    let mut d: usize = 0;
    while d < docs.len()
        invariant
            d <= docs.len(),
            forall|e: int, i: int|
                0 <= e < d && 0 <= i < docs@[e].pages@.len() ==> (#[trigger] docs@[e].pages@[i]).found,
        decreases docs.len() - d,
    {
        let doc = &docs[d];
        let mut i: usize = 0;
        while i < doc.pages.len()
            invariant
                d < docs.len(),
                *doc == docs@[d as int],
                i <= doc.pages@.len(),
                forall|e: int, k: int|
                    0 <= e < d && 0 <= k < docs@[e].pages@.len() ==> (#[trigger] docs@[e].pages@[k]).found,
                forall|k: int| 0 <= k < i ==> (#[trigger] doc.pages@[k]).found,
            decreases doc.pages.len() - i,
        {
            if !doc.pages[i].found {
                assert(!docs@[d as int].pages@[i as int].found);
                return true;
            }
            i = i + 1;
        }
        d = d + 1;
    }
    false
}

/// The bookmarks of the merge: one per input with pages, numbered from 1,
/// at the input's first page.
fn plan_bookmarks(docs: &Vec<DocumentOutline>) -> (r: Vec<BookmarkPlan>)
    ensures
        r@.len() == bookmark_pages(docs@).len(),
        forall|k: int|
            0 <= k < r@.len() ==> (#[trigger] r@[k]).number == k + 1 && r@[k].page
                == bookmark_pages(docs@)[k],
{
    let mut out: Vec<BookmarkPlan> = Vec::new();
    let mut d: usize = 0;
    while d < docs.len()
        invariant
            d <= docs.len(),
            out@.len() == bookmark_pages(docs@.take(d as int)).len(),
            out@.len() <= d,
            forall|k: int|
                0 <= k < out@.len() ==> (#[trigger] out@[k]).number == k + 1 && out@[k].page
                    == bookmark_pages(docs@.take(d as int))[k],
        decreases docs.len() - d,
    {
        let ghost prev = docs@.take(d as int);
        assert(docs@.take(d + 1).drop_last() =~= prev);
        let doc = &docs[d];
        if doc.pages.len() > 0 {
            let number = out.len() + 1;
            out.push(BookmarkPlan { number, page: doc.pages[0].id });
        }
        d = d + 1;
        assert(forall|k: int|
            0 <= k < out@.len() ==> (#[trigger] out@[k]).number == k + 1 && out@[k].page
                == bookmark_pages(docs@.take(d as int))[k]);
    }
    assert(docs@.take(docs.len() as int) =~= docs@);
    out
}

/// The object ids of each input.
fn object_id_lists(docs: &Vec<DocumentOutline>) -> (r: Vec<Vec<(u32, u16)>>)
    ensures
        list_views(r@) == object_lists(docs@),
        r@.len() == docs@.len(),
{
    let mut out: Vec<Vec<(u32, u16)>> = Vec::new();
    let mut d: usize = 0;
    while d < docs.len()
        invariant
            d <= docs.len(),
            out@.len() == d,
            forall|e: int| 0 <= e < d ==> (#[trigger] out@[e])@ == object_ids(docs@[e]),
        decreases docs.len() - d,
    {
        let doc = &docs[d];
        let mut ids: Vec<(u32, u16)> = Vec::new();
        let mut i: usize = 0;
        while i < doc.objects.len()
            invariant
                i <= doc.objects@.len(),
                ids@ == object_ids(*doc).take(i as int),
            decreases doc.objects.len() - i,
        {
            ids.push(doc.objects[i].id);
            i = i + 1;
            assert(ids@ =~= object_ids(*doc).take(i as int));
        }
        assert(ids@ =~= object_ids(*doc));
        out.push(ids);
        d = d + 1;
    }
    assert(list_views(out@) =~= object_lists(docs@));
    out
}

/// The page ids of each input.
fn page_id_lists(docs: &Vec<DocumentOutline>) -> (r: Vec<Vec<(u32, u16)>>)
    ensures
        list_views(r@) == page_lists(docs@),
        r@.len() == docs@.len(),
{
    let mut out: Vec<Vec<(u32, u16)>> = Vec::new();
    let mut d: usize = 0;
    while d < docs.len()
        invariant
            d <= docs.len(),
            out@.len() == d,
            forall|e: int| 0 <= e < d ==> (#[trigger] out@[e])@ == page_ids(docs@[e]),
        decreases docs.len() - d,
    {
        let doc = &docs[d];
        let mut ids: Vec<(u32, u16)> = Vec::new();
        let mut i: usize = 0;
        while i < doc.pages.len()
            invariant
                i <= doc.pages@.len(),
                ids@ == page_ids(*doc).take(i as int),
            decreases doc.pages.len() - i,
        {
            ids.push(doc.pages[i].id);
            i = i + 1;
            assert(ids@ =~= page_ids(*doc).take(i as int));
        }
        assert(ids@ =~= page_ids(*doc));
        out.push(ids);
        d = d + 1;
    }
    assert(list_views(out@) =~= page_lists(docs@));
    out
}

/// `r` is what the merge of `docs` gives: the plan when it can be made, or
/// the first reason why it cannot.
pub open spec fn merge_outcome(docs: Seq<DocumentOutline>, r: Result<MergePlan, MergeError>) -> bool {
    &&& (r matches Err(MergeError::PageObjectMissing)) <==> page_missing(docs)
    &&& (r matches Err(MergeError::PageTreeRootMissing)) <==> !page_missing(docs) && !exists|id: (u32, u16)|
        is_tree_node(docs, id)
    &&& (r matches Err(MergeError::CatalogMissing)) <==> !page_missing(docs) && (exists|id: (u32, u16)|
        is_tree_node(docs, id)) && !exists|id: (u32, u16)| is_catalog(docs, id)
    &&& !(r matches Err(MergeError::IdsExhausted))
    &&& (r matches Ok(plan) ==> is_merge_plan(docs, plan))
}

/// The inputs are numbered one after the other: every object number of an
/// input is below every object number of a later input.
pub open spec fn numbered_in_sequence(docs: Seq<DocumentOutline>) -> bool {
    forall|d: int, e: int, i: int, j: int|
        0 <= d < e < docs.len() && 0 <= i < docs[d].objects@.len() && 0 <= j < docs[e].objects@.len()
            ==> (#[trigger] docs[d].objects@[i]).id.0 < (#[trigger] docs[e].objects@[j]).id.0
}

/// Every page of a document that can be found is one of its objects.
pub open spec fn found_pages_are_objects(doc: DocumentOutline) -> bool {
    forall|i: int|
        0 <= i < doc.pages@.len() && (#[trigger] doc.pages@[i]).found ==> exists|j: int|
            0 <= j < doc.objects@.len() && id_key(doc.objects@[j].id) == id_key(doc.pages@[i].id)
}

/// Every page of an input that can be found is one of that input's objects.
pub open spec fn pages_among_objects(docs: Seq<DocumentOutline>) -> bool {
    forall|d: int| 0 <= d < docs.len() ==> found_pages_are_objects(#[trigger] docs[d])
}

/// When the inputs are numbered one after the other and their pages are
/// among their objects, the pages of the merged document come input by
/// input, in the order the inputs were given.
pub proof fn lemma_pages_in_input_order(docs: Seq<DocumentOutline>, plan: MergePlan)
    requires
        !page_missing(docs),
        is_merge_plan(docs, plan),
        numbered_in_sequence(docs),
        pages_among_objects(docs),
    ensures
        forall|i: int, j: int|
            0 <= i < j < plan.pages@.len() ==> (#[trigger] plan.pages@[i]).1.0 <= (#[trigger] plan.pages@[j]).1.0,
{
    let lists = page_lists(docs);
    assert forall|i: int, j: int| 0 <= i < j < plan.pages@.len() implies (#[trigger] plan.pages@[i]).1.0
        <= (#[trigger] plan.pages@[j]).1.0 by {
        let p = plan.pages@[i].0;
        let q = plan.pages@[j].0;
        assert(in_pages(docs, p) && in_pages(docs, q));
        lemma_last_holder_range(lists, p, docs.len() as int);
        lemma_last_holder_range(lists, q, docs.len() as int);
        let s = page_source(docs, p);
        let t = page_source(docs, q);
        if s > t {
            assert(lists[s] == page_ids(docs[s]));
            assert(lists[t] == page_ids(docs[t]));
            let a = choose|a: int| 0 <= a < lists[s].len() && lists[s][a] == p;
            let b = choose|b: int| 0 <= b < lists[t].len() && lists[t][b] == q;
            assert(docs[s].pages@[a].id == p);
            assert(docs[t].pages@[b].id == q);
            assert(docs[s].pages@[a].found && docs[t].pages@[b].found);
            assert(found_pages_are_objects(docs[s]) && found_pages_are_objects(docs[t]));
            let x = choose|x: int|
                0 <= x < docs[s].objects@.len() && id_key(docs[s].objects@[x].id) == id_key(docs[s].pages@[a].id);
            let y = choose|y: int|
                0 <= y < docs[t].objects@.len() && id_key(docs[t].objects@[y].id) == id_key(docs[t].pages@[b].id);
            lemma_id_key_injective(docs[s].objects@[x].id, p);
            lemma_id_key_injective(docs[t].objects@[y].id, q);
            assert(docs[t].objects@[y].id.0 < docs[s].objects@[x].id.0);
            assert(id_key(p) < id_key(q));
            assert(false);
        }
    }
}

/// The page ids of all inputs, input after input, each in page order.
pub open spec fn all_page_ids(docs: Seq<DocumentOutline>) -> Seq<(u32, u16)>
    decreases docs.len(),
{
    if docs.len() == 0 {
        Seq::empty()
    } else {
        all_page_ids(docs.drop_last()) + page_ids(docs.last())
    }
}

/// The page ids of each input rise in page order.
pub open spec fn pages_ascending(docs: Seq<DocumentOutline>) -> bool {
    forall|d: int, i: int, j: int|
        0 <= d < docs.len() && 0 <= i < j < docs[d].pages@.len() ==> id_key(#[trigger] docs[d].pages@[i].id)
            < id_key(#[trigger] docs[d].pages@[j].id)
}

/// The ids of `s` strictly rise.
pub open spec fn ids_ascending(s: Seq<(u32, u16)>) -> bool {
    forall|i: int, j: int| 0 <= i < j < s.len() ==> id_key(#[trigger] s[i]) < id_key(#[trigger] s[j])
}

/// Two sequences of strictly rising ids that hold the same ids are equal.
proof fn lemma_ascending_unique(a: Seq<(u32, u16)>, b: Seq<(u32, u16)>)
    requires
        ids_ascending(a),
        ids_ascending(b),
        forall|id: (u32, u16)| a.contains(id) <==> b.contains(id),
    ensures
        a == b,
    decreases a.len(),
{
    if a.len() == 0 {
        if b.len() > 0 {
            assert(b.contains(b[0]));
        }
        assert(a =~= b);
    } else {
        assert(a.contains(a[0]));
        assert(b.contains(a[0]));
        let j = choose|j: int| 0 <= j < b.len() && b[j] == a[0];
        assert(b.contains(b[0]));
        let i = choose|i: int| 0 <= i < a.len() && a[i] == b[0];
        if j > 0 {
            assert(id_key(b[0]) < id_key(b[j]));
            if i > 0 {
                assert(id_key(a[0]) < id_key(a[i]));
            }
            assert(false);
        }
        let ta = a.drop_first();
        let tb = b.drop_first();
        assert forall|id: (u32, u16)| ta.contains(id) <==> tb.contains(id) by {
            if ta.contains(id) {
                let k = choose|k: int| 0 <= k < ta.len() && ta[k] == id;
                assert(a[k + 1] == id);
                assert(id_key(a[0]) < id_key(a[k + 1]));
                assert(b.contains(id));
                let m = choose|m: int| 0 <= m < b.len() && b[m] == id;
                if m == 0 {
                    assert(false);
                }
                assert(tb[m - 1] == id);
            }
            if tb.contains(id) {
                let k = choose|k: int| 0 <= k < tb.len() && tb[k] == id;
                assert(b[k + 1] == id);
                assert(id_key(b[0]) < id_key(b[k + 1]));
                assert(a.contains(id));
                let m = choose|m: int| 0 <= m < a.len() && a[m] == id;
                if m == 0 {
                    assert(false);
                }
                assert(ta[m - 1] == id);
            }
        }
        lemma_ascending_unique(ta, tb);
        assert(a =~= seq![a[0]] + ta);
        assert(b =~= seq![b[0]] + tb);
    }
}

/// The pages of all inputs, read input after input, are the pages of some
/// input; and when the inputs are numbered one after the other, their
/// pages are among their objects and rise in page order, they rise.
proof fn lemma_all_page_ids(docs: Seq<DocumentOutline>)
    requires
        !page_missing(docs),
        numbered_in_sequence(docs),
        pages_among_objects(docs),
        pages_ascending(docs),
    ensures
        forall|id: (u32, u16)| all_page_ids(docs).contains(id) <==> in_pages(docs, id),
        ids_ascending(all_page_ids(docs)),
    decreases docs.len(),
{
    if docs.len() > 0 {
        let front = docs.drop_last();
        let last = docs.last();
        let n = docs.len() - 1;
        assert forall|d: int| 0 <= d < front.len() implies front[d] == docs[d] by {}
        assert(!page_missing(front)) by {
            if page_missing(front) {
                let (d, i) = choose|d: int, i: int|
                    0 <= d < front.len() && 0 <= i < front[d].pages@.len() && !(#[trigger] front[d].pages@[i]).found;
                assert(front[d] == docs[d]);
                assert(!docs[d].pages@[i].found);
            }
        }
        assert(numbered_in_sequence(front)) by {
            assert forall|d: int, e: int, i: int, j: int|
                0 <= d < e < front.len() && 0 <= i < front[d].objects@.len() && 0 <= j < front[e].objects@.len()
                    implies (#[trigger] front[d].objects@[i]).id.0 < (#[trigger] front[e].objects@[j]).id.0 by {
                assert(front[d] == docs[d] && front[e] == docs[e]);
            }
        }
        assert(pages_among_objects(front)) by {
            assert forall|d: int| 0 <= d < front.len() implies found_pages_are_objects(#[trigger] front[d]) by {
                assert(front[d] == docs[d]);
            }
        }
        assert(pages_ascending(front)) by {
            assert forall|d: int, i: int, j: int|
                0 <= d < front.len() && 0 <= i < j < front[d].pages@.len() implies id_key(
                    #[trigger] front[d].pages@[i].id,
                ) < id_key(#[trigger] front[d].pages@[j].id) by {
                assert(front[d] == docs[d]);
            }
        }
        lemma_all_page_ids(front);
        let a = all_page_ids(front);
        let b = page_ids(last);
        assert(all_page_ids(docs) == a + b);
        assert(page_lists(docs)[n] == b);
        assert forall|d: int| 0 <= d < n implies page_lists(docs)[d] == page_lists(front)[d] by {
            assert(front[d] == docs[d]);
        }
        assert forall|id: (u32, u16)| (a + b).contains(id) <==> in_pages(docs, id) by {
            if (a + b).contains(id) {
                let k = choose|k: int| 0 <= k < (a + b).len() && (a + b)[k] == id;
                if k < a.len() {
                    assert(a[k] == id);
                    assert(a.contains(id));
                    assert(in_pages(front, id));
                    let d = choose|d: int| 0 <= d < page_lists(front).len() && #[trigger] page_lists(front)[d].contains(id);
                    assert(page_lists(docs)[d] == page_lists(front)[d]);
                    assert(page_lists(docs)[d].contains(id));
                } else {
                    assert(b[k - a.len()] == id);
                    assert(page_lists(docs)[n].contains(id));
                }
            }
            if in_pages(docs, id) {
                let d = choose|d: int| 0 <= d < docs.len() && #[trigger] page_lists(docs)[d].contains(id);
                if d < n {
                    assert(page_lists(front)[d].contains(id));
                    assert(in_pages(front, id));
                    let k = choose|k: int| 0 <= k < a.len() && a[k] == id;
                    assert((a + b)[k] == id);
                } else {
                    let k = choose|k: int| 0 <= k < b.len() && b[k] == id;
                    assert((a + b)[a.len() + k] == id);
                }
            }
        }
        assert forall|i: int, j: int| 0 <= i < j < (a + b).len() implies id_key(#[trigger] (a + b)[i]) < id_key(
            #[trigger] (a + b)[j],
        ) by {
            if j < a.len() {
                assert(a[i] == (a + b)[i] && a[j] == (a + b)[j]);
            } else if i >= a.len() {
                assert(b[i - a.len()] == docs[n].pages@[i - a.len()].id);
                assert(b[j - a.len()] == docs[n].pages@[j - a.len()].id);
            } else {
                let p = (a + b)[i];
                let q = (a + b)[j];
                assert(a.contains(p));
                assert(in_pages(front, p));
                let d = choose|d: int| 0 <= d < front.len() && #[trigger] page_lists(front)[d].contains(p);
                assert(front[d] == docs[d]);
                assert(page_lists(front)[d] == page_ids(docs[d]));
                let x = choose|x: int| 0 <= x < page_ids(docs[d]).len() && page_ids(docs[d])[x] == p;
                assert(docs[d].pages@[x].id == p);
                assert(docs[d].pages@[x].found);
                assert(found_pages_are_objects(docs[d]));
                let u = choose|u: int|
                    0 <= u < docs[d].objects@.len() && id_key(docs[d].objects@[u].id) == id_key(docs[d].pages@[x].id);
                let y = j - a.len();
                assert(docs[n].pages@[y].id == q);
                assert(docs[n].pages@[y].found);
                assert(found_pages_are_objects(docs[n]));
                let v = choose|v: int|
                    0 <= v < docs[n].objects@.len() && id_key(docs[n].objects@[v].id) == id_key(docs[n].pages@[y].id);
                assert(docs[d].objects@[u].id.0 < docs[n].objects@[v].id.0);
                lemma_id_key_injective(docs[d].objects@[u].id, p);
                lemma_id_key_injective(docs[n].objects@[v].id, q);
            }
        }
    }
}

/// When the inputs are numbered one after the other, their pages are among
/// their objects and rise in page order, the pages of the merged document
/// are the pages of the first input in page order, then those of the
/// second, and so on.
pub proof fn lemma_merged_pages_concatenated(docs: Seq<DocumentOutline>, plan: MergePlan)
    requires
        !page_missing(docs),
        is_merge_plan(docs, plan),
        numbered_in_sequence(docs),
        pages_among_objects(docs),
        pages_ascending(docs),
    ensures
        plan.pages@.len() == all_page_ids(docs).len(),
        forall|k: int| 0 <= k < plan.pages@.len() ==> (#[trigger] plan.pages@[k]).0 == all_page_ids(docs)[k],
{
    lemma_all_page_ids(docs);
    let ids = plan.pages@.map_values(|e: ((u32, u16), (usize, bool))| e.0);
    assert forall|i: int, j: int| 0 <= i < j < ids.len() implies id_key(#[trigger] ids[i]) < id_key(#[trigger] ids[j]) by {
        assert(ids[i] == plan.pages@[i].0 && ids[j] == plan.pages@[j].0);
    }
    assert forall|id: (u32, u16)| ids.contains(id) <==> all_page_ids(docs).contains(id) by {
        if ids.contains(id) {
            let k = choose|k: int| 0 <= k < ids.len() && ids[k] == id;
            assert(in_pages(docs, plan.pages@[k].0));
        }
        if all_page_ids(docs).contains(id) {
            assert(in_pages(docs, id));
            assert(key_listed(plan.pages@, id));
            let k = choose|k: int| 0 <= k < plan.pages@.len() && id_key((#[trigger] plan.pages@[k]).0) == id_key(id);
            lemma_id_key_injective(plan.pages@[k].0, id);
            assert(ids[k] == id);
        }
    }
    lemma_ascending_unique(ids, all_page_ids(docs));
    assert forall|k: int| 0 <= k < plan.pages@.len() implies (#[trigger] plan.pages@[k]).0 == all_page_ids(docs)[k] by {
        assert(ids[k] == plan.pages@[k].0);
    }
}

/// Every id of every list is listed in `u`, which holds the union.
proof fn lemma_union_covers(lists: Seq<Seq<(u32, u16)>>, u: Seq<((u32, u16), usize)>, id: (u32, u16))
    requires
        forall|d: int, j: int|
            0 <= d < lists.len() && 0 <= j < lists[d].len() ==> key_listed(u, #[trigger] lists[d][j]),
        in_some_list(lists, id),
    ensures
        exists|i: int| 0 <= i < u.len() && (#[trigger] u[i]).0 == id,
{
    let d = choose|d: int| 0 <= d < lists.len() && #[trigger] lists[d].contains(id);
    let j = choose|j: int| 0 <= j < lists[d].len() && lists[d][j] == id;
    assert(key_listed(u, lists[d][j]));
    let i = choose|i: int| 0 <= i < u.len() && id_key((#[trigger] u[i]).0) == id_key(lists[d][j]);
    lemma_id_key_injective(u[i].0, id);
}

/// The objects of the merge sorted by what becomes of them.
struct ObjectSorting {
    copied: Vec<((u32, u16), usize)>,
    tree: Vec<((u32, u16), usize)>,
    first_catalog: Option<(u32, u16)>,
    last_catalog: Option<(((u32, u16), usize), bool)>,
}

/// Goes through the kept objects in ascending id order and sorts them into
/// copied objects, page tree nodes and catalogs.
#[verifier::rlimit(40)]
fn sort_objects(
    docs: &Vec<DocumentOutline>,
    lists: &Vec<Vec<(u32, u16)>>,
    u: &Vec<((u32, u16), usize)>,
) -> (r: ObjectSorting)
    requires
        outlines_wf(docs@),
        list_views(lists@) == object_lists(docs@),
        lists@.len() == docs@.len(),
        keys_ascending(u@),
        forall|i: int|
            0 <= i < u@.len() ==> (#[trigger] u@[i]).1 as int == last_holder(
                list_views(lists@),
                u@[i].0,
                lists.len() as int,
            ) && u@[i].1 < lists.len(),
        forall|d: int, j: int|
            0 <= d < lists.len() && 0 <= j < lists@[d]@.len() ==> key_listed(u@, #[trigger] lists@[d]@[j]),
    ensures
        keys_ascending(r.copied@),
        forall|k: int|
            0 <= k < r.copied@.len() ==> is_copied(docs@, (#[trigger] r.copied@[k]).0)
                && r.copied@[k].1 == object_source(docs@, r.copied@[k].0),
        forall|id: (u32, u16)| #[trigger] is_copied(docs@, id) ==> key_listed(r.copied@, id),
        keys_ascending(r.tree@),
        forall|k: int|
            0 <= k < r.tree@.len() ==> is_tree_node(docs@, (#[trigger] r.tree@[k]).0)
                && r.tree@[k].1 == object_source(docs@, r.tree@[k].0),
        forall|id: (u32, u16)| #[trigger] is_tree_node(docs@, id) ==> key_listed(r.tree@, id),
        r.first_catalog is None <==> r.last_catalog is None,
        r.first_catalog is None ==> forall|id: (u32, u16)| !is_catalog(docs@, id),
        match r.first_catalog {
            None => true,
            Some(f) => is_catalog(docs@, f) && forall|id: (u32, u16)|
                #[trigger] is_catalog(docs@, id) ==> id_key(f) <= id_key(id),
        },
        match r.last_catalog {
            None => true,
            Some(((l, d), b)) => {
                &&& is_catalog(docs@, l)
                &&& d == object_source(docs@, l)
                &&& b == merged_entry(docs@, l).is_dictionary
                &&& forall|id: (u32, u16)| #[trigger] is_catalog(docs@, id) ==> id_key(id) <= id_key(l)
            },
        },
{
    let mut copied: Vec<((u32, u16), usize)> = Vec::new();
    let mut tree: Vec<((u32, u16), usize)> = Vec::new();
    let mut first_catalog: Option<(u32, u16)> = None;
    let mut last_catalog: Option<(((u32, u16), usize), bool)> = None;
    let mut t: usize = 0;
    while t < u.len()
        invariant
            outlines_wf(docs@),
            list_views(lists@) == object_lists(docs@),
            lists@.len() == docs@.len(),
            keys_ascending(u@),
            forall|i: int|
                0 <= i < u@.len() ==> (#[trigger] u@[i]).1 as int == last_holder(
                    list_views(lists@),
                    u@[i].0,
                    lists.len() as int,
                ) && u@[i].1 < lists.len(),
            t <= u@.len(),
            keys_ascending(copied@),
            forall|k: int|
                0 <= k < copied@.len() ==> is_copied(docs@, (#[trigger] copied@[k]).0)
                    && copied@[k].1 == object_source(docs@, copied@[k].0),
            forall|k: int, i: int|
                0 <= k < copied@.len() && t <= i < u@.len() ==> id_key((#[trigger] copied@[k]).0)
                    < id_key((#[trigger] u@[i]).0),
            forall|i: int|
                0 <= i < t && is_copied(docs@, (#[trigger] u@[i]).0) ==> key_listed(copied@, u@[i].0),
            keys_ascending(tree@),
            forall|k: int|
                0 <= k < tree@.len() ==> is_tree_node(docs@, (#[trigger] tree@[k]).0)
                    && tree@[k].1 == object_source(docs@, tree@[k].0),
            forall|k: int, i: int|
                0 <= k < tree@.len() && t <= i < u@.len() ==> id_key((#[trigger] tree@[k]).0)
                    < id_key((#[trigger] u@[i]).0),
            forall|i: int|
                0 <= i < t && is_tree_node(docs@, (#[trigger] u@[i]).0) ==> key_listed(tree@, u@[i].0),
            first_catalog is None <==> last_catalog is None,
            first_catalog is None ==> forall|i: int| 0 <= i < t ==> !is_catalog(docs@, (#[trigger] u@[i]).0),
            match first_catalog {
                None => true,
                Some(f) => {
                    &&& is_catalog(docs@, f)
                    &&& forall|i: int|
                        0 <= i < t && is_catalog(docs@, (#[trigger] u@[i]).0) ==> id_key(f) <= id_key(u@[i].0)
                    &&& forall|i: int| t <= i < u@.len() ==> id_key(f) < id_key((#[trigger] u@[i]).0)
                },
            },
            match last_catalog {
                None => true,
                Some(((l, d), b)) => {
                    &&& is_catalog(docs@, l)
                    &&& d == object_source(docs@, l)
                    &&& b == merged_entry(docs@, l).is_dictionary
                    &&& forall|i: int|
                        0 <= i < t && is_catalog(docs@, (#[trigger] u@[i]).0) ==> id_key(u@[i].0) <= id_key(l)
                },
            },
        decreases u.len() - t,
    {
        let (id, d) = u[t];
        proof {
            lemma_last_holder_range(object_lists(docs@), id, docs@.len() as int);
            assert(object_lists(docs@)[d as int] == object_ids(docs@[d as int]));
        }
        let doc = &docs[d];
        let j = find_object(doc, id);
        proof {
            lemma_entry_in(docs@[d as int], id, j as int);
            assert(merged_entry(docs@, id) == doc.objects@[j as int]);
            assert(in_objects(docs@, id));
        }
        let entry = &doc.objects[j];
        let kind = classify(&entry.kind_name);
        assert(kind == merged_kind(docs@, id));
        let ghost old_copied = copied@;
        let ghost old_tree = tree@;
        match kind {
            ObjectKind::Other => {
                copied.push((id, d));
            },
            ObjectKind::PageTree => {
                if entry.is_dictionary {
                    tree.push((id, d));
                }
            },
            ObjectKind::Catalog => {
                if first_catalog.is_none() {
                    first_catalog = Some(id);
                }
                last_catalog = Some(((id, d), entry.is_dictionary));
            },
            _ => {},
        }
        proof {
            assert forall|k: int, i: int|
                0 <= k < copied@.len() && t + 1 <= i < u@.len() implies id_key(
                (#[trigger] copied@[k]).0,
            ) < id_key((#[trigger] u@[i]).0) by {
                if k < old_copied.len() {
                    assert(copied@[k] == old_copied[k]);
                } else {
                    assert(id_key(u@[t as int].0) < id_key(u@[i].0));
                }
            }
            assert forall|k: int, i: int|
                0 <= k < tree@.len() && t + 1 <= i < u@.len() implies id_key(
                (#[trigger] tree@[k]).0,
            ) < id_key((#[trigger] u@[i]).0) by {
                if k < old_tree.len() {
                    assert(tree@[k] == old_tree[k]);
                } else {
                    assert(id_key(u@[t as int].0) < id_key(u@[i].0));
                }
            }
            assert forall|a: int, b: int|
                0 <= a < b < copied@.len() implies id_key(#[trigger] copied@[a].0) < id_key(
                #[trigger] copied@[b].0,
            ) by {
                assert(copied@[a] == old_copied[a]);
                if b < old_copied.len() {
                    assert(copied@[b] == old_copied[b]);
                }
            }
            assert forall|a: int, b: int|
                0 <= a < b < tree@.len() implies id_key(#[trigger] tree@[a].0) < id_key(
                #[trigger] tree@[b].0,
            ) by {
                assert(tree@[a] == old_tree[a]);
                if b < old_tree.len() {
                    assert(tree@[b] == old_tree[b]);
                }
            }
            assert forall|i: int|
                0 <= i < t + 1 && is_copied(docs@, (#[trigger] u@[i]).0) implies key_listed(
                copied@,
                u@[i].0,
            ) by {
                if i < t {
                    let k = choose|k: int|
                        0 <= k < old_copied.len() && id_key((#[trigger] old_copied[k]).0) == id_key(
                            u@[i].0,
                        );
                    assert(copied@[k] == old_copied[k]);
                } else {
                    assert(copied@[copied@.len() - 1].0 == u@[i].0);
                }
            }
            assert forall|i: int|
                0 <= i < t + 1 && is_tree_node(docs@, (#[trigger] u@[i]).0) implies key_listed(
                tree@,
                u@[i].0,
            ) by {
                if i < t {
                    let k = choose|k: int|
                        0 <= k < old_tree.len() && id_key((#[trigger] old_tree[k]).0) == id_key(
                            u@[i].0,
                        );
                    assert(tree@[k] == old_tree[k]);
                } else {
                    assert(tree@[tree@.len() - 1].0 == u@[i].0);
                }
            }
        }
        t = t + 1;
    }
    proof {
        assert forall|id: (u32, u16)| #[trigger] is_copied(docs@, id) implies key_listed(copied@, id) by {
            lemma_union_covers(list_views(lists@), u@, id);
        }
        assert forall|id: (u32, u16)| #[trigger] is_tree_node(docs@, id) implies key_listed(tree@, id) by {
            lemma_union_covers(list_views(lists@), u@, id);
        }
        assert forall|id: (u32, u16)| #[trigger] is_catalog(docs@, id) implies (exists|i: int|
            0 <= i < u@.len() && (#[trigger] u@[i]).0 == id) by {
            lemma_union_covers(list_views(lists@), u@, id);
        }
    }
    ObjectSorting { copied, tree, first_catalog, last_catalog }
}

/// The pages of the merge in ascending id order, each with the input it is
/// taken from and whether that page object is a dictionary.
fn page_slots(docs: &Vec<DocumentOutline>) -> (r: Vec<((u32, u16), (usize, bool))>)
    requires
        outlines_wf(docs@),
    ensures
        keys_ascending(r@),
        forall|i: int|
            0 <= i < r@.len() ==> in_pages(docs@, (#[trigger] r@[i]).0) && r@[i].1.0 == page_source(
                docs@,
                r@[i].0,
            ) && r@[i].1.1 == merged_page(docs@, r@[i].0).is_dictionary,
        forall|id: (u32, u16)| #[trigger] in_pages(docs@, id) ==> key_listed(r@, id),
{
    let lists = page_id_lists(docs);
    let u = ascending_union(&lists);
    let mut out: Vec<((u32, u16), (usize, bool))> = Vec::new();
    let mut t: usize = 0;
    while t < u.len()
        invariant
            outlines_wf(docs@),
            list_views(lists@) == page_lists(docs@),
            lists@.len() == docs@.len(),
            keys_ascending(u@),
            forall|i: int|
                0 <= i < u@.len() ==> (#[trigger] u@[i]).1 as int == last_holder(
                    list_views(lists@),
                    u@[i].0,
                    lists.len() as int,
                ) && u@[i].1 < lists.len(),
            t <= u@.len(),
            out@.len() == t,
            forall|k: int|
                0 <= k < t ==> (#[trigger] out@[k]).0 == u@[k].0 && in_pages(docs@, out@[k].0)
                    && out@[k].1.0 == page_source(docs@, out@[k].0) && out@[k].1.1 == merged_page(
                    docs@,
                    out@[k].0,
                ).is_dictionary,
        decreases u.len() - t,
    {
        let (id, d) = u[t];
        proof {
            lemma_last_holder_range(page_lists(docs@), id, docs@.len() as int);
            assert(page_lists(docs@)[d as int] == page_ids(docs@[d as int]));
        }
        let doc = &docs[d];
        let j = find_page(doc, id);
        proof {
            lemma_page_in(docs@[d as int], id, j as int);
        }
        out.push((id, (d, doc.pages[j].is_dictionary)));
        t = t + 1;
    }
    proof {
        assert forall|a: int, b: int| 0 <= a < b < out@.len() implies id_key(#[trigger] out@[a].0)
            < id_key(#[trigger] out@[b].0) by {
            assert(out@[a].0 == u@[a].0);
            assert(out@[b].0 == u@[b].0);
        }
        assert forall|id: (u32, u16)| #[trigger] in_pages(docs@, id) implies key_listed(out@, id) by {
            lemma_union_covers(list_views(lists@), u@, id);
            let i = choose|i: int| 0 <= i < u@.len() && (#[trigger] u@[i]).0 == id;
            assert(out@[i].0 == id);
        }
    }
    out
}

/// Plans the merge of the documents outlined by `docs`, in this order.
///
/// Where several inputs hold an object with the same id, the last one wins.
/// Objects without a page, page tree, catalog or outline type are copied.
/// Every page keeps its id and gets the page tree root as parent; the root
/// is the page tree node with the smallest id, made of all page tree nodes
/// that are dictionaries, and its kids are all pages in ascending id order.
/// The catalog keeps the smallest catalog id and takes the content of the
/// catalog with the largest id. Each input with pages gets a bookmark at its
/// first page, numbered from 1.
pub fn plan_merge(docs: &Vec<DocumentOutline>) -> (r: Result<MergePlan, MergeError>)
    requires
        outlines_wf(docs@),
    ensures
        merge_outcome(docs@, r),
{
    if any_page_missing(docs) {
        return Err(MergeError::PageObjectMissing);
    }
    let bookmarks = plan_bookmarks(docs);
    let lists = object_id_lists(docs);
    let u = ascending_union(&lists);
    let sorting = sort_objects(docs, &lists, &u);
    if sorting.tree.len() == 0 {
        proof {
            assert forall|id: (u32, u16)| !is_tree_node(docs@, id) by {
                if is_tree_node(docs@, id) {
                    assert(key_listed(sorting.tree@, id));
                }
            }
        }
        return Err(MergeError::PageTreeRootMissing);
    }
    assert(is_tree_node(docs@, sorting.tree@[0].0));
    let ObjectSorting { copied, tree, first_catalog, last_catalog } = sorting;
    match (first_catalog, last_catalog) {
        (Some(first), Some((source, is_dictionary))) => {
            let pages = page_slots(docs);
            let page_tree_root = tree[0].0;
            Ok(
                MergePlan {
                    bookmarks,
                    copied,
                    pages,
                    page_tree_root,
                    page_tree_sources: tree,
                    catalog_root: first,
                    catalog_source: source,
                    catalog_is_dictionary: is_dictionary,
                },
            )
        },
        _ => Err(MergeError::CatalogMissing),
    }
}

} // verus!
