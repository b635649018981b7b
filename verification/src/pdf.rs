//! The documents themselves, as `lopdf` holds them: what the merge and the
//! compression read of them and do to them.

use vstd::prelude::*;
use crate::ids::id_key;
use crate::tree::{deletion_is_safe, deletion_safe, links_ascending, TreeLink};
use crate::merge::{
    all_page_ids, found_pages_are_objects, lemma_merged_pages_concatenated, lemma_pages_in_input_order, merge_outcome, page_ids, pages_ascending, numbered_in_sequence, outline_wf, outlines_wf,
    pages_among_objects, plan_merge, DocumentOutline, MergeError, MergePlan, ObjectEntry, PageEntry,
};

verus! {

/// A PDF document loaded by `lopdf`.
#[verifier::external_type_specification]
#[verifier::external_body]
pub struct ExDocument(lopdf::Document);

/// The objects a document holds, in the order of its object map.
pub uninterp spec fn pdf_objects(doc: lopdf::Document) -> Seq<ObjectEntry>;

/// The pages of a document, in page order.
pub uninterp spec fn pdf_pages(doc: lopdf::Document) -> Seq<PageEntry>;

/// The page-tree links of a document's objects, in the order of its object
/// map.
pub uninterp spec fn pdf_tree_links(doc: lopdf::Document) -> Seq<TreeLink>;

/// The largest object number a document records as in use (its `max_id`).
pub uninterp spec fn pdf_max_id(doc: lopdf::Document) -> u32;

/// `lopdf`'s `Document::objects` map, entry by entry: each object's id, its
/// `/Type` name, read as `lopdf`'s `Object::type_name` reads it (from the
/// dictionary of a dictionary or of a stream, `Dictionary::get_type`), and whether it is a dictionary
/// (`Object::as_dict`). The map is a `BTreeMap` keyed by the id, so the ids
/// come in strictly ascending order (tuples order by their first component,
/// then by the second).
#[verifier::external_body]
fn objects_of(doc: &lopdf::Document) -> (r: Vec<ObjectEntry>)
    ensures
        r@ == pdf_objects(*doc),
        forall|i: int, j: int|
            0 <= i < j < r@.len() ==> id_key(#[trigger] r@[i].id) < id_key(#[trigger] r@[j].id),
{
    doc.objects.iter().map(|(id, object)| ObjectEntry {
        id: *id,
        kind_name: match object {
            lopdf::Object::Dictionary(dict) => dict.get_type().ok().map(|name| name.to_vec()),
            lopdf::Object::Stream(stream) => stream.dict.get_type().ok().map(|name| name.to_vec()),
            _ => None,
        },
        is_dictionary: object.as_dict().is_ok(),
    }).collect()
}

/// `lopdf`'s `Document::get_pages`, in page order: each page's id, whether
/// `Document::get_object` finds it and whether what it finds is a
/// dictionary. `get_object` reads the document only, so one id is described
/// the same way wherever it is listed; it finds an id only in the document's
/// object map, so a page it finds is one of the document's objects.
#[verifier::external_body]
fn pages_of(doc: &lopdf::Document) -> (r: Vec<PageEntry>)
    ensures
        r@ == pdf_pages(*doc),
        forall|i: int, j: int|
            0 <= i < r@.len() && 0 <= j < r@.len() && #[trigger] r@[i].id == #[trigger] r@[j].id
                ==> r@[i].found == r@[j].found && r@[i].is_dictionary == r@[j].is_dictionary,
        forall|i: int|
            0 <= i < r@.len() && (#[trigger] r@[i]).found ==> exists|j: int|
                0 <= j < pdf_objects(*doc).len() && id_key(pdf_objects(*doc)[j].id) == id_key(r@[i].id),
{
    doc.get_pages().values().map(|id| {
        let found = doc.get_object(*id);
        PageEntry { id: *id, found: found.is_ok(), is_dictionary: found.map(|object| object.as_dict().is_ok()).unwrap_or(false) }
    }).collect()
}

/// `lopdf`'s object map read for the page tree: for each object, in the
/// map's (ascending) id order, the `/Parent` reference and the `/Count`
/// integer of a dictionary (`Object::as_dict`, `Dictionary::get`,
/// `Object::as_reference`, `Object::as_i64`).
#[verifier::external_body]
fn tree_links_of(doc: &lopdf::Document) -> (r: Vec<TreeLink>)
    ensures
        r@ == pdf_tree_links(*doc),
        links_ascending(r@),
{
    doc.objects.iter().map(|(id, object)| {
        let dict = object.as_dict().ok();
        TreeLink {
            id: *id,
            parent: dict.and_then(|d| d.get(b"Parent").ok()).and_then(|p| p.as_reference().ok()),
            count: dict.and_then(|d| d.get(b"Count").ok()).and_then(|c| c.as_i64().ok()),
        }
    }).collect()
}

/// The pages of a document can be moved into page order without a clash:
/// each is found, no page is listed twice, and all have one generation.
pub open spec fn pages_regular(pages: Seq<PageEntry>) -> bool {
    &&& forall|i: int| 0 <= i < pages.len() ==> (#[trigger] pages[i]).found
    &&& forall|i: int, j: int|
        0 <= i < j < pages.len() ==> id_key(#[trigger] pages[i].id) != id_key(#[trigger] pages[j].id)
    &&& forall|i: int, j: int|
        0 <= i < pages.len() && 0 <= j < pages.len() ==> (#[trigger] pages[i]).id.1 == (#[trigger] pages[j]).id.1
}

/// `after`, the pages of a renumbered document, are `before` in the same
/// order: as many, each found and a dictionary as before, with ids that rise
/// in page order.
pub open spec fn pages_kept_in_order(before: Seq<PageEntry>, after: Seq<PageEntry>) -> bool {
    &&& after.len() == before.len()
    &&& forall|k: int|
        0 <= k < after.len() ==> (#[trigger] after[k]).found == before[k].found && after[k].is_dictionary
            == before[k].is_dictionary
    &&& forall|i: int, j: int| 0 <= i < j < after.len() ==> id_key(#[trigger] after[i].id) < id_key(#[trigger] after[j].id)
}

/// `lopdf`'s `Document::renumber_objects_with`: renumbers the objects from
/// `start` on. It first moves the page objects so that their ids follow the
/// page order (the `k`-th page in page order takes the number of the `k`-th
/// smallest page id, with its own generation, and every reference follows),
/// then takes the ids in ascending order and gives the `k`-th the number
/// `start + k` (keeping its generation, references following), and records
/// the last number given as `max_id`. No object is created; the first step
/// can only lose one, by moving a page onto an id in use, and it cannot
/// when the pages are `pages_regular`: the pages then keep their order and
/// the page tree reads as before. It counts one number up per object and
/// stores the last one less one, so `start` is at least 1 and the numbers
/// must fit in `u32`. Which object gets which number is not stated.
#[verifier::external_body]
fn renumber_from(doc: &mut lopdf::Document, start: u32)
    requires
        1 <= start,
        start + pdf_objects(*old(doc)).len() <= u32::MAX,
    ensures
        forall|k: int|
            0 <= k < pdf_objects(*final(doc)).len() ==> (#[trigger] pdf_objects(*final(doc))[k]).id.0 == start + k,
        pdf_max_id(*final(doc)) + 1 == start + pdf_objects(*final(doc)).len(),
        pdf_objects(*final(doc)).len() <= pdf_objects(*old(doc)).len(),
        pages_regular(pdf_pages(*old(doc))) ==> pdf_objects(*final(doc)).len() == pdf_objects(*old(doc)).len()
            && pages_kept_in_order(pdf_pages(*old(doc)), pdf_pages(*final(doc))),
{
    doc.renumber_objects_with(start)
}

/// Renumbers the objects of a put-together document from 1 (as
/// `Document::renumber_objects` does); `IdsExhausted`, leaving the document
/// as it is, when its objects cannot be numbered within `u32`.
pub fn renumber_from_one(doc: &mut lopdf::Document) -> (r: Result<(), MergeError>)
    ensures
        r is Err <==> pdf_objects(*old(doc)).len() + 1 > u32::MAX,
        r matches Err(e) ==> e == MergeError::IdsExhausted && *final(doc) == *old(doc),
        r is Ok ==> {
            &&& forall|k: int|
                0 <= k < pdf_objects(*final(doc)).len() ==> (#[trigger] pdf_objects(*final(doc))[k]).id.0 == 1 + k
            &&& pdf_max_id(*final(doc)) == pdf_objects(*final(doc)).len()
            &&& pdf_objects(*final(doc)).len() <= pdf_objects(*old(doc)).len()
            &&& pages_regular(pdf_pages(*old(doc))) ==> pdf_objects(*final(doc)).len() == pdf_objects(*old(doc)).len()
                && pages_kept_in_order(pdf_pages(*old(doc)), pdf_pages(*final(doc)))
        },
{
    let count = objects_of(doc).len();
    if count >= u32::MAX as usize {
        return Err(MergeError::IdsExhausted);
    }
    renumber_from(doc, 1);
    Ok(())
}

/// `lopdf`'s `Document::max_id` field.
#[verifier::external_body]
fn max_id_of(doc: &lopdf::Document) -> (r: u32)
    ensures
        r == pdf_max_id(*doc),
{
    doc.max_id
}

/// One stream object of a document.
pub struct StreamEntry {
    /// The stream's object id.
    pub id: (u32, u16),
    /// The stream may be compressed (`Stream::allows_compression`).
    pub allows_compression: bool,
    /// Its dictionary has a `/Filter` entry.
    pub filtered: bool,
    /// The stream's content bytes.
    pub content: Vec<u8>,
}

/// The stream objects of a document, in the order of its object map.
pub uninterp spec fn pdf_streams(doc: lopdf::Document) -> Seq<StreamEntry>;

/// The zlib encoding of `content` at the best compression level, as `lopdf`
/// makes it with `flate2`.
pub uninterp spec fn zlib_compressed(content: Seq<u8>) -> Seq<u8>;

/// `stream` is compressed by `Document::compress`: it may be compressed, has
/// no filter yet, and its zlib encoding is more than 19 bytes shorter.
pub open spec fn compresses(stream: StreamEntry) -> bool {
    &&& stream.allows_compression
    &&& !stream.filtered
    &&& zlib_compressed(stream.content@).len() + 19 < stream.content@.len()
}

/// `lopdf`'s `Document::compress`: for each stream object that may be
/// compressed and has no `/Filter`, it zlib-encodes the content at the best
/// level (`Stream::compress`); when the encoding is more than 19 bytes
/// shorter, the stream gets `/Filter /FlateDecode` and the encoded content,
/// and otherwise it stays as it was. The encoding writes into memory, which
/// does not fail. No object is added, removed or renumbered, and only the
/// `/Filter` and `/Length` entries of stream dictionaries change, so the
/// objects and pages read as before.
#[verifier::external_body]
fn compress_streams(doc: &mut lopdf::Document)
    ensures
        pdf_objects(*final(doc)) == pdf_objects(*old(doc)),
        pdf_pages(*final(doc)) == pdf_pages(*old(doc)),
        pdf_streams(*final(doc)).len() == pdf_streams(*old(doc)).len(),
        forall|i: int|
            0 <= i < pdf_streams(*old(doc)).len() ==> {
                let before = #[trigger] pdf_streams(*old(doc))[i];
                let after = pdf_streams(*final(doc))[i];
                &&& id_key(after.id) == id_key(before.id)
                &&& after.allows_compression == before.allows_compression
                &&& if compresses(before) {
                    after.filtered && after.content@ == zlib_compressed(before.content@)
                } else {
                    after.filtered == before.filtered && after.content@ == before.content@
                }
            },
{
    doc.compress()
}

/// Compresses the streams of a document: each stream that may be
/// compressed, has no filter and gains more than 19 bytes by zlib encoding
/// is replaced by its encoding and marked `/FlateDecode`; the other streams,
/// the objects and the pages read as before.
pub fn compress(doc: &mut lopdf::Document)
    ensures
        pdf_objects(*final(doc)) == pdf_objects(*old(doc)),
        pdf_pages(*final(doc)) == pdf_pages(*old(doc)),
        pdf_streams(*final(doc)).len() == pdf_streams(*old(doc)).len(),
        forall|i: int|
            0 <= i < pdf_streams(*old(doc)).len() ==> {
                let before = #[trigger] pdf_streams(*old(doc))[i];
                let after = pdf_streams(*final(doc))[i];
                &&& id_key(after.id) == id_key(before.id)
                &&& after.allows_compression == before.allows_compression
                &&& if compresses(before) {
                    after.filtered && after.content@ == zlib_compressed(before.content@)
                } else {
                    after.filtered == before.filtered && after.content@ == before.content@
                }
            },
{
    compress_streams(doc)
}

/// The number of pages of a document.
pub fn page_count(doc: &lopdf::Document) -> (n: usize)
    ensures
        n == pdf_pages(*doc).len(),
{
    pages_of(doc).len()
}

/// What the merge reads of a document.
pub fn outline_of(doc: &lopdf::Document) -> (r: DocumentOutline)
    ensures
        r.objects@ == pdf_objects(*doc),
        r.pages@ == pdf_pages(*doc),
        outline_wf(r),
        found_pages_are_objects(r),
{
    DocumentOutline { pages: pages_of(doc), objects: objects_of(doc) }
}

/// `outlines` describe `docs`, one by one.
pub open spec fn outlines_describe(outlines: Seq<DocumentOutline>, docs: Seq<lopdf::Document>) -> bool {
    &&& outlines.len() == docs.len()
    &&& forall|i: int|
        0 <= i < docs.len() ==> (#[trigger] outlines[i]).objects@ == pdf_objects(docs[i])
            && outlines[i].pages@ == pdf_pages(docs[i])
}

/// The number the objects of the `i`-th of `docs` start from when they are
/// numbered one document after the other from 1.
pub open spec fn numbering_start(docs: Seq<lopdf::Document>, i: int) -> int
    decreases i,
{
    if i <= 0 {
        1
    } else {
        numbering_start(docs, i - 1) + pdf_objects(docs[i - 1]).len()
    }
}

/// The `i`-th input cannot be numbered within `u32`: its objects, from the
/// number the renumbered `outputs` before it leave, run past `u32::MAX`,
/// before or after renumbering.
pub open spec fn numbering_fails(inputs: Seq<lopdf::Document>, outputs: Seq<lopdf::Document>, i: int) -> bool {
    ||| numbering_start(outputs, i) + pdf_objects(inputs[i]).len() > u32::MAX
    ||| numbering_start(outputs, i) + pdf_objects(outputs[i]).len() > u32::MAX
}

/// Where documents are numbered from depends on the documents before only.
proof fn lemma_numbering_start_push(docs: Seq<lopdf::Document>, doc: lopdf::Document, i: int)
    requires
        0 <= i <= docs.len(),
    ensures
        numbering_start(docs.push(doc), i) == numbering_start(docs, i),
    decreases i,
{
    if i > 0 {
        lemma_numbering_start_push(docs, doc, i - 1);
        assert(docs.push(doc)[i - 1] == docs[i - 1]);
    }
}

/// The page ids of documents, document after document, each in page order.
pub open spec fn merged_page_ids(docs: Seq<lopdf::Document>) -> Seq<(u32, u16)>
    decreases docs.len(),
{
    if docs.len() == 0 {
        Seq::empty()
    } else {
        merged_page_ids(docs.drop_last()) + pdf_pages(docs.last()).map_values(|p: PageEntry| p.id)
    }
}

/// The number of pages of documents, all together.
pub open spec fn total_pages(docs: Seq<lopdf::Document>) -> int
    decreases docs.len(),
{
    if docs.len() == 0 {
        0
    } else {
        total_pages(docs.drop_last()) + pdf_pages(docs.last()).len()
    }
}

proof fn lemma_page_ids_described(outlines: Seq<DocumentOutline>, docs: Seq<lopdf::Document>)
    requires
        outlines_describe(outlines, docs),
    ensures
        all_page_ids(outlines) == merged_page_ids(docs),
    decreases docs.len(),
{
    if docs.len() > 0 {
        let n = docs.len() - 1;
        assert(outlines_describe(outlines.drop_last(), docs.drop_last())) by {
            assert forall|i: int| 0 <= i < n implies (#[trigger] outlines.drop_last()[i]).objects@ == pdf_objects(
                docs.drop_last()[i],
            ) && outlines.drop_last()[i].pages@ == pdf_pages(docs.drop_last()[i]) by {
                assert(outlines.drop_last()[i] == outlines[i]);
                assert(docs.drop_last()[i] == docs[i]);
            }
        }
        lemma_page_ids_described(outlines.drop_last(), docs.drop_last());
        assert(outlines[n].pages@ == pdf_pages(docs[n]));
        assert(page_ids(outlines.last()) =~= pdf_pages(docs.last()).map_values(|p: PageEntry| p.id));
    }
}

proof fn lemma_page_total(inputs: Seq<lopdf::Document>, outputs: Seq<lopdf::Document>)
    requires
        inputs.len() == outputs.len(),
        forall|i: int| 0 <= i < inputs.len() ==> pdf_pages(#[trigger] outputs[i]).len() == pdf_pages(inputs[i]).len(),
    ensures
        merged_page_ids(outputs).len() == total_pages(inputs),
    decreases inputs.len(),
{
    if inputs.len() > 0 {
        let n = inputs.len() - 1;
        assert forall|i: int| 0 <= i < n implies pdf_pages(#[trigger] outputs.drop_last()[i]).len() == pdf_pages(
            inputs.drop_last()[i],
        ).len() by {
            assert(outputs.drop_last()[i] == outputs[i]);
            assert(inputs.drop_last()[i] == inputs[i]);
        }
        lemma_page_total(inputs.drop_last(), outputs.drop_last());
        assert(pdf_pages(outputs[n]).len() == pdf_pages(inputs[n]).len());
    }
}

/// Merges documents, in this order: renumbers the objects of each so that
/// the numbers of one input follow those of the previous one (the first
/// starts at 1), then plans the merge of the renumbered documents (see
/// `plan_merge`). Returns the renumbered documents, one for each input in
/// the same place, and the plan, whose pages come document by document in
/// the order the documents were given. The merge fails with `IdsExhausted`
/// exactly when some input cannot be numbered within `u32`.
pub fn merge(documents: Vec<lopdf::Document>) -> (r: (Vec<lopdf::Document>, Result<MergePlan, MergeError>))
    ensures
        r.0@.len() == documents@.len(),
        (r.1 matches Err(MergeError::IdsExhausted)) <==> exists|i: int|
            0 <= i < documents@.len() && #[trigger] numbering_fails(documents@, r.0@, i),
        forall|i: int|
            0 <= i < documents@.len() ==> pdf_objects(#[trigger] r.0@[i]).len() <= pdf_objects(documents@[i]).len(),
        !(r.1 matches Err(MergeError::IdsExhausted)) ==> forall|i: int|
            0 <= i < documents@.len() && pages_regular(pdf_pages(#[trigger] documents@[i])) ==> pdf_objects(
                r.0@[i],
            ).len() == pdf_objects(documents@[i]).len() && pages_kept_in_order(
                pdf_pages(documents@[i]),
                pdf_pages(r.0@[i]),
            ),
        !(r.1 matches Err(MergeError::IdsExhausted)) ==> exists|outlines: Seq<DocumentOutline>|
            outlines_describe(outlines, r.0@) && numbered_in_sequence(outlines) && #[trigger] merge_outcome(
                outlines,
                r.1,
            ),
        r.1 matches Ok(plan) ==> forall|i: int, j: int|
            0 <= i < j < plan.pages@.len() ==> (#[trigger] plan.pages@[i]).1.0 <= (#[trigger] plan.pages@[j]).1.0,
        (r.1 matches Ok(plan)) && (forall|i: int|
            0 <= i < documents@.len() ==> pages_regular(pdf_pages(#[trigger] documents@[i]))) ==> {
            &&& r.1->Ok_0.pages@.len() == merged_page_ids(r.0@).len()
            &&& merged_page_ids(r.0@).len() == total_pages(documents@)
            &&& forall|k: int|
                0 <= k < r.1->Ok_0.pages@.len() ==> (#[trigger] r.1->Ok_0.pages@[k]).0 == merged_page_ids(r.0@)[k]
        },
{
    let ghost inputs = documents@;
    let mut rest = documents;
    let mut done: Vec<lopdf::Document> = Vec::new();
    let mut outlines: Vec<DocumentOutline> = Vec::new();
    let mut start: u32 = 1;
    let mut exhausted = false;
    let ghost total = rest@.len();
    while rest.len() > 0
        invariant
            total == inputs.len(),
            done@.len() + rest@.len() == total,
            rest@ == inputs.subrange(done@.len() as int, total as int),
            outlines_describe(outlines@, done@),
            outlines_wf(outlines@),
            pages_among_objects(outlines@),
            1 <= start,
            forall|i: int|
                0 <= i < done@.len() ==> pdf_objects(#[trigger] done@[i]).len() <= pdf_objects(inputs[i]).len(),
            !exhausted ==> start == numbering_start(done@, done@.len() as int),
            !exhausted ==> forall|i: int| 0 <= i < done@.len() ==> !#[trigger] numbering_fails(inputs, done@, i),
            !exhausted ==> forall|i: int|
                0 <= i < done@.len() && pages_regular(pdf_pages(#[trigger] inputs[i])) ==> pdf_objects(
                    done@[i],
                ).len() == pdf_objects(inputs[i]).len() && pages_kept_in_order(pdf_pages(inputs[i]), pdf_pages(done@[i])),
            exhausted ==> exists|i: int| 0 <= i < done@.len() && #[trigger] numbering_fails(inputs, done@, i),
            !exhausted ==> numbered_in_sequence(outlines@),
            !exhausted ==> forall|d: int, i: int|
                0 <= d < outlines@.len() && 0 <= i < outlines@[d].objects@.len() ==> (
                #[trigger] outlines@[d].objects@[i]).id.0 < start,
        decreases rest@.len(),
    {
        let ghost n = done@.len() as int;
        let ghost old_done = done@;
        let ghost was_exhausted = exhausted;
        assert(rest@[0] == inputs[n]);
        let mut doc = rest.remove(0);
        let ghost first = start;
        if !exhausted {
            let count = objects_of(&doc).len();
            if count <= (u32::MAX - start) as usize {
                renumber_from(&mut doc, start);
                let top = max_id_of(&doc);
                if top < u32::MAX {
                    start = top + 1;
                } else {
                    exhausted = true;
                }
            } else {
                exhausted = true;
            }
        }
        let outline = outline_of(&doc);
        let ghost before = outlines@;
        outlines.push(outline);
        done.push(doc);
        proof {
            assert(rest@ =~= inputs.subrange(done@.len() as int, total as int));
            assert forall|i: int| 0 <= i <= n implies numbering_start(done@, i) == numbering_start(old_done, i) by {
                lemma_numbering_start_push(old_done, done@[n], i);
            }
            assert forall|i: int| 0 <= i < n implies (#[trigger] numbering_fails(inputs, done@, i)) == numbering_fails(
                inputs,
                old_done,
                i,
            ) by {
                assert(done@[i] == old_done[i]);
            }
            assert forall|i: int| 0 <= i < done@.len() implies pdf_objects(#[trigger] done@[i]).len() <= pdf_objects(
                inputs[i],
            ).len() by {
                if i < n {
                    assert(done@[i] == old_done[i]);
                }
            }
            if was_exhausted {
                let w = choose|i: int| 0 <= i < old_done.len() && #[trigger] numbering_fails(inputs, old_done, i);
                assert(numbering_fails(inputs, done@, w));
            } else {
                assert(numbering_start(done@, n) == first);
                if exhausted {
                    assert(numbering_fails(inputs, done@, n));
                } else {
                    assert(numbering_start(done@, n + 1) == numbering_start(done@, n) + pdf_objects(done@[n]).len());
                    assert(!numbering_fails(inputs, done@, n));
                    assert forall|i: int|
                        0 <= i < done@.len() && pages_regular(pdf_pages(#[trigger] inputs[i])) implies pdf_objects(
                        done@[i],
                    ).len() == pdf_objects(inputs[i]).len() && pages_kept_in_order(pdf_pages(inputs[i]), pdf_pages(done@[i])) by {
                        if i < n {
                            assert(done@[i] == old_done[i]);
                        }
                    }
                }
            }
            assert forall|i: int| 0 <= i < done@.len() implies (#[trigger] outlines@[i]).objects@
                == pdf_objects(done@[i]) && outlines@[i].pages@ == pdf_pages(done@[i]) by {
                if i < before.len() {
                    assert(outlines@[i] == before[i]);
                }
            }
            assert forall|d: int| 0 <= d < outlines@.len() implies outline_wf(#[trigger] outlines@[d]) by {
                if d < before.len() {
                    assert(outlines@[d] == before[d]);
                }
            }
            assert forall|d: int| 0 <= d < outlines@.len() implies found_pages_are_objects(#[trigger] outlines@[d]) by {
                if d < before.len() {
                    assert(outlines@[d] == before[d]);
                }
            }
            if !exhausted {
                assert forall|d: int, e: int, i: int, j: int|
                    0 <= d < e < outlines@.len() && 0 <= i < outlines@[d].objects@.len() && 0 <= j
                        < outlines@[e].objects@.len() implies (#[trigger] outlines@[d].objects@[i]).id.0 < (
                    #[trigger] outlines@[e].objects@[j]).id.0 by {
                    assert(outlines@[d] == before[d]);
                    if e < n {
                        assert(outlines@[e] == before[e]);
                    } else {
                        assert(outlines@[e].objects@[j] == pdf_objects(done@[n])[j]);
                        assert(before[d].objects@[i].id.0 < first);
                    }
                }
                assert forall|d: int, i: int|
                    0 <= d < outlines@.len() && 0 <= i < outlines@[d].objects@.len() implies (
                    #[trigger] outlines@[d].objects@[i]).id.0 < start by {
                    if d < n {
                        assert(outlines@[d] == before[d]);
                    } else {
                        assert(outlines@[d].objects@[i] == pdf_objects(done@[n])[i]);
                    }
                }
            }
        }
    }
    if exhausted {
        return (done, Err(MergeError::IdsExhausted));
    }
    let plan = plan_merge(&outlines);
    proof {
        if plan is Ok {
            lemma_pages_in_input_order(outlines@, plan->Ok_0);
            if forall|i: int| 0 <= i < inputs.len() ==> pages_regular(pdf_pages(#[trigger] inputs[i])) {
                assert(pages_ascending(outlines@)) by {
                    assert forall|d: int, i: int, j: int|
                        0 <= d < outlines@.len() && 0 <= i < j < outlines@[d].pages@.len() implies id_key(
                            #[trigger] outlines@[d].pages@[i].id,
                        ) < id_key(#[trigger] outlines@[d].pages@[j].id) by {
                        assert(pages_regular(pdf_pages(inputs[d])));
                        assert(outlines@[d].pages@ == pdf_pages(done@[d]));
                    }
                }
                lemma_merged_pages_concatenated(outlines@, plan->Ok_0);
                lemma_page_ids_described(outlines@, done@);
                assert forall|i: int| 0 <= i < inputs.len() implies pdf_pages(#[trigger] done@[i]).len() == pdf_pages(
                    inputs[i],
                ).len() by {
                    assert(pages_regular(pdf_pages(inputs[i])));
                }
                lemma_page_total(inputs, done@);
            }
        }
    }
    (done, plan)
}

/// `lopdf`'s `Document::clone`, derived: a copy with the same content, so
/// its objects and pages read the same.
#[verifier::external_body]
fn copy_of(doc: &lopdf::Document) -> (r: lopdf::Document)
    ensures
        pdf_objects(r) == pdf_objects(*doc),
        pdf_pages(r) == pdf_pages(*doc),
        pdf_tree_links(r) == pdf_tree_links(*doc),
{
    doc.clone()
}

/// The keys (`id_key`) of the ids of a list of objects.
pub open spec fn object_keys(objects: Seq<ObjectEntry>) -> Set<int> {
    Set::new(|k: int| exists|i: int| 0 <= i < objects.len() && id_key(#[trigger] objects[i].id) == k)
}

/// The keys of the ids of the pages numbered (from 1) in `numbers`; numbers
/// past the last page name none.
pub open spec fn numbered_page_keys(pages: Seq<PageEntry>, numbers: Seq<u32>) -> Set<int> {
    Set::new(
        |k: int|
            exists|j: int|
                0 <= j < numbers.len() && 1 <= #[trigger] numbers[j] <= pages.len() && id_key(
                    pages[numbers[j] - 1].id,
                ) == k,
    )
}

/// `lopdf`'s `Document::delete_pages`: takes the page map of `get_pages`
/// once, then for each number in it removes the page's object from the
/// object map (`Document::delete_object`, which also drops the references to
/// it from the other objects) and walks up the page's `/Parent` chain,
/// lowering each node's integer `/Count` by one. The walk only shortens as
/// objects and references go, so it ends where the chain of the document
/// ends, and each `/Count` is lowered at most once per number: the
/// `requires` leaves out a chain that loops and a `/Count` that would pass
/// below `i64::MIN`. No object is added, so the ids left are those before
/// less the ids of the numbered pages. What the page tree then reads, and
/// the objects' contents, are not stated.
#[verifier::external_body]
fn delete_pages_of(doc: &mut lopdf::Document, numbers: &Vec<u32>)
    requires
        deletion_safe(pdf_tree_links(*old(doc)), pdf_pages(*old(doc)), numbers@),
    ensures
        object_keys(pdf_objects(*final(doc))) == object_keys(pdf_objects(*old(doc))).difference(
            numbered_page_keys(pdf_pages(*old(doc)), numbers@),
        ),
{
    doc.delete_pages(numbers.as_slice())
}

/// A copy of `doc` from which the pages numbered (from 1) in `deletions`
/// are deleted, as `reorganize` makes one per page: the copy holds the
/// objects of `doc` but the page objects so numbered. The deletion must
/// end (see `deletion_safe`).
pub fn without_pages(doc: &lopdf::Document, deletions: &Vec<u32>) -> (r: lopdf::Document)
    requires
        deletion_safe(pdf_tree_links(*doc), pdf_pages(*doc), deletions@),
    ensures
        object_keys(pdf_objects(r)) == object_keys(pdf_objects(*doc)).difference(
            numbered_page_keys(pdf_pages(*doc), deletions@),
        ),
{
    let mut copy = copy_of(doc);
    delete_pages_of(&mut copy, deletions);
    copy
}

/// `without_pages`, when the deletion is safe (`deletion_safe`); nothing
/// when a numbered page's `/Parent` chain loops or a `/Count` would
/// overflow.
pub fn checked_without_pages(doc: &lopdf::Document, deletions: &Vec<u32>) -> (r: Option<lopdf::Document>)
    ensures
        r is None <==> !deletion_safe(pdf_tree_links(*doc), pdf_pages(*doc), deletions@),
        r matches Some(d) ==> object_keys(pdf_objects(d)) == object_keys(pdf_objects(*doc)).difference(
            numbered_page_keys(pdf_pages(*doc), deletions@),
        ),
{
    let links = tree_links_of(doc);
    let pages = pages_of(doc);
    if deletion_is_safe(&links, &pages, deletions) {
        Some(without_pages(doc, deletions))
    } else {
        None
    }
}

} // verus!
