//! The merged document, put together object by object as a merge plan says:
//! the copied objects, the pages under the page tree root, the root with the
//! combined page-tree dictionaries, the catalog and the trailer.

use vstd::prelude::*;
use crate::ids::{id_key, lemma_id_key_injective, lemma_last_holder_range};
use crate::merge::{
    is_merge_plan, merge_outcome, object_ids, object_lists, page_ids, page_lists, page_missing,
    DocumentOutline, MergePlan,
};
use crate::pdf::{object_keys, outlines_describe, pdf_max_id, pdf_objects, pdf_pages};

verus! {

/// A dictionary of a PDF document, as `lopdf` holds it.
#[verifier::external_type_specification]
#[verifier::external_body]
pub struct ExDictionary(lopdf::Dictionary);

/// A value of a dictionary entry, as far as the merge reads it.
pub enum DictValue {
    /// A reference to the object with this id.
    Reference((u32, u16)),
    /// An integer.
    Integer(i64),
    /// An array whose items are all references, to these ids in order.
    References(Seq<(u32, u16)>),
    /// Any other value.
    Other,
}

/// What a `lopdf` dictionary holds: each key (as bytes) with its value,
/// read as a `DictValue` (`Object::Reference`, `Object::Integer`, an
/// `Object::Array` of references only, or anything else).
pub uninterp spec fn dict_entries(dict: lopdf::Dictionary) -> Map<Seq<u8>, DictValue>;

/// The objects of a document's object map that are stored as
/// `Object::Dictionary`, by the key (`id_key`) of their id, each with what
/// it holds (`dict_entries`).
pub uninterp spec fn pdf_dicts(doc: lopdf::Document) -> Map<int, Map<Seq<u8>, DictValue>>;

/// What the trailer dictionary of a document (`Document::trailer`) holds
/// (`dict_entries`).
pub uninterp spec fn pdf_trailer(doc: lopdf::Document) -> Map<Seq<u8>, DictValue>;

/// The key `Parent`.
pub open spec fn parent_key() -> Seq<u8> {
    seq![80u8, 97, 114, 101, 110, 116]
}

/// The key `Pages`.
pub open spec fn pages_key() -> Seq<u8> {
    seq![80u8, 97, 103, 101, 115]
}

/// The key `Outlines`.
pub open spec fn outlines_key() -> Seq<u8> {
    seq![79u8, 117, 116, 108, 105, 110, 101, 115]
}

/// The key `Count`.
pub open spec fn count_key() -> Seq<u8> {
    seq![67u8, 111, 117, 110, 116]
}

/// The key `Kids`.
pub open spec fn kids_key() -> Seq<u8> {
    seq![75u8, 105, 100, 115]
}

/// The key `Root`.
pub open spec fn root_key() -> Seq<u8> {
    seq![82u8, 111, 111, 116]
}

/// The dictionary with key `k` in `dicts` has `value` under `key`.
pub open spec fn entry_is(dicts: Map<int, Map<Seq<u8>, DictValue>>, k: int, key: Seq<u8>, value: DictValue) -> bool {
    dicts.contains_key(k) && dicts[k].contains_key(key) && dicts[k][key] == value
}

/// The ids of the plan's pages, in the plan's order.
pub open spec fn plan_page_ids(plan: MergePlan) -> Seq<(u32, u16)> {
    plan.pages@.map_values(|e: ((u32, u16), (usize, bool))| e.0)
}

/// `docs` are the documents `plan` was made for: some outlines describe them
/// and the plan is what `plan_merge` gives for those outlines.
pub open spec fn planned_for(docs: Seq<lopdf::Document>, plan: MergePlan) -> bool {
    exists|o: Seq<DocumentOutline>| outlines_describe(o, docs) && #[trigger] merge_outcome(o, Ok(plan))
}

/// The keys of the objects the plan puts into the merged document: the
/// copied objects, the pages that are dictionaries, the page tree root and,
/// when it is a dictionary, the catalog.
pub open spec fn planned_keys(plan: MergePlan) -> Set<int> {
    Set::new(
        |k: int|
            (exists|i: int| 0 <= i < plan.copied@.len() && id_key(#[trigger] plan.copied@[i].0) == k) || (exists|i: int|
                0 <= i < plan.pages@.len() && (#[trigger] plan.pages@[i]).1.1 && id_key(plan.pages@[i].0) == k) || k
                == id_key(plan.page_tree_root) || (plan.catalog_is_dictionary && k == id_key(plan.catalog_root)),
    )
}

/// The keys of the first `n` copied objects of the plan.
pub open spec fn copied_prefix_keys(plan: MergePlan, n: int) -> Set<int> {
    Set::new(|k: int| exists|m: int| 0 <= m < n && id_key(#[trigger] plan.copied@[m].0) == k)
}

/// The keys of the pages among the first `n` of the plan that are
/// dictionaries.
pub open spec fn page_prefix_keys(plan: MergePlan, n: int) -> Set<int> {
    Set::new(|k: int| exists|m: int| 0 <= m < n && (#[trigger] plan.pages@[m]).1.1 && id_key(plan.pages@[m].0) == k)
}

/// Some object of `doc` has the id `id` and is a dictionary.
pub open spec fn holds_dictionary(doc: lopdf::Document, id: (u32, u16)) -> bool {
    exists|j: int|
        0 <= j < pdf_objects(doc).len() && id_key(pdf_objects(doc)[j].id) == id_key(id) && pdf_objects(doc)[j].is_dictionary
}

/// `doc` lists a page with id `id` that is found and is a dictionary.
pub open spec fn holds_page_dictionary(doc: lopdf::Document, id: (u32, u16)) -> bool {
    exists|j: int|
        0 <= j < pdf_pages(doc).len() && id_key(pdf_pages(doc)[j].id) == id_key(id) && pdf_pages(doc)[j].found
            && pdf_pages(doc)[j].is_dictionary
}

/// `BTreeMap::insert` into the object map of `target` of a clone
/// (`Object::clone`) of the object of `source` with id `id` (`BTreeMap`
/// indexing, which panics on an id that is not there). The object map of
/// `target` then holds `id` besides what it held; the trailer is not
/// touched.
#[verifier::external_body]
fn copy_object(target: &mut lopdf::Document, source: &lopdf::Document, id: (u32, u16))
    requires
        object_keys(pdf_objects(*source)).contains(id_key(id)),
    ensures
        object_keys(pdf_objects(*final(target))) == object_keys(pdf_objects(*old(target))).insert(id_key(id)),
        pdf_trailer(*final(target)) == pdf_trailer(*old(target)),
{
    target.objects.insert(id, source.objects[&id].clone());
}

/// `Document::get_object` of a page of `source` and `Object::as_dict` of
/// what it finds, cloned; the page is found and is a dictionary, so neither
/// fails.
#[verifier::external_body]
fn page_dictionary(source: &lopdf::Document, id: (u32, u16)) -> lopdf::Dictionary
    requires
        holds_page_dictionary(*source, id),
{
    source.get_object(id).and_then(lopdf::Object::as_dict).cloned().expect("a page dictionary")
}

/// `Object::as_dict` of the object of `source` with id `id`, cloned; that
/// object is a dictionary, so it does not fail, and the copy holds what it
/// holds.
#[verifier::external_body]
fn object_dictionary(source: &lopdf::Document, id: (u32, u16)) -> (r: lopdf::Dictionary)
    requires
        holds_dictionary(*source, id),
    ensures
        dict_entries(r) == pdf_dicts(*source)[id_key(id)],
{
    source.objects[&id].as_dict().cloned().expect("a dictionary")
}

/// `Dictionary::set` of `key` to a reference to `id`: the entry is added,
/// or its value replaced.
#[verifier::external_body]
fn set_reference(dict: &mut lopdf::Dictionary, key: &[u8], id: (u32, u16))
    ensures
        dict_entries(*final(dict)) == dict_entries(*old(dict)).insert(key@, DictValue::Reference(id)),
{
    dict.set(key.to_vec(), lopdf::Object::Reference(id))
}

/// `Dictionary::extend`: the entries of `other` are added to `dict`; where
/// both have a key, the two values are kept together in an array. What the
/// result holds is not stated.
#[verifier::external_body]
fn extend_dictionary(dict: &mut lopdf::Dictionary, other: &lopdf::Dictionary) {
    dict.extend(other)
}

/// `Dictionary::set` of `/Count` to `count` as a `u32` (cut to 32 bits, as
/// `as u32` cuts it), which `lopdf` stores as an integer.
#[verifier::external_body]
fn set_count(dict: &mut lopdf::Dictionary, count: usize)
    ensures
        count <= u32::MAX ==> dict_entries(*final(dict)) == dict_entries(*old(dict)).insert(
            count_key(),
            DictValue::Integer(count as i64),
        ),
{
    dict.set("Count", count as u32)
}

/// `Dictionary::set` of `/Kids` to an array of references to `ids`, in order.
#[verifier::external_body]
fn set_kids(dict: &mut lopdf::Dictionary, ids: &Vec<(u32, u16)>)
    ensures
        dict_entries(*final(dict)) == dict_entries(*old(dict)).insert(kids_key(), DictValue::References(ids@)),
{
    dict.set("Kids", ids.iter().map(|id| lopdf::Object::Reference(*id)).collect::<Vec<lopdf::Object>>())
}

/// `Dictionary::remove` of `key`: the entry is gone, if there was one.
#[verifier::external_body]
fn remove_entry(dict: &mut lopdf::Dictionary, key: &[u8])
    ensures
        dict_entries(*final(dict)) == dict_entries(*old(dict)).remove(key@),
{
    dict.remove(key);
}

/// `BTreeMap::insert` of `dict` as the object of `target` with id `id`: the
/// object map then holds `id` besides what it held, and that object is
/// `dict`; the trailer is not touched.
#[verifier::external_body]
fn insert_dictionary(target: &mut lopdf::Document, id: (u32, u16), dict: lopdf::Dictionary)
    ensures
        object_keys(pdf_objects(*final(target))) == object_keys(pdf_objects(*old(target))).insert(id_key(id)),
        pdf_dicts(*final(target)) == pdf_dicts(*old(target)).insert(id_key(id), dict_entries(dict)),
        pdf_trailer(*final(target)) == pdf_trailer(*old(target)),
{
    target.objects.insert(id, lopdf::Object::Dictionary(dict));
}

/// `Dictionary::set` of the trailer's `/Root` to a reference to `id`; the
/// object map is not touched.
#[verifier::external_body]
fn set_trailer_root(target: &mut lopdf::Document, id: (u32, u16))
    ensures
        pdf_objects(*final(target)) == pdf_objects(*old(target)),
        pdf_dicts(*final(target)) == pdf_dicts(*old(target)),
        pdf_trailer(*final(target)) == pdf_trailer(*old(target)).insert(root_key(), DictValue::Reference(id)),
{
    target.trailer.set("Root", lopdf::Object::Reference(id))
}

/// Sets `max_id` to the number of objects (cut to 32 bits, as `as u32` cuts
/// it); the object map and the trailer are not touched.
#[verifier::external_body]
fn set_max_id_to_count(target: &mut lopdf::Document)
    ensures
        pdf_objects(*final(target)) == pdf_objects(*old(target)),
        pdf_dicts(*final(target)) == pdf_dicts(*old(target)),
        pdf_trailer(*final(target)) == pdf_trailer(*old(target)),
        pdf_objects(*old(target)).len() <= u32::MAX ==> pdf_max_id(*final(target)) == pdf_objects(*old(target)).len(),
{
    target.max_id = target.objects.len() as u32;
}

proof fn lemma_copied_source(o: Seq<DocumentOutline>, docs: Seq<lopdf::Document>, plan: MergePlan, i: int)
    requires
        outlines_describe(o, docs),
        is_merge_plan(o, plan),
        0 <= i < plan.copied@.len(),
    ensures
        plan.copied@[i].1 < docs.len(),
        object_keys(pdf_objects(docs[plan.copied@[i].1 as int])).contains(id_key(plan.copied@[i].0)),
{
    let id = plan.copied@[i].0;
    let lists = object_lists(o);
    lemma_last_holder_range(lists, id, o.len() as int);
    let d = plan.copied@[i].1 as int;
    assert(lists[d] == object_ids(o[d]));
    let j = choose|j: int| 0 <= j < lists[d].len() && lists[d][j] == id;
    assert(o[d].objects@[j].id == id);
    assert(pdf_objects(docs[d])[j].id == id);
    assert(object_keys(pdf_objects(docs[d])).contains(id_key(id)));
}

proof fn lemma_page_source(o: Seq<DocumentOutline>, docs: Seq<lopdf::Document>, plan: MergePlan, i: int)
    requires
        outlines_describe(o, docs),
        is_merge_plan(o, plan),
        !page_missing(o),
        0 <= i < plan.pages@.len(),
        plan.pages@[i].1.1,
    ensures
        plan.pages@[i].1.0 < docs.len(),
        holds_page_dictionary(docs[plan.pages@[i].1.0 as int], plan.pages@[i].0),
{
    let id = plan.pages@[i].0;
    let lists = page_lists(o);
    lemma_last_holder_range(lists, id, o.len() as int);
    let d = plan.pages@[i].1.0 as int;
    assert(lists[d] == page_ids(o[d]));
    let j0 = choose|j: int| 0 <= j < lists[d].len() && lists[d][j] == id;
    assert(o[d].pages@[j0].id == id);
    let j = choose|j: int| 0 <= j < o[d].pages@.len() && o[d].pages@[j].id == id;
    assert(o[d].pages@[j].found);
    assert(pdf_pages(docs[d])[j] == o[d].pages@[j]);
}

proof fn lemma_dictionary_source(o: Seq<DocumentOutline>, docs: Seq<lopdf::Document>, id: (u32, u16), d: int)
    requires
        outlines_describe(o, docs),
        crate::merge::in_objects(o, id),
        d == crate::merge::object_source(o, id),
        crate::merge::merged_entry(o, id).is_dictionary,
    ensures
        0 <= d < docs.len(),
        holds_dictionary(docs[d], id),
{
    let lists = object_lists(o);
    lemma_last_holder_range(lists, id, o.len() as int);
    assert(lists[d] == object_ids(o[d]));
    let j0 = choose|j: int| 0 <= j < lists[d].len() && lists[d][j] == id;
    assert(o[d].objects@[j0].id == id);
    let j = choose|j: int| 0 <= j < o[d].objects@.len() && o[d].objects@[j].id == id;
    assert(o[d].objects@[j].is_dictionary);
    assert(pdf_objects(docs[d])[j] == o[d].objects@[j]);
}

/// Puts into `target` the objects the plan takes from `docs`: each copied
/// object as it is; each page that is a dictionary with the page tree root
/// as its `/Parent`; the root, made of the page-tree dictionaries of the
/// plan combined in order (each extending the one before), with `/Count`
/// the number of pages and `/Kids` the pages in the plan's order; and, when
/// it is a dictionary, the catalog as its source holds it, with `/Pages` the
/// root and no `/Outlines`. Then the trailer's `/Root` names the catalog and
/// `max_id` counts the objects. The object map of `target` gains exactly
/// the planned ids. A page whose id is also the root's or the catalog's is
/// replaced by that object. What the root holds besides `/Count` and
/// `/Kids` is not stated.
#[verifier::rlimit(60)]
pub fn assemble(target: &mut lopdf::Document, docs: &Vec<lopdf::Document>, plan: &MergePlan)
    requires
        planned_for(docs@, *plan),
    ensures
        object_keys(pdf_objects(*final(target))) == object_keys(pdf_objects(*old(target))).union(planned_keys(*plan)),
        pdf_objects(*final(target)).len() <= u32::MAX ==> pdf_max_id(*final(target)) == pdf_objects(*final(target)).len(),
        entry_is(
            pdf_dicts(*final(target)),
            id_key(plan.page_tree_root),
            kids_key(),
            DictValue::References(plan_page_ids(*plan)),
        ),
        plan.pages@.len() <= u32::MAX ==> entry_is(
            pdf_dicts(*final(target)),
            id_key(plan.page_tree_root),
            count_key(),
            DictValue::Integer(plan.pages@.len() as i64),
        ),
        forall|i: int|
            0 <= i < plan.pages@.len() && (#[trigger] plan.pages@[i]).1.1 && id_key(plan.pages@[i].0) != id_key(
                plan.page_tree_root,
            ) && !(plan.catalog_is_dictionary && id_key(plan.pages@[i].0) == id_key(plan.catalog_root))
                ==> entry_is(
                pdf_dicts(*final(target)),
                id_key(plan.pages@[i].0),
                parent_key(),
                DictValue::Reference(plan.page_tree_root),
            ),
        plan.catalog_is_dictionary ==> {
            &&& pdf_dicts(*final(target)).contains_key(id_key(plan.catalog_root))
            &&& pdf_dicts(*final(target))[id_key(plan.catalog_root)] == pdf_dicts(
                docs@[plan.catalog_source.1 as int],
            )[id_key(plan.catalog_source.0)].insert(pages_key(), DictValue::Reference(plan.page_tree_root)).remove(
                outlines_key(),
            )
        },
        pdf_trailer(*final(target)) == pdf_trailer(*old(target)).insert(
            root_key(),
            DictValue::Reference(plan.catalog_root),
        ),
{
    let ghost o = choose|o: Seq<DocumentOutline>| outlines_describe(o, docs@) && #[trigger] merge_outcome(o, Ok(*plan));
    let ghost start = object_keys(pdf_objects(*target));
    let mut i: usize = 0;
    while i < plan.copied.len()
        invariant
            outlines_describe(o, docs@),
            merge_outcome(o, Ok(*plan)),
            i <= plan.copied@.len(),
            pdf_trailer(*target) == pdf_trailer(*old(target)),
            object_keys(pdf_objects(*target)) == start.union(copied_prefix_keys(*plan, i as int)),
        decreases plan.copied.len() - i,
    {
        proof {
            lemma_copied_source(o, docs@, *plan, i as int);
        }
        let (id, d) = plan.copied[i];
        copy_object(target, &docs[d], id);
        i = i + 1;
        assert(object_keys(pdf_objects(*target)) =~= start.union(copied_prefix_keys(*plan, i as int))) by {
            assert forall|k: int| #[trigger] object_keys(pdf_objects(*target)).contains(k) implies start.union(
                copied_prefix_keys(*plan, i as int),
            ).contains(k) by {
                if k == id_key(id) {
                    assert(id_key(plan.copied@[i - 1].0) == k);
                }
            }
        }
    }
    let ghost copied_keys = object_keys(pdf_objects(*target));
    let root = plan.page_tree_root;
    let parent: Vec<u8> = vec![80u8, 97, 114, 101, 110, 116];
    assert(parent@ =~= parent_key());
    let mut p: usize = 0;
    while p < plan.pages.len()
        invariant
            outlines_describe(o, docs@),
            merge_outcome(o, Ok(*plan)),
            root == plan.page_tree_root,
            parent@ == parent_key(),
            p <= plan.pages@.len(),
            pdf_trailer(*target) == pdf_trailer(*old(target)),
            object_keys(pdf_objects(*target)) == copied_keys.union(page_prefix_keys(*plan, p as int)),
            forall|m: int|
                0 <= m < p && (#[trigger] plan.pages@[m]).1.1 ==> entry_is(
                    pdf_dicts(*target),
                    id_key(plan.pages@[m].0),
                    parent_key(),
                    DictValue::Reference(root),
                ),
        decreases plan.pages.len() - p,
    {
        let (id, (d, is_dictionary)) = plan.pages[p];
        if is_dictionary {
            proof {
                lemma_page_source(o, docs@, *plan, p as int);
            }
            let mut page = page_dictionary(&docs[d], id);
            set_reference(&mut page, parent.as_slice(), root);
            let ghost before = pdf_dicts(*target);
            insert_dictionary(target, id, page);
            proof {
                assert forall|m: int|
                    0 <= m < p && (#[trigger] plan.pages@[m]).1.1 implies entry_is(
                    pdf_dicts(*target),
                    id_key(plan.pages@[m].0),
                    parent_key(),
                    DictValue::Reference(root),
                ) by {
                    assert(id_key(plan.pages@[m].0) < id_key(plan.pages@[p as int].0));
                }
            }
        }
        p = p + 1;
        assert(object_keys(pdf_objects(*target)) =~= copied_keys.union(page_prefix_keys(*plan, p as int))) by {
            assert forall|k: int| #[trigger] object_keys(pdf_objects(*target)).contains(k) implies copied_keys.union(
                page_prefix_keys(*plan, p as int),
            ).contains(k) by {
                if is_dictionary && k == id_key(id) {
                    assert(plan.pages@[p - 1].1.1 && id_key(plan.pages@[p - 1].0) == k);
                }
            }
            assert forall|k: int| #[trigger] page_prefix_keys(*plan, p as int).contains(k) implies object_keys(
                pdf_objects(*target),
            ).contains(k) by {
                let m = choose|m: int| 0 <= m < p && (#[trigger] plan.pages@[m]).1.1 && id_key(plan.pages@[m].0) == k;
                if m == p - 1 {
                    assert(is_dictionary);
                }
            }
        }
    }
    let ghost paged_keys = object_keys(pdf_objects(*target));
    let mut tree: Option<lopdf::Dictionary> = None;
    let mut t: usize = 0;
    while t < plan.page_tree_sources.len()
        invariant
            outlines_describe(o, docs@),
            merge_outcome(o, Ok(*plan)),
            t <= plan.page_tree_sources@.len(),
            t > 0 ==> tree is Some,
        decreases plan.page_tree_sources.len() - t,
    {
        let (id, d) = plan.page_tree_sources[t];
        proof {
            assert(crate::merge::is_tree_node(o, plan.page_tree_sources@[t as int].0));
            lemma_dictionary_source(o, docs@, id, d as int);
        }
        let mut dict = object_dictionary(&docs[d], id);
        match &tree {
            Some(previous) => extend_dictionary(&mut dict, previous),
            None => {},
        }
        tree = Some(dict);
        t = t + 1;
    }
    let mut kids: Vec<(u32, u16)> = Vec::new();
    let mut q: usize = 0;
    while q < plan.pages.len()
        invariant
            q <= plan.pages@.len(),
            kids@ == plan_page_ids(*plan).subrange(0, q as int),
        decreases plan.pages.len() - q,
    {
        kids.push(plan.pages[q].0);
        q = q + 1;
        assert(kids@ =~= plan_page_ids(*plan).subrange(0, q as int));
    }
    assert(kids@ =~= plan_page_ids(*plan));
    let ghost before_root = pdf_dicts(*target);
    match tree {
        Some(mut root_dict) => {
            set_count(&mut root_dict, plan.pages.len());
            set_kids(&mut root_dict, &kids);
            insert_dictionary(target, root, root_dict);
        },
        None => {},
    }
    let ghost rooted_keys = object_keys(pdf_objects(*target));
    let ghost rooted = pdf_dicts(*target);
    proof {
        assert(is_merge_plan(o, *plan));
        assert(rooted == before_root.insert(id_key(root), rooted[id_key(root)]));
        if plan.catalog_is_dictionary && id_key(plan.catalog_root) == id_key(root) {
            lemma_id_key_injective(plan.catalog_root, root);
            assert(crate::merge::is_tree_node(o, plan.page_tree_sources@[0].0));
            assert(crate::merge::is_catalog(o, plan.catalog_root));
            assert(false);
        }
    }
    if plan.catalog_is_dictionary {
        let (id, d) = plan.catalog_source;
        proof {
            lemma_dictionary_source(o, docs@, id, d as int);
        }
        let mut catalog = object_dictionary(&docs[d], id);
        let pages: Vec<u8> = vec![80u8, 97, 103, 101, 115];
        let outlines: Vec<u8> = vec![79u8, 117, 116, 108, 105, 110, 101, 115];
        assert(pages@ =~= pages_key());
        assert(outlines@ =~= outlines_key());
        set_reference(&mut catalog, pages.as_slice(), root);
        remove_entry(&mut catalog, outlines.as_slice());
        insert_dictionary(target, plan.catalog_root, catalog);
    }
    set_trailer_root(target, plan.catalog_root);
    let ghost full = object_keys(pdf_objects(*target));
    set_max_id_to_count(target);
    proof {
        assert(rooted_keys == paged_keys.insert(id_key(root)));
        assert(full =~= object_keys(pdf_objects(*old(target))).union(planned_keys(*plan))) by {
            assert forall|k: int| #[trigger] full.contains(k) implies object_keys(pdf_objects(*old(target))).union(
                planned_keys(*plan),
            ).contains(k) by {
                if !start.contains(k) {
                    if copied_keys.contains(k) && !start.contains(k) {
                        let m = choose|m: int| 0 <= m < plan.copied@.len() && id_key(#[trigger] plan.copied@[m].0) == k;
                        assert(planned_keys(*plan).contains(k));
                    } else if paged_keys.contains(k) && !copied_keys.contains(k) {
                        let m = choose|m: int|
                            0 <= m < plan.pages@.len() && (#[trigger] plan.pages@[m]).1.1 && id_key(plan.pages@[m].0) == k;
                        assert(planned_keys(*plan).contains(k));
                    }
                }
            }
            assert forall|k: int| #[trigger] object_keys(pdf_objects(*old(target))).union(planned_keys(*plan)).contains(k)
                implies full.contains(k) by {
                if planned_keys(*plan).contains(k) && !start.contains(k) {
                    if exists|m: int| 0 <= m < plan.copied@.len() && id_key(#[trigger] plan.copied@[m].0) == k {
                        let m = choose|m: int| 0 <= m < plan.copied@.len() && id_key(#[trigger] plan.copied@[m].0) == k;
                        assert(copied_keys.contains(k));
                    } else if exists|m: int|
                        0 <= m < plan.pages@.len() && (#[trigger] plan.pages@[m]).1.1 && id_key(plan.pages@[m].0) == k {
                        let m = choose|m: int|
                            0 <= m < plan.pages@.len() && (#[trigger] plan.pages@[m]).1.1 && id_key(plan.pages@[m].0) == k;
                        assert(paged_keys.contains(k));
                    }
                }
            }
        }
    }
}

} // verus!
