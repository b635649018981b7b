use lopdf::{Dictionary, Document, Object, Stream};
use yapm::merge::{classify, plan_merge, DocumentOutline, MergeError, ObjectEntry, ObjectKind, PageEntry};
use yapm::assembly::assemble;
use yapm::pdf::{checked_without_pages, compress, merge, outline_of, page_count, renumber_from_one, without_pages};

fn entry(number: u32, kind: Option<&str>, is_dictionary: bool) -> ObjectEntry {
    ObjectEntry { id: (number, 0), kind_name: kind.map(|k| k.as_bytes().to_vec()), is_dictionary }
}

fn page(number: u32) -> PageEntry {
    PageEntry { id: (number, 0), found: true, is_dictionary: true }
}

fn outline(pages: Vec<PageEntry>, objects: Vec<ObjectEntry>) -> DocumentOutline {
    DocumentOutline { pages, objects }
}

#[test]
fn kinds_by_type_name() {
    assert_eq!(classify(&Some(b"Catalog".to_vec())), ObjectKind::Catalog);
    assert_eq!(classify(&Some(b"Pages".to_vec())), ObjectKind::PageTree);
    assert_eq!(classify(&Some(b"Page".to_vec())), ObjectKind::Page);
    assert_eq!(classify(&Some(b"Outlines".to_vec())), ObjectKind::Outlines);
    assert_eq!(classify(&Some(b"Outline".to_vec())), ObjectKind::Outline);
    assert_eq!(classify(&Some(b"Font".to_vec())), ObjectKind::Other);
    assert_eq!(classify(&None), ObjectKind::Other);
}

fn two_documents() -> Vec<DocumentOutline> {
    vec![
        outline(
            vec![page(3), page(2)],
            vec![entry(1, Some("Catalog"), true), entry(2, Some("Page"), true), entry(3, Some("Page"), true), entry(4, Some("Pages"), true), entry(5, Some("Font"), true), entry(6, Some("Outlines"), true)],
        ),
        outline(vec![], vec![entry(7, None, false)]),
        outline(
            vec![page(9)],
            vec![entry(8, Some("Catalog"), true), entry(9, Some("Page"), true), entry(10, Some("Pages"), true), entry(11, Some("XObject"), false)],
        ),
    ]
}

#[test]
fn merge_plan_of_three_documents() {
    let plan = plan_merge(&two_documents()).ok().unwrap();
    let bookmarks: Vec<(usize, (u32, u16))> = plan.bookmarks.iter().map(|b| (b.number, b.page)).collect();
    assert_eq!(bookmarks, vec![(1, (3, 0)), (2, (9, 0))]);
    assert_eq!(plan.copied, vec![((5, 0), 0), ((7, 0), 1), ((11, 0), 2)]);
    assert_eq!(plan.pages, vec![((2, 0), (0, true)), ((3, 0), (0, true)), ((9, 0), (2, true))]);
    assert_eq!(plan.page_tree_root, (4, 0));
    assert_eq!(plan.page_tree_sources, vec![((4, 0), 0), ((10, 0), 2)]);
    assert_eq!(plan.catalog_root, (1, 0));
    assert_eq!(plan.catalog_source, ((8, 0), 2));
    assert!(plan.catalog_is_dictionary);
}

#[test]
fn later_document_wins_a_shared_id() {
    let docs = vec![
        outline(vec![page(2)], vec![entry(1, Some("Catalog"), true), entry(2, Some("Page"), true), entry(3, Some("Pages"), true), entry(4, Some("Font"), true)]),
        outline(vec![page(2)], vec![entry(2, Some("Page"), false), entry(4, Some("Pages"), true)]),
    ];
    let plan = plan_merge(&docs).ok().unwrap();
    assert_eq!(plan.copied, vec![]);
    assert_eq!(plan.pages, vec![((2, 0), (1, true))]);
    assert_eq!(plan.page_tree_sources, vec![((3, 0), 0), ((4, 0), 1)]);
    assert_eq!(plan.bookmarks.len(), 2);
}

#[test]
fn merge_refusals() {
    let missing_page = vec![outline(vec![PageEntry { id: (2, 0), found: false, is_dictionary: false }], vec![])];
    assert_eq!(plan_merge(&missing_page).err(), Some(MergeError::PageObjectMissing));
    let no_tree = vec![outline(vec![], vec![entry(1, Some("Catalog"), true), entry(2, Some("Pages"), false)])];
    assert_eq!(plan_merge(&no_tree).err(), Some(MergeError::PageTreeRootMissing));
    let no_catalog = vec![outline(vec![], vec![entry(2, Some("Pages"), true)])];
    assert_eq!(plan_merge(&no_catalog).err(), Some(MergeError::CatalogMissing));
    assert_eq!(plan_merge(&vec![]).err(), Some(MergeError::PageTreeRootMissing));
}

fn document(pages: usize) -> Document {
    let mut doc = Document::with_version("1.5");
    let pages_id = doc.new_object_id();
    let mut kids = Vec::new();
    for _ in 0..pages {
        let mut content = Stream::new(Dictionary::new(), b"BT /F1 12 Tf 72 712 Td (Hello hello hello hello hello hello hello) Tj ET".repeat(4));
        content.allows_compression = true;
        let content_id = doc.add_object(content);
        let mut page = Dictionary::new();
        page.set("Type", Object::Name(b"Page".to_vec()));
        page.set("Parent", Object::Reference(pages_id));
        page.set("Contents", Object::Reference(content_id));
        kids.push(Object::Reference(doc.add_object(page)));
    }
    let mut tree = Dictionary::new();
    tree.set("Type", Object::Name(b"Pages".to_vec()));
    tree.set("Count", Object::Integer(pages as i64));
    tree.set("Kids", Object::Array(kids));
    doc.objects.insert(pages_id, Object::Dictionary(tree));
    let mut catalog = Dictionary::new();
    catalog.set("Type", Object::Name(b"Catalog".to_vec()));
    catalog.set("Pages", Object::Reference(pages_id));
    let catalog_id = doc.add_object(catalog);
    doc.trailer.set("Root", Object::Reference(catalog_id));
    doc
}

#[test]
fn outline_of_a_lopdf_document() {
    let doc = document(2);
    assert_eq!(page_count(&doc), 2);
    let o = outline_of(&doc);
    assert_eq!(o.pages.len(), 2);
    assert!(o.pages.iter().all(|p| p.found && p.is_dictionary));
    assert_eq!(o.objects.len(), 6);
    let kinds: Vec<ObjectKind> = o.objects.iter().map(|e| classify(&e.kind_name)).collect();
    assert_eq!(kinds, vec![ObjectKind::PageTree, ObjectKind::Other, ObjectKind::Page, ObjectKind::Other, ObjectKind::Page, ObjectKind::Catalog]);
}

#[test]
fn merging_lopdf_documents_renumbers_them_one_after_the_other() {
    let (docs, plan) = merge(vec![document(1), document(2)]);
    assert_eq!(docs.len(), 2);
    let plan = plan.ok().unwrap();
    let first_max = docs[0].max_id;
    assert!(docs[1].objects.keys().all(|id| id.0 > first_max));
    assert_eq!(plan.pages.len(), 3);
    assert_eq!(plan.bookmarks.len(), 2);
    assert_eq!(plan.page_tree_sources.len(), 2);
    assert_eq!(plan.copied.len(), 3);
    assert_eq!(plan.catalog_source.1, 1);
    let sources: Vec<usize> = plan.pages.iter().map(|p| p.1 .0).collect();
    assert_eq!(sources, vec![0, 1, 1]);
    let first_numbers: Vec<u32> = docs[0].objects.keys().map(|id| id.0).collect();
    assert_eq!(first_numbers, (1..=4).collect::<Vec<u32>>());
    assert_eq!(first_max, 4);
    let second_numbers: Vec<u32> = docs[1].objects.keys().map(|id| id.0).collect();
    assert_eq!(second_numbers, (5..=10).collect::<Vec<u32>>());
    assert_eq!(docs[1].max_id, 10);
}

#[test]
fn merged_pages_follow_the_order_of_the_documents() {
    let (_, plan) = merge(vec![document(2), document(1), document(3)]);
    let plan = plan.ok().unwrap();
    let sources: Vec<usize> = plan.pages.iter().map(|p| p.1 .0).collect();
    assert_eq!(sources, vec![0, 0, 1, 2, 2, 2]);
    let bookmarked: Vec<usize> = plan.bookmarks.iter().map(|b| b.number).collect();
    assert_eq!(bookmarked, vec![1, 2, 3]);
}

#[test]
fn compression_keeps_objects_and_pages() {
    let mut doc = document(2);
    let before = outline_of(&doc);
    compress(&mut doc);
    let after = outline_of(&doc);
    let ids = |o: &DocumentOutline| o.objects.iter().map(|e| (e.id, e.kind_name.clone(), e.is_dictionary)).collect::<Vec<_>>();
    assert_eq!(ids(&before), ids(&after));
    assert_eq!(page_count(&doc), 2);
    let compressed = doc.objects.values().any(|o| matches!(o, Object::Stream(s) if s.dict.get(b"Filter").is_ok()));
    assert!(compressed);
}

#[test]
fn compression_leaves_short_and_locked_streams() {
    let mut doc = document(1);
    let mut short = Stream::new(Dictionary::new(), b"q Q".to_vec());
    short.allows_compression = true;
    let short_id = doc.add_object(short);
    let mut locked = Stream::new(Dictionary::new(), b"BT (a) Tj ET ".repeat(40));
    locked.allows_compression = false;
    let locked_id = doc.add_object(locked);
    compress(&mut doc);
    for id in [short_id, locked_id] {
        match doc.get_object(id) {
            Ok(Object::Stream(s)) => assert!(s.dict.get(b"Filter").is_err()),
            _ => panic!("the stream is still there"),
        }
    }
}

#[test]
fn a_copy_without_pages() {
    let doc = document(3);
    let single = without_pages(&doc, &vec![1, 3]);
    assert_eq!(page_count(&single), 1);
    assert_eq!(page_count(&doc), 3);
    let pages = outline_of(&doc).pages;
    assert!(!single.objects.contains_key(&pages[0].id));
    assert!(single.objects.contains_key(&pages[1].id));
    assert!(!single.objects.contains_key(&pages[2].id));
    assert_eq!(single.objects.len(), doc.objects.len() - 2);
    let past_the_end = without_pages(&doc, &vec![7]);
    assert_eq!(past_the_end.objects.len(), doc.objects.len());
    let checked = checked_without_pages(&doc, &vec![2]).unwrap();
    assert_eq!(page_count(&checked), 2);
    assert!(!checked.objects.contains_key(&pages[1].id));
}

#[test]
fn a_looping_page_tree_is_not_cut() {
    let mut doc = document(2);
    let pages = outline_of(&doc).pages;
    let tree_id = match doc.get_object(pages[0].id) {
        Ok(Object::Dictionary(page)) => page.get(b"Parent").unwrap().as_reference().unwrap(),
        _ => panic!("a page dictionary"),
    };
    if let Ok(Object::Dictionary(tree)) = doc.get_object_mut(tree_id) {
        tree.set("Parent", Object::Reference(tree_id));
    }
    assert!(checked_without_pages(&doc, &vec![1]).is_none());
    assert!(checked_without_pages(&doc, &vec![9]).is_some());
}

#[test]
fn a_count_at_the_bottom_of_i64_is_not_lowered() {
    let mut doc = document(2);
    let pages = outline_of(&doc).pages;
    let tree_id = match doc.get_object(pages[0].id) {
        Ok(Object::Dictionary(page)) => page.get(b"Parent").unwrap().as_reference().unwrap(),
        _ => panic!("a page dictionary"),
    };
    if let Ok(Object::Dictionary(tree)) = doc.get_object_mut(tree_id) {
        tree.set("Count", Object::Integer(i64::MIN));
    }
    assert!(checked_without_pages(&doc, &vec![1]).is_none());
    assert!(checked_without_pages(&doc, &vec![]).is_some());
}

#[test]
fn renumbered_documents_keep_their_places_and_pages() {
    let inputs = vec![document(3), document(1), document(2)];
    let counts: Vec<usize> = inputs.iter().map(|d| d.objects.len()).collect();
    let (docs, plan) = merge(inputs);
    assert!(plan.is_ok());
    let pages: Vec<usize> = docs.iter().map(page_count).collect();
    assert_eq!(pages, vec![3, 1, 2]);
    let after: Vec<usize> = docs.iter().map(|d| d.objects.len()).collect();
    assert_eq!(after, counts);
    for doc in &docs {
        let ids: Vec<(u32, u16)> = outline_of(doc).pages.iter().map(|p| p.id).collect();
        assert!(ids.windows(2).all(|w| w[0] < w[1]));
    }
}

#[test]
fn assembling_a_merge_plan() {
    let (docs, plan) = merge(vec![document(1), document(2)]);
    let plan = plan.ok().unwrap();
    let mut target = Document::with_version("1.5");
    assemble(&mut target, &docs, &plan);
    let expected = plan.copied.len() + plan.pages.iter().filter(|p| p.1 .1).count() + 1 + usize::from(plan.catalog_is_dictionary);
    assert_eq!(target.objects.len(), expected);
    assert_eq!(target.max_id as usize, expected);
    for (id, _) in &plan.copied {
        assert!(target.objects.contains_key(id));
    }
    assert!(target.objects.contains_key(&plan.page_tree_root));
    let root = target.get_dictionary(plan.page_tree_root).unwrap();
    let kids: Vec<(u32, u16)> = root.get(b"Kids").unwrap().as_array().unwrap().iter().map(|k| k.as_reference().unwrap()).collect();
    let planned: Vec<(u32, u16)> = plan.pages.iter().map(|p| p.0).collect();
    assert_eq!(kids, planned);
    assert_eq!(root.get(b"Count").unwrap().as_i64().unwrap(), 3);
    for id in &planned {
        let page = target.get_dictionary(*id).unwrap();
        assert_eq!(page.get(b"Parent").unwrap().as_reference().unwrap(), plan.page_tree_root);
    }
    let catalog = target.get_dictionary(plan.catalog_root).unwrap();
    assert_eq!(catalog.get(b"Pages").unwrap().as_reference().unwrap(), plan.page_tree_root);
    assert!(catalog.get(b"Outlines").is_err());
    assert_eq!(target.trailer.get(b"Root").unwrap().as_reference().unwrap(), plan.catalog_root);
    assert_eq!(page_count(&target), 3);
    assert!(renumber_from_one(&mut target).is_ok());
    let numbers: Vec<u32> = target.objects.keys().map(|id| id.0).collect();
    assert_eq!(numbers, (1..=expected as u32).collect::<Vec<u32>>());
    assert_eq!(page_count(&target), 3);
    let sources: Vec<usize> = plan.pages.iter().map(|p| p.1 .0).collect();
    assert_eq!(sources, vec![0, 1, 1]);
}
