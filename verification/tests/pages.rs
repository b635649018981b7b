use yapm::naming::archive_entry;
use yapm::pages::{single_page_plan, del_page, get_page, pages_to_keep, parse_page_numbers, reorganize, single_page_deletions, split, swapped_order, GetPagePlan, ReorganizePlan};

fn strings(items: &[&str]) -> Vec<String> {
    items.iter().map(|s| s.to_string()).collect()
}

#[test]
fn kept_pages_skip_deleted_ones() {
    assert_eq!(pages_to_keep(5, &vec![2, 4, 9]), vec![1, 3, 5]);
    assert_eq!(pages_to_keep(0, &vec![]), Vec::<i32>::new());
    assert_eq!(pages_to_keep(-3, &vec![1]), Vec::<i32>::new());
    assert_eq!(pages_to_keep(3, &vec![1, 2, 3]), Vec::<i32>::new());
}

#[test]
fn kept_and_deleted_pages_cover_the_document() {
    let deleted = vec![3, 1, 3];
    let kept = pages_to_keep(6, &deleted);
    for p in 1..=6 {
        assert_eq!(kept.contains(&p), !deleted.contains(&p));
    }
    assert!(kept.windows(2).all(|w| w[0] < w[1]));
}

#[test]
fn page_numbers_are_read_or_refused() {
    assert_eq!(parse_page_numbers(&strings(&["1", "+2", "-3"])), Ok(vec![1, 2, -3]));
    assert_eq!(parse_page_numbers(&strings(&["1", "two", "x"])), Err(1));
}

#[test]
fn delete_plan() {
    let plan = del_page(&strings(&["2"]), 3, "doc.pdf");
    assert_eq!(plan.kept, vec![1, 3]);
    assert_eq!(plan.page_files, strings(&["page_1.pdf", "page_3.pdf"]));
    assert_eq!(plan.output, "modified_doc.pdf");
    let plan = del_page(&strings(&["+1", "-4", "9"]), 3, "doc.pdf");
    assert_eq!(plan.kept, vec![2, 3]);
}

#[test]
fn get_page_plans() {
    assert!(matches!(get_page(&strings(&["4"]), 3, "d.pdf"), GetPagePlan::OutOfRange { page: 4, count: 3 }));
    match get_page(&strings(&["2"]), 3, "d.pdf") {
        GetPagePlan::Write { file, index } => {
            assert_eq!(file, "Page_2_d.pdf");
            assert_eq!(index, Some(1));
        }
        _ => panic!("expected a page to write"),
    }
    match get_page(&strings(&["0"]), 3, "d.pdf") {
        GetPagePlan::Write { file, index } => {
            assert_eq!(file, "Page_0_d.pdf");
            assert_eq!(index, None);
        }
        _ => panic!("expected a page to write"),
    }
}

#[test]
fn single_pages_and_swaps() {
    assert_eq!(single_page_deletions(4, 2), vec![1, 3, 4]);
    assert_eq!(single_page_deletions(1, 1), Vec::<u32>::new());
    assert_eq!(swapped_order(4, 0, 2), vec![2, 1, 0, 3]);
    assert_eq!(swapped_order(3, 1, 1), vec![0, 1, 2]);
}

#[test]
fn swapping_twice_restores_the_order() {
    let once = swapped_order(5, 1, 4);
    let twice: Vec<usize> = (0..5).map(|i| once[once[i]]).collect();
    assert_eq!(twice, vec![0, 1, 2, 3, 4]);
}

#[test]
fn reorganize_plans() {
    assert!(matches!(reorganize(&strings(&["1", "2"]), 3, "d.pdf"), ReorganizePlan::Nothing));
    assert!(matches!(reorganize(&strings(&["-s"]), 3, "d.pdf"), ReorganizePlan::Nothing));
    assert!(matches!(reorganize(&strings(&["-s", "1"]), 3, "d.pdf"), ReorganizePlan::Usage));
    match reorganize(&strings(&["-s", "1", "3"]), 3, "d.pdf") {
        ReorganizePlan::Swap { deletions, temp_files, order, output } => {
            assert_eq!(deletions, vec![vec![2, 3], vec![1, 3], vec![1, 2]]);
            assert_eq!(temp_files, strings(&["tmp_1_d.pdf", "tmp_2_d.pdf", "tmp_3_d.pdf"]));
            assert_eq!(order, vec![2, 1, 0]);
            assert_eq!(output, "swapped_d.pdf");
        }
        _ => panic!("expected a swap"),
    }
    match reorganize(&strings(&["-s", "2", "2"]), 3, "d.pdf") {
        ReorganizePlan::Swap { order, .. } => assert_eq!(order, vec![0, 1, 2]),
        _ => panic!("expected a swap"),
    }
}

#[test]
fn split_plans() {
    let plan = split(&strings(&["-o", "out"]), 2).ok().unwrap();
    assert_eq!(plan.page_files, strings(&["page_1.pdf", "page_2.pdf"]));
    assert_eq!(plan.archive, "out.zip");
    assert!(split(&strings(&["-o"]), 2).is_err());
}

#[test]
fn single_page_plans() {
    assert_eq!(single_page_plan(4, 2), Some(vec![1, 3, 4]));
    assert_eq!(single_page_plan(4, 0), None);
    assert_eq!(single_page_plan(4, 5), None);
    assert_eq!(single_page_plan(1, 1), Some(vec![]));
}

#[test]
fn archive_entries() {
    assert_eq!(archive_entry(1, "doc", "/usr/share/yapm/tmp/doc_page_1.pdf"), "doc_page_1.pdf");
    assert_eq!(archive_entry(2, "doc", "/usr/share/yapm/tmp/doc_page_1.pdf"), "doc/doc_page_1.pdf");
    assert_eq!(archive_entry(0, "doc", "plain.pdf"), "plain.pdf");
}
