use yapm::saving::{accept_state, check_message, check_path, checked_folder, save_folder, save_target, PathCheck};
use yapm::ui::{count, get_widget, is_pdf_path, modified_path, move_row, source_path, takes_document, theme_toggle, unticked_pages, viewer_click, ClickZone, Panel};

#[test]
fn tiles_open_panels() {
    assert_eq!(get_widget("Merge"), Panel::Merge);
    assert_eq!(get_widget("Get page"), Panel::GetPage);
    assert_eq!(get_widget("Delete pages"), Panel::DeletePages);
    assert_eq!(get_widget("Rotate"), Panel::Empty);
}

#[test]
fn theme_button_toggles() {
    let (night, name) = theme_toggle("button").unwrap();
    assert!(night);
    assert_eq!(name, "nbutton");
    let (night, name) = theme_toggle("nbutton").unwrap();
    assert!(!night);
    assert_eq!(name, "button");
    assert!(theme_toggle("other").is_none());
}

#[test]
fn save_folder_of_typed_paths() {
    assert_eq!(save_folder("/home/me/out.pdf").unwrap(), "/home/me");
    assert_eq!(save_folder("/out.pdf").unwrap(), "/");
    assert_eq!(save_folder("out.pdf").unwrap(), "/");
    assert!(save_folder("/home/\nme/out.pdf").is_none());
}

#[test]
fn save_targets() {
    assert_eq!(save_target("/home/me/out", "/home/me", ".pdf", "merged.pdf", true, false, false).unwrap(), "/home/me/out.pdf");
    assert_eq!(save_target("/home/me/out.pdf", "/home/me", ".pdf", "merged.pdf", true, false, false).unwrap(), "/home/me/out.pdf");
    assert_eq!(save_target("/out", "/", ".zip", "zipped_doc.zip", true, false, false).unwrap(), "/out.zip");
    assert_eq!(save_target("/home/me/dir", "/home/me", ".pdf", "merged.pdf", true, true, true).unwrap(), "/home/me/dir/merged.pdf");
    assert!(save_target("home/out", "home", ".pdf", "merged.pdf", true, true, false).is_none());
    assert!(save_target("/home/me/", "/home/me", ".pdf", "merged.pdf", true, true, true).is_none());
    assert!(save_target("/nowhere/out", "/nowhere", ".pdf", "merged.pdf", false, false, false).is_none());
}

#[test]
fn path_checker() {
    assert_eq!(checked_folder("/home/me/out.pdf"), "/home/me");
    assert_eq!(checked_folder("/out.pdf"), "/");
    assert_eq!(checked_folder("home/out.pdf"), "home");
    assert_eq!(check_path("home/out.pdf", "home", ".pdf", true, true), PathCheck::AbsolutePathNeeded);
    assert_eq!(check_path("/x/out.pdf", "/x", ".pdf", false, false), PathCheck::FolderMissing);
    assert_eq!(check_path("/x/out.pdf", "/x", ".pdf", true, false), PathCheck::FolderNeeded);
    assert_eq!(check_path("/x/out", "/x", ".pdf", true, true), PathCheck::ExtensionNeeded);
    assert_eq!(check_path("/out.pdf", "/", ".pdf", true, false), PathCheck::Fine);
    assert_eq!(accept_state(PathCheck::FolderMissing), Some(false));
    assert_eq!(accept_state(PathCheck::ExtensionNeeded), Some(true));
    assert_eq!(accept_state(PathCheck::Fine), None);
    assert_eq!(check_message(PathCheck::ExtensionNeeded, ".zip"), "A <span foreground=\"red\"> .zip extension</span> is needed");
    assert_eq!(check_message(PathCheck::Fine, ".zip"), "");
}

#[test]
fn row_counting() {
    assert_eq!(count(&vec![7, 8, 9], 8), (2, 1));
    assert_eq!(count(&vec![7, 8, 9], 5), (2, 0));
    assert_eq!(count(&vec![], 5), (-1, 0));
}

#[test]
fn moving_rows() {
    let mut rows = vec!['a', 'b', 'c'];
    assert_eq!(move_row(&mut rows, 2, true), 1);
    assert_eq!(rows, vec!['a', 'c', 'b']);
    assert_eq!(move_row(&mut rows, 1, false), 2);
    assert_eq!(rows, vec!['a', 'b', 'c']);
    assert_eq!(move_row(&mut rows, 0, true), 0);
    assert_eq!(move_row(&mut rows, 2, false), 2);
    assert_eq!(rows, vec!['a', 'b', 'c']);
}

#[test]
fn page_viewer_clicks() {
    assert_eq!(viewer_click(1, 3, ClickZone::Right), (2, false));
    assert_eq!(viewer_click(3, 3, ClickZone::Right), (3, false));
    assert_eq!(viewer_click(2, 3, ClickZone::Left), (1, false));
    assert_eq!(viewer_click(1, 3, ClickZone::Left), (1, false));
    assert_eq!(viewer_click(2, 3, ClickZone::Top), (2, true));
    assert_eq!(viewer_click(2, 3, ClickZone::Middle), (2, false));
}

#[test]
fn chosen_files() {
    assert!(takes_document("/home/me/a.pdf"));
    assert!(takes_document("/home/me/a.pdf.bak"));
    assert!(!takes_document("/home/x.pdf/notes.txt"));
    assert!(is_pdf_path("/home/me/a.pdf"));
    assert!(!is_pdf_path("/home/me/a.pdf.bak"));
}

#[test]
fn extraction_paths() {
    assert_eq!(modified_path("/d/a.pdf"), "/d/a_modified.pdf");
    assert_eq!(modified_path("/d.pdf/a.pdf"), "/d_modified.pdf/a.pdf");
    assert_eq!(source_path("/d/a_modified.pdf"), "/d/a.pdf");
}

#[test]
fn unticked_page_list() {
    let rows = vec![("1".to_string(), false), ("2".to_string(), true), ("3".to_string(), false)];
    assert_eq!(unticked_pages(&rows), "3 1");
    assert_eq!(unticked_pages(&vec![("1".to_string(), true)]), "");
    assert_eq!(unticked_pages(&vec![]), "");
}
