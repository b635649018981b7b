use yapm::args::{merge_arguments, split_archive_name, take_document_argument};
use yapm::command::{cli_handler, command_of, compress_help, del_help, help, Command};
use yapm::number::{parse_i32, parse_usize};

fn strings(items: &[&str]) -> Vec<String> {
    items.iter().map(|s| s.to_string()).collect()
}

#[test]
fn commands_and_their_aliases() {
    assert_eq!(command_of("merge"), Command::Merge);
    assert_eq!(command_of("m"), Command::Merge);
    assert_eq!(command_of("?"), Command::Help);
    assert_eq!(command_of("compress"), Command::Compress);
    assert_eq!(command_of("g"), Command::Get);
    assert_eq!(command_of("del"), Command::Delete);
    assert_eq!(command_of("d"), Command::Delete);
    assert_eq!(command_of("s"), Command::Split);
    assert_eq!(command_of("app"), Command::App);
    assert_eq!(command_of("swap"), Command::Reorganize);
    assert_eq!(command_of("ro"), Command::Reorganize);
    assert_eq!(command_of("Merge"), Command::Unknown);
    assert_eq!(command_of(""), Command::Unknown);
}

#[test]
fn handler_reads_the_first_argument() {
    assert_eq!(cli_handler(&strings(&["reorg", "-s", "1", "2"])), Command::Reorganize);
    assert_eq!(cli_handler(&strings(&["app"])), Command::App);
}

#[test]
fn help_without_topic_lists_every_command() {
    let lines = help(&strings(&["help"]));
    let names: Vec<String> = lines.iter().map(|m| m.highlighted.clone()).collect();
    assert_eq!(names, strings(&["compress", "merge", "get", "delete", "split"]));
    assert_eq!(lines[0].before, "- ");
    assert_eq!(lines[0].after, " : compress the given pdf file");
    assert_eq!(lines[3].after, " : del the n page of the given pdf file");
}

#[test]
fn help_with_topic_gives_full_text() {
    let lines = help(&strings(&["help", "split"]));
    assert_eq!(lines.len(), 1);
    assert_eq!(lines[0].highlighted, "split");
    assert_eq!(
        lines[0].after,
        " : split the given pdf file into a zip of the pages\n\t[USAGE] yapm split <pdf file>\n\t\tPotential options: -o output name"
    );
    let full = compress_help(true);
    assert_eq!(
        full.after,
        " : compress the given pdf file (Do not expect a good compression)\n\t[USAGE] yapm compress <pdf file>"
    );
    assert_eq!(del_help(false).highlighted, "delete");
}

#[test]
fn help_with_unknown_or_too_many_topics() {
    let unknown = help(&strings(&["help", "rotate"]));
    assert_eq!(unknown[0].before, "The given command was not recognize.\n[USAGE] yapm ");
    assert_eq!(unknown[0].highlighted, "help");
    assert_eq!(unknown[0].after, " (<cmd>)");
    let many = help(&strings(&["help", "merge", "split"]));
    assert_eq!(many[0].before, "Too many arguments for help\n[USAGE] yapm ");
}

#[test]
fn merge_arguments_in_order_with_output_option() {
    let parsed = merge_arguments(&strings(&["merge", "a.pdf", "-o", "out.pdf", "b.pdf"]));
    assert_eq!(parsed.output, "out.pdf");
    assert_eq!(parsed.inputs, strings(&["a.pdf", "b.pdf"]));
    assert!(!parsed.dangling_option);
}

#[test]
fn merge_arguments_default_name_and_last_option_wins() {
    let parsed = merge_arguments(&strings(&["m", "a.pdf", "b.pdf"]));
    assert_eq!(parsed.output, "merged_documents.pdf");
    assert_eq!(parsed.inputs.len(), 2);
    let twice = merge_arguments(&strings(&["m", "-o", "x.pdf", "a.pdf", "-o", "y.pdf"]));
    assert_eq!(twice.output, "y.pdf");
    assert_eq!(twice.inputs, strings(&["a.pdf"]));
}

#[test]
fn merge_arguments_with_dangling_option() {
    let parsed = merge_arguments(&strings(&["merge", "a.pdf", "-o"]));
    assert!(parsed.dangling_option);
    assert_eq!(parsed.inputs, strings(&["a.pdf"]));
}

#[test]
fn split_archive_names() {
    assert_eq!(split_archive_name(&strings(&[])).unwrap(), "splitted_document.zip");
    assert_eq!(split_archive_name(&strings(&["-o", "pages"])).unwrap(), "pages.zip");
    assert_eq!(split_archive_name(&strings(&["-o", "pages.zip"])).unwrap(), "pages.zip");
    assert_eq!(split_archive_name(&strings(&["-o", "a", "-o", "b.zip.old"])).unwrap(), "b.zip.old");
    assert!(split_archive_name(&strings(&["-o", "a", "-o"])).is_err());
    assert!(split_archive_name(&strings(&["-o"])).is_err());
}

#[test]
fn document_argument_is_the_last_pdf() {
    let mut args = strings(&["get", "a.pdf", "3", "b.pdf"]);
    let found = take_document_argument(&mut args);
    assert_eq!(found.name, "b.pdf");
    assert_eq!(found.argument, "b.pdf");
    assert_eq!(args, strings(&["a.pdf", "3"]));
}

#[test]
fn document_argument_without_pdf_takes_the_first() {
    let mut args = strings(&["del", "3", "4"]);
    let found = take_document_argument(&mut args);
    assert_eq!(found.name, "");
    assert_eq!(found.argument, "3");
    assert_eq!(args, strings(&["4"]));
}

#[test]
fn numbers_read_like_std() {
    for text in ["0", "7", "+7", "-7", "007", "2147483647", "-2147483648", "", "+", "-", "1a", " 1", "2147483648", "-2147483649"] {
        assert_eq!(parse_i32(text), text.parse::<i32>().ok(), "{text}");
        assert_eq!(parse_usize(text), text.parse::<usize>().ok(), "{text}");
    }
    assert_eq!(parse_usize("18446744073709551615"), "18446744073709551615".parse::<usize>().ok());
    assert_eq!(parse_usize("18446744073709551616"), None);
}
