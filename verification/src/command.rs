//! The commands of the program and its help texts.

use vstd::prelude::*;
use vstd::string::*;
use crate::text::same_text;

verus! {

/// A command of the program, as named by its first argument.
#[derive(Clone, Copy, Debug, PartialEq, Eq, Structural)]
pub enum Command {
    /// `merge`, `m`: merge documents.
    Merge,
    /// `help`, `h`, `?`: print help.
    Help,
    /// `compress`: compress a document.
    Compress,
    /// `get`, `g`: extract a page.
    Get,
    /// `delete`, `del`, `d`: delete pages.
    Delete,
    /// `split`, `s`: split a document into its pages.
    Split,
    /// `app`: start the window application.
    App,
    /// `reorganize`, `swap`, `sw`, `reorg`, `ro`: reorder pages.
    Reorganize,
    /// Any other word.
    Unknown,
}

/// The command a word names.
pub open spec fn command_named(w: Seq<char>) -> Command {
    if w == "merge"@ || w == "m"@ {
        Command::Merge
    } else if w == "help"@ || w == "h"@ || w == "?"@ {
        Command::Help
    } else if w == "compress"@ {
        Command::Compress
    } else if w == "get"@ || w == "g"@ {
        Command::Get
    } else if w == "delete"@ || w == "del"@ || w == "d"@ {
        Command::Delete
    } else if w == "split"@ || w == "s"@ {
        Command::Split
    } else if w == "app"@ {
        Command::App
    } else if w == "reorganize"@ || w == "swap"@ || w == "sw"@ || w == "reorg"@ || w == "ro"@ {
        Command::Reorganize
    } else {
        Command::Unknown
    }
}

/// The command named by `word`, the first argument of the program.
pub fn command_of(word: &str) -> (c: Command)
    ensures
        c == command_named(word@),
{
    if same_text(word, "merge") || same_text(word, "m") {
        Command::Merge
    } else if same_text(word, "help") || same_text(word, "h") || same_text(word, "?") {
        Command::Help
    } else if same_text(word, "compress") {
        Command::Compress
    } else if same_text(word, "get") || same_text(word, "g") {
        Command::Get
    } else if same_text(word, "delete") || same_text(word, "del") || same_text(word, "d") {
        Command::Delete
    } else if same_text(word, "split") || same_text(word, "s") {
        Command::Split
    } else if same_text(word, "app") {
        Command::App
    } else if same_text(word, "reorganize") || same_text(word, "swap") || same_text(word, "sw")
        || same_text(word, "reorg") || same_text(word, "ro") {
        Command::Reorganize
    } else {
        Command::Unknown
    }
}

/// The dispatch of the program's arguments: the command named by the first
/// one. The program passes at least one argument (`app` when it was given
/// none).
pub fn cli_handler(args: &Vec<String>) -> (c: Command)
    requires
        args@.len() > 0,
    ensures
        c == command_named(args@[0]@),
{
    command_of(args[0].as_str())
}

/// Every word the program takes for a command names that command: `merge`
/// and `m` merge; `help`, `h` and `?` print help; `compress` compresses;
/// `get` and `g` get a page; `delete`, `del` and `d` delete pages; `split`
/// and `s` split; `app` starts the window application; `reorganize`,
/// `swap`, `sw`, `reorg` and `ro` reorder pages.
pub proof fn lemma_command_words()
    ensures
        command_named("merge"@) == Command::Merge,
        command_named("m"@) == Command::Merge,
        command_named("help"@) == Command::Help,
        command_named("h"@) == Command::Help,
        command_named("?"@) == Command::Help,
        command_named("compress"@) == Command::Compress,
        command_named("get"@) == Command::Get,
        command_named("g"@) == Command::Get,
        command_named("delete"@) == Command::Delete,
        command_named("del"@) == Command::Delete,
        command_named("d"@) == Command::Delete,
        command_named("split"@) == Command::Split,
        command_named("s"@) == Command::Split,
        command_named("app"@) == Command::App,
        command_named("reorganize"@) == Command::Reorganize,
        command_named("swap"@) == Command::Reorganize,
        command_named("sw"@) == Command::Reorganize,
        command_named("reorg"@) == Command::Reorganize,
        command_named("ro"@) == Command::Reorganize,
{
    reveal_strlit("merge");
    reveal_strlit("m");
    reveal_strlit("help");
    reveal_strlit("h");
    reveal_strlit("?");
    reveal_strlit("compress");
    reveal_strlit("get");
    reveal_strlit("g");
    reveal_strlit("delete");
    reveal_strlit("del");
    reveal_strlit("d");
    reveal_strlit("split");
    reveal_strlit("s");
    reveal_strlit("app");
    reveal_strlit("reorganize");
    reveal_strlit("swap");
    reveal_strlit("sw");
    reveal_strlit("reorg");
    reveal_strlit("ro");
    assert("merge"@[0] == 'm' && "merge"@.len() == 5);
    assert("m"@[0] == 'm' && "m"@.len() == 1);
    assert("help"@[0] == 'h' && "help"@.len() == 4);
    assert("h"@[0] == 'h' && "h"@.len() == 1);
    assert("?"@[0] == '?' && "?"@.len() == 1);
    assert("compress"@[0] == 'c' && "compress"@.len() == 8);
    assert("get"@[0] == 'g' && "get"@.len() == 3);
    assert("g"@[0] == 'g' && "g"@.len() == 1);
    assert("delete"@[0] == 'd' && "delete"@.len() == 6);
    assert("del"@[0] == 'd' && "del"@.len() == 3);
    assert("d"@[0] == 'd' && "d"@.len() == 1);
    assert("split"@[0] == 's' && "split"@.len() == 5);
    assert("s"@[0] == 's' && "s"@.len() == 1);
    assert("app"@[0] == 'a' && "app"@.len() == 3);
    assert("reorganize"@[0] == 'r' && "reorganize"@.len() == 10);
    assert("swap"@[0] == 's' && "swap"@.len() == 4);
    assert("sw"@[0] == 's' && "sw"@.len() == 2);
    assert("reorg"@[0] == 'r' && "reorg"@.len() == 5);
    assert("ro"@[0] == 'r' && "ro"@.len() == 2);
    assert("merge"@[1] == 'e');
    assert("help"@[1] == 'e');
    assert("compress"@[1] == 'o');
    assert("get"@[1] == 'e');
    assert("delete"@[1] == 'e');
    assert("del"@[1] == 'e');
    assert("split"@[1] == 'p');
    assert("app"@[1] == 'p');
    assert("reorganize"@[1] == 'e');
    assert("swap"@[1] == 'w');
    assert("sw"@[1] == 'w');
    assert("reorg"@[1] == 'e');
    assert("ro"@[1] == 'o');
}

/// A word names a command exactly when it is one of the command words;
/// any other word is unknown.
pub proof fn lemma_unknown_words(w: Seq<char>)
    ensures
        command_named(w) == Command::Unknown <==> !(w == "merge"@ || w == "m"@ || w == "help"@ || w == "h"@ || w == "?"@ || w == "compress"@ || w == "get"@ || w == "g"@ || w == "delete"@ || w == "del"@ || w == "d"@ || w == "split"@ || w == "s"@ || w == "app"@ || w == "reorganize"@ || w == "swap"@ || w == "sw"@ || w == "reorg"@ || w == "ro"@),
{
    lemma_command_words();
}

/// A line of text with one highlighted word: `before`, then `highlighted`,
/// then `after`.
pub struct Message {
    /// The text before the highlighted word.
    pub before: String,
    /// The highlighted word.
    pub highlighted: String,
    /// The text after the highlighted word.
    pub after: String,
}

/// The message with these three parts.
pub open spec fn message_is(m: Message, before: Seq<char>, highlighted: Seq<char>, after: Seq<char>) -> bool {
    m.before@ == before && m.highlighted@ == highlighted && m.after@ == after
}

/// The text after the command's name in its help line, in full or short.
pub open spec fn help_text(command: Seq<char>, full: bool) -> Seq<char> {
    if command == "compress"@ {
        if full {
            " : compress the given pdf file (Do not expect a good compression)\n\t[USAGE] yapm compress <pdf file>"@
        } else {
            " : compress the given pdf file"@
        }
    } else if command == "merge"@ {
        if full {
            " : merge the given pdf file in the order you submitted them\n\t[USAGE] yapm merge <pdffile1> ... <pdffileN>\n\t\tPotential options: -o output name"@
        } else {
            " : merge the given pdf files"@
        }
    } else if command == "get"@ {
        if full {
            " : get the n page of the given pdf file\n\t[USAGE] yapm get <pdf file> <page>"@
        } else {
            " : get the n page of the given pdf file"@
        }
    } else if command == "delete"@ {
        if full {
            " : del the n page of the given pdf file\n\t[USAGE] yapm del <pdf file> <page number 1> .. <page number n>"@
        } else {
            " : del the n page of the given pdf file"@
        }
    } else {
        if full {
            " : split the given pdf file into a zip of the pages\n\t[USAGE] yapm split <pdf file>\n\t\tPotential options: -o output name"@
        } else {
            " : split the given pdf file into a zip of the pages"@
        }
    }
}

/// The words of the commands that have help, in the order of the short help.
pub open spec fn help_topic(w: Seq<char>) -> bool {
    w == "compress"@ || w == "merge"@ || w == "get"@ || w == "delete"@ || w == "split"@
}

proof fn lemma_topics_distinct()
    ensures
        "compress"@ != "merge"@,
        "compress"@ != "get"@,
        "compress"@ != "delete"@,
        "compress"@ != "split"@,
        "merge"@ != "get"@,
        "merge"@ != "delete"@,
        "merge"@ != "split"@,
        "get"@ != "delete"@,
        "get"@ != "split"@,
        "delete"@ != "split"@,
{
    reveal_strlit("compress");
    reveal_strlit("merge");
    reveal_strlit("get");
    reveal_strlit("delete");
    reveal_strlit("split");
    assert("compress"@[0] == 'c');
    assert("merge"@[0] == 'm');
    assert("get"@[0] == 'g');
    assert("delete"@[0] == 'd');
    assert("split"@[0] == 's');
}

fn message(before: &str, highlighted: &str, after: &str) -> (m: Message)
    ensures
        message_is(m, before@, highlighted@, after@),
{
    Message {
        before: String::from_str(before),
        highlighted: String::from_str(highlighted),
        after: String::from_str(after),
    }
}

/// The help line of `compress`, in full or short.
pub fn compress_help(full: bool) -> (m: Message)
    ensures
        message_is(m, "- "@, "compress"@, help_text("compress"@, full)),
{
    proof {
        lemma_topics_distinct();
    }
    if full {
        message("- ", "compress", " : compress the given pdf file (Do not expect a good compression)\n\t[USAGE] yapm compress <pdf file>")
    } else {
        message("- ", "compress", " : compress the given pdf file")
    }
}

/// The help line of `merge`, in full or short.
pub fn merge_help(full: bool) -> (m: Message)
    ensures
        message_is(m, "- "@, "merge"@, help_text("merge"@, full)),
{
    proof {
        lemma_topics_distinct();
    }
    if full {
        message("- ", "merge", " : merge the given pdf file in the order you submitted them\n\t[USAGE] yapm merge <pdffile1> ... <pdffileN>\n\t\tPotential options: -o output name")
    } else {
        message("- ", "merge", " : merge the given pdf files")
    }
}

/// The help line of `get`, in full or short.
pub fn get_help(full: bool) -> (m: Message)
    ensures
        message_is(m, "- "@, "get"@, help_text("get"@, full)),
{
    proof {
        lemma_topics_distinct();
    }
    if full {
        message("- ", "get", " : get the n page of the given pdf file\n\t[USAGE] yapm get <pdf file> <page>")
    } else {
        message("- ", "get", " : get the n page of the given pdf file")
    }
}

/// The help line of `delete`, in full or short.
pub fn del_help(full: bool) -> (m: Message)
    ensures
        message_is(m, "- "@, "delete"@, help_text("delete"@, full)),
{
    proof {
        lemma_topics_distinct();
    }
    if full {
        message("- ", "delete", " : del the n page of the given pdf file\n\t[USAGE] yapm del <pdf file> <page number 1> .. <page number n>")
    } else {
        message("- ", "delete", " : del the n page of the given pdf file")
    }
}

/// The help line of `split`, in full or short.
pub fn split_help(full: bool) -> (m: Message)
    ensures
        message_is(m, "- "@, "split"@, help_text("split"@, full)),
{
    proof {
        lemma_topics_distinct();
    }
    if full {
        message("- ", "split", " : split the given pdf file into a zip of the pages\n\t[USAGE] yapm split <pdf file>\n\t\tPotential options: -o output name")
    } else {
        message("- ", "split", " : split the given pdf file into a zip of the pages")
    }
}

/// The reply to `help` asked with a topic that has no help.
pub open spec fn unknown_topic_reply(m: Message) -> bool {
    message_is(m, "The given command was not recognize.\n[USAGE] yapm "@, "help"@, " (<cmd>)"@)
}

/// The reply to `help` asked with more than one topic.
pub open spec fn too_many_topics_reply(m: Message) -> bool {
    message_is(m, "Too many arguments for help\n[USAGE] yapm "@, "help"@, " (<cmd>)"@)
}

/// The lines `help` prints, given the program's arguments (the first being
/// `help` itself): the short help of every command when there is no topic,
/// the full help of the topic when there is one that has help, and a usage
/// reminder otherwise.
pub fn help(args: &Vec<String>) -> (r: Vec<Message>)
    ensures
        args@.len() == 1 ==> {
            &&& r@.len() == 5
            &&& message_is(r@[0], "- "@, "compress"@, help_text("compress"@, false))
            &&& message_is(r@[1], "- "@, "merge"@, help_text("merge"@, false))
            &&& message_is(r@[2], "- "@, "get"@, help_text("get"@, false))
            &&& message_is(r@[3], "- "@, "delete"@, help_text("delete"@, false))
            &&& message_is(r@[4], "- "@, "split"@, help_text("split"@, false))
        },
        args@.len() == 2 && help_topic(args@[1]@) ==> r@.len() == 1 && message_is(
            r@[0],
            "- "@,
            args@[1]@,
            help_text(args@[1]@, true),
        ),
        args@.len() == 2 && !help_topic(args@[1]@) ==> r@.len() == 1 && unknown_topic_reply(r@[0]),
        args@.len() != 1 && args@.len() != 2 ==> r@.len() == 1 && too_many_topics_reply(r@[0]),
{
    proof {
        lemma_topics_distinct();
    }
    let mut r: Vec<Message> = Vec::new();
    if args.len() == 1 {
        r.push(compress_help(false));
        r.push(merge_help(false));
        r.push(get_help(false));
        r.push(del_help(false));
        r.push(split_help(false));
    } else if args.len() == 2 {
        let topic = args[1].as_str();
        if same_text(topic, "compress") {
            r.push(compress_help(true));
        } else if same_text(topic, "merge") {
            r.push(merge_help(true));
        } else if same_text(topic, "get") {
            r.push(get_help(true));
        } else if same_text(topic, "delete") {
            r.push(del_help(true));
        } else if same_text(topic, "split") {
            r.push(split_help(true));
        } else {
            r.push(message("The given command was not recognize.\n[USAGE] yapm ", "help", " (<cmd>)"));
        }
    } else {
        r.push(message("Too many arguments for help\n[USAGE] yapm ", "help", " (<cmd>)"));
    }
    r
}

} // verus!
