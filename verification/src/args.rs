//! Reading the command line: which arguments are inputs, options and
//! values.

use vstd::prelude::*;
use vstd::string::*;
use crate::text::{chars_of, concat, contains, has_infix, same_text, string_of};

verus! {

/// The texts of a vector of strings.
pub open spec fn texts(v: Seq<String>) -> Seq<Seq<char>> {
    v.map_values(|a: String| a@)
}

/// How the arguments of `merge` read, from the front: the output name given
/// by the last `-o` option, the inputs in order, and whether an `-o` came
/// last with no name after it (the inputs are then those before it).
pub open spec fn merge_scan(rest: Seq<Seq<char>>) -> (Option<Seq<char>>, Seq<Seq<char>>, bool)
    decreases rest.len(),
{
    if rest.len() == 0 {
        (None, Seq::empty(), false)
    } else if rest[0] == "-o"@ {
        if rest.len() == 1 {
            (None, Seq::empty(), true)
        } else {
            let t = merge_scan(rest.subrange(2, rest.len() as int));
            (if t.0 is Some {
                t.0
            } else {
                Some(rest[1])
            }, t.1, t.2)
        }
    } else {
        let t = merge_scan(rest.subrange(1, rest.len() as int));
        (t.0, seq![rest[0]] + t.1, t.2)
    }
}

/// `s` can be read off `t` from left to right: its items are items of `t`,
/// in the same order (some items of `t` may be passed over).
pub open spec fn in_order_within(s: Seq<Seq<char>>, t: Seq<Seq<char>>) -> bool
    decreases t.len(),
{
    if s.len() == 0 {
        true
    } else if t.len() == 0 {
        false
    } else if s[0] == t[0] && in_order_within(s.drop_first(), t.drop_first()) {
        true
    } else {
        in_order_within(s, t.drop_first())
    }
}

/// How the arguments of `merge` read: with no `-o` among them, every one is
/// a document to merge, in the order given, and no name is set; in any
/// case the documents to merge are arguments in the order given (none is
/// `-o`), so no document is moved before one given earlier.
pub proof fn lemma_merge_inputs_in_order(rest: Seq<Seq<char>>)
    ensures
        (forall|k: int| 0 <= k < rest.len() ==> rest[k] != "-o"@) ==> merge_scan(rest).0 is None
            && merge_scan(rest).1 == rest && !merge_scan(rest).2,
        in_order_within(merge_scan(rest).1, rest),
        forall|k: int| 0 <= k < merge_scan(rest).1.len() ==> merge_scan(rest).1[k] != "-o"@,
    decreases rest.len(),
{
    if rest.len() == 0 {
    } else if rest[0] == "-o"@ {
        if rest.len() > 1 {
            let tail = rest.subrange(2, rest.len() as int);
            lemma_merge_inputs_in_order(tail);
            assert(rest.subrange(1, rest.len() as int).drop_first() =~= tail);
            lemma_in_order_drop(merge_scan(tail).1, rest.subrange(1, rest.len() as int));
            lemma_in_order_drop(merge_scan(tail).1, rest);
            assert(rest.drop_first() =~= rest.subrange(1, rest.len() as int));
        }
    } else {
        let tail = rest.subrange(1, rest.len() as int);
        lemma_merge_inputs_in_order(tail);
        let s = merge_scan(rest).1;
        assert(s =~= seq![rest[0]] + merge_scan(tail).1);
        assert(s.drop_first() =~= merge_scan(tail).1);
        assert(rest.drop_first() =~= tail);
        if forall|k: int| 0 <= k < rest.len() ==> rest[k] != "-o"@ {
            assert forall|k: int| 0 <= k < tail.len() implies tail[k] != "-o"@ by {
                assert(tail[k] == rest[k + 1]);
            }
            assert(seq![rest[0]] + tail =~= rest);
        }
        assert forall|k: int| 0 <= k < s.len() implies s[k] != "-o"@ by {
            if k > 0 {
                assert(s[k] == merge_scan(tail).1[k - 1]);
            }
        }
    }
}

/// What can be read off `t` without its first item can be read off `t`.
proof fn lemma_in_order_drop(s: Seq<Seq<char>>, t: Seq<Seq<char>>)
    requires
        t.len() > 0,
        in_order_within(s, t.drop_first()),
    ensures
        in_order_within(s, t),
{
}

/// The arguments of `merge`.
pub struct MergeArguments {
    /// The name of the merged document.
    pub output: String,
    /// The documents to merge, in order.
    pub inputs: Vec<String>,
    /// An `-o` option came last, with no name after it.
    pub dangling_option: bool,
}

fn merge_scan_from(args: &Vec<String>, i: usize) -> (r: (Option<String>, Vec<String>, bool))
    requires
        i <= args.len(),
    ensures
        ({
            let t = merge_scan(texts(args@).subrange(i as int, args@.len() as int));
            &&& (r.0 is Some <==> t.0 is Some)
            &&& (r.0 is Some ==> r.0->0@ == t.0->0)
            &&& texts(r.1@) == t.1
            &&& r.2 == t.2
        }),
    decreases args.len() - i,
{
    let ghost rest = texts(args@).subrange(i as int, args@.len() as int);
    if i == args.len() {
        return (None, Vec::new(), false);
    }
    assert(rest[0] == args@[i as int]@);
    if same_text(args[i].as_str(), "-o") {
        if i + 1 == args.len() {
            return (None, Vec::new(), true);
        }
        assert(rest.subrange(2, rest.len() as int) =~= texts(args@).subrange(i + 2, args@.len() as int));
        assert(rest[1] == args@[i + 1]@);
        let (name, inputs, dangling) = merge_scan_from(args, i + 2);
        match name {
            Some(n) => (Some(n), inputs, dangling),
            None => (Some(args[i + 1].clone()), inputs, dangling),
        }
    } else {
        assert(rest.subrange(1, rest.len() as int) =~= texts(args@).subrange(i + 1, args@.len() as int));
        let (name, inputs, dangling) = merge_scan_from(args, i + 1);
        let mut all: Vec<String> = Vec::new();
        all.push(args[i].clone());
        let ghost tail = inputs@;
        let mut k: usize = 0;
        while k < inputs.len()
            invariant
                k <= inputs.len(),
                i < args@.len(),
                texts(all@) == seq![args@[i as int]@] + texts(inputs@.subrange(0, k as int)),
            decreases inputs.len() - k,
        {
            let ghost before = all@;
            let item = inputs[k].clone();
            assert(item@ == inputs@[k as int]@);
            all.push(item);
            assert(texts(all@) =~= texts(before).push(inputs@[k as int]@));
            assert(texts(inputs@.subrange(0, k + 1)) =~= texts(inputs@.subrange(0, k as int)).push(inputs@[k as int]@));
            k = k + 1;
            assert(texts(all@) =~= seq![args@[i as int]@] + texts(inputs@.subrange(0, k as int)));
        }
        assert(inputs@.subrange(0, inputs@.len() as int) =~= inputs@);
        (name, all, dangling)
    }
}

/// The arguments of `merge` after the command.
pub open spec fn merge_rest(args: Seq<String>) -> Seq<Seq<char>> {
    if args.len() == 0 {
        Seq::empty()
    } else {
        texts(args).subrange(1, args.len() as int)
    }
}

/// Reads the arguments of `merge` (the first argument being the command):
/// `-o <name>` names the merged document (the last such option wins;
/// `merged_documents.pdf` when there is none) and every other argument is a
/// document to merge, in order.
pub fn merge_arguments(args: &Vec<String>) -> (r: MergeArguments)
    ensures
        ({
            let t = merge_scan(texts(args@).subrange(if args@.len() == 0 { 0 } else { 1 }, args@.len() as int));
            &&& r.output@ == (if t.0 is Some {
                t.0->0
            } else {
                "merged_documents.pdf"@
            })
            &&& texts(r.inputs@) == t.1
            &&& r.dangling_option == t.2
        }),
        ({
            let rest = merge_rest(args@);
            &&& in_order_within(texts(r.inputs@), rest)
            &&& (forall|k: int| 0 <= k < rest.len() ==> rest[k] != "-o"@) ==> texts(r.inputs@) == rest
                && r.output@ == "merged_documents.pdf"@
        }),
{
    let start: usize = if args.len() == 0 { 0 } else { 1 };
    let ghost rest = texts(args@).subrange(start as int, args@.len() as int);
    assert(rest =~= merge_rest(args@));
    proof {
        lemma_merge_inputs_in_order(rest);
    }
    let (name, inputs, dangling) = merge_scan_from(args, start);
    let output = match name {
        Some(n) => n,
        None => String::from_str("merged_documents.pdf"),
    };
    let r = MergeArguments { output, inputs, dangling_option: dangling };
    assert(texts(r.inputs@) == merge_scan(rest).1);
    r
}

/// Position of the last `-o` among `args`, or -1.
pub open spec fn last_option_index(args: Seq<Seq<char>>) -> int
    decreases args.len(),
{
    if args.len() == 0 {
        -1
    } else if args.last() == "-o"@ {
        args.len() - 1
    } else {
        last_option_index(args.drop_last())
    }
}

proof fn lemma_last_option_index(args: Seq<Seq<char>>)
    ensures
        -1 <= last_option_index(args) < args.len(),
        last_option_index(args) >= 0 ==> args[last_option_index(args)] == "-o"@,
        forall|i: int| last_option_index(args) < i < args.len() ==> args[i] != "-o"@,
    decreases args.len(),
{
    if args.len() > 0 && args.last() != "-o"@ {
        lemma_last_option_index(args.drop_last());
        assert forall|i: int| last_option_index(args) < i < args.len() implies args[i] != "-o"@ by {
            if i < args.len() - 1 {
                assert(args[i] == args.drop_last()[i]);
            }
        }
    }
}

/// `name`, with `.zip` appended when it does not contain `.zip`.
pub open spec fn zip_name(name: Seq<char>) -> Seq<char> {
    if has_infix(name, ".zip"@) {
        name
    } else {
        name + ".zip"@
    }
}

/// An archive name always contains `.zip`.
pub proof fn lemma_zip_name_has_extension(name: Seq<char>)
    ensures
        has_infix(zip_name(name), ".zip"@),
{
    if !has_infix(name, ".zip"@) {
        let z = name + ".zip"@;
        assert(z.subrange(name.len() as int, (name.len() + ".zip"@.len()) as int) =~= ".zip"@);
        assert(crate::text::occurs_at(z, ".zip"@, name.len() as int));
    }
}

/// An option was given with nothing after it.
#[derive(Clone, Copy, Debug, PartialEq, Eq, Structural)]
pub struct MissingOptionValue;

/// The name of the archive `split` writes, from the arguments that follow the
/// document: `-o <name>` names it (the last such option wins; `.zip` is
/// appended when the name does not contain it) and it is
/// `splitted_document.zip` otherwise. An `-o` that comes last is refused.
pub fn split_archive_name(args: &Vec<String>) -> (r: Result<String, MissingOptionValue>)
    ensures
        ({
            let k = last_option_index(texts(args@));
            if k == -1 {
                r matches Ok(n) && n@ == "splitted_document.zip"@
            } else if k == args@.len() - 1 {
                r is Err
            } else {
                r matches Ok(n) && n@ == zip_name(args@[k + 1]@)
            }
        }),
{
    proof {
        lemma_last_option_index(texts(args@));
    }
    let mut last: Option<usize> = None;
    let mut i: usize = 0;
    while i < args.len()
        invariant
            i <= args.len(),
            match last {
                None => forall|k: int| 0 <= k < i ==> args@[k]@ != "-o"@,
                Some(l) => l < i && args@[l as int]@ == "-o"@ && forall|k: int|
                    l < k < i ==> args@[k]@ != "-o"@,
            },
        decreases args.len() - i,
    {
        if same_text(args[i].as_str(), "-o") {
            last = Some(i);
        }
        i = i + 1;
    }
    match last {
        None => {
            proof {
                if last_option_index(texts(args@)) >= 0 {
                    assert(texts(args@)[last_option_index(texts(args@))] == args@[last_option_index(texts(args@))]@);
                }
            }
            Ok(String::from_str("splitted_document.zip"))
        },
        Some(l) => {
            proof {
                let k = last_option_index(texts(args@));
                assert(texts(args@)[l as int] == args@[l as int]@);
                if k > l {
                    assert(texts(args@)[k] == args@[k]@);
                }
            }
            if l + 1 == args.len() {
                Err(MissingOptionValue)
            } else {
                let name = chars_of(args[l + 1].as_str());
                let ext = chars_of(".zip");
                if contains(&name, &ext) {
                    Ok(args[l + 1].clone())
                } else {
                    let joined = concat(&name, &ext);
                    Ok(string_of(&joined))
                }
            }
        },
    }
}

/// Position of the last argument that contains `.pdf`, or -1.
pub open spec fn last_pdf_index(args: Seq<Seq<char>>) -> int
    decreases args.len(),
{
    if args.len() == 0 {
        -1
    } else if has_infix(args.last(), ".pdf"@) {
        args.len() - 1
    } else {
        last_pdf_index(args.drop_last())
    }
}

proof fn lemma_last_pdf_index(args: Seq<Seq<char>>)
    ensures
        -1 <= last_pdf_index(args) < args.len(),
        last_pdf_index(args) >= 0 ==> has_infix(args[last_pdf_index(args)], ".pdf"@),
        forall|i: int| last_pdf_index(args) < i < args.len() ==> !has_infix(#[trigger] args[i], ".pdf"@),
    decreases args.len(),
{
    if args.len() > 0 && !has_infix(args.last(), ".pdf"@) {
        lemma_last_pdf_index(args.drop_last());
        assert forall|i: int| last_pdf_index(args) < i < args.len() implies !has_infix(
            #[trigger] args[i],
            ".pdf"@,
        ) by {
            if i < args.len() - 1 {
                assert(args[i] == args.drop_last()[i]);
            }
        }
    }
}

/// The document a command works on, as found among its arguments.
pub struct DocumentArgument {
    /// The last argument that contains `.pdf`, or nothing when none does.
    pub name: String,
    /// The argument taken out of the list: that one, or the first argument
    /// when none contains `.pdf`.
    pub argument: String,
}

/// Takes the command (the first argument) and the document out of the
/// arguments of a command: the document is the last argument that contains
/// `.pdf`; when none does, the name is empty and the first remaining
/// argument is taken out instead. The command must be followed by at least
/// one argument.
pub fn take_document_argument(args: &mut Vec<String>) -> (r: DocumentArgument)
    requires
        old(args)@.len() >= 2,
    ensures
        ({
            let rest = old(args)@.subrange(1, old(args)@.len() as int);
            let k = last_pdf_index(texts(rest));
            let at = if k < 0 { 0 } else { k };
            &&& r.name@ == (if k < 0 { Seq::<char>::empty() } else { rest[k]@ })
            &&& r.argument == rest[at]
            &&& final(args)@ == rest.remove(at)
        }),
{
    args.remove(0);
    let ghost rest = args@;
    proof {
        lemma_last_pdf_index(texts(rest));
    }
    let mut found: Option<usize> = None;
    let mut i: usize = 0;
    let pdf = chars_of(".pdf");
    while i < args.len()
        invariant
            args@ == rest,
            pdf@ == ".pdf"@,
            i <= args.len(),
            match found {
                None => forall|k: int| 0 <= k < i ==> !has_infix(#[trigger] rest[k]@, ".pdf"@),
                Some(l) => l < i && has_infix(rest[l as int]@, ".pdf"@) && forall|k: int|
                    l < k < i ==> !has_infix(#[trigger] rest[k]@, ".pdf"@),
            },
        decreases args.len() - i,
    {
        let text = chars_of(args[i].as_str());
        if contains(&text, &pdf) {
            found = Some(i);
        }
        i = i + 1;
    }
    proof {
        let k = last_pdf_index(texts(rest));
        if k >= 0 {
            assert(texts(rest)[k] == rest[k]@);
        }
        match found {
            Some(l) => {
                assert(texts(rest)[l as int] == rest[l as int]@);
            },
            None => {},
        }
    }
    match found {
        Some(l) => {
            let name = args[l].clone();
            let argument = args.remove(l);
            DocumentArgument { name, argument }
        },
        None => {
            let argument = args.remove(0);
            DocumentArgument { name: String::new(), argument }
        },
    }
}

} // verus!
