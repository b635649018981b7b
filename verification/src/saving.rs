//! Where the window application saves what it makes: the path typed by the
//! user is checked while it is typed, then turned into the file to write.

use vstd::prelude::*;
use vstd::string::*;
use crate::text::{
    after_last, before_last, chars_of, concat, contains, ends_with, has_infix, has_prefix, has_suffix,
    last_piece, leading_pieces, slice_chars, starts_with, string_of,
};

verus! {

/// The folder part of a typed path: the pieces of the path split at `/`
/// but the last, joined again; `/` when that is empty.
pub open spec fn folder_part(path: Seq<char>) -> Seq<char> {
    if before_last(path, '/').len() == 0 {
        "/"@
    } else {
        before_last(path, '/')
    }
}

/// The folder part of a typed path, or nothing when it holds a line break
/// (the path is then refused).
pub fn save_folder(path: &str) -> (r: Option<String>)
    ensures
        match r {
            None => before_last(path@, '/').len() > 0 && has_infix(before_last(path@, '/'), "\n"@),
            Some(f) => f@ == folder_part(path@) && !(before_last(path@, '/').len() > 0 && has_infix(
                before_last(path@, '/'),
                "\n"@,
            )),
        },
{
    let lead = leading_pieces(&chars_of(path), '/');
    if lead.len() == 0 {
        Some(String::from_str("/"))
    } else if contains(&lead, &chars_of("\n")) {
        None
    } else {
        Some(string_of(&lead))
    }
}

/// The file a typed path saves to, given what the file system says of it:
/// whether its folder part exists, whether the path exists and whether it
/// is a folder. A relative path, a path ending in `/` and a path whose
/// folder and itself do not exist save nothing. A folder gets
/// `default_name` inside it; otherwise the file is the last piece of the
/// path in its folder, with `extension` appended when it does not end
/// with it.
pub open spec fn save_target_of(
    path: Seq<char>,
    folder: Seq<char>,
    extension: Seq<char>,
    default_name: Seq<char>,
    folder_exists: bool,
    path_exists: bool,
    path_is_folder: bool,
) -> Option<Seq<char>> {
    let name = after_last(path, '/');
    if !(folder_exists || path_exists) || !has_prefix(path, "/"@) || name.len() == 0 {
        None
    } else if path_is_folder {
        Some(path + "/"@ + default_name)
    } else {
        let file = if has_suffix(name, extension) {
            name
        } else {
            name + extension
        };
        if folder == "/"@ {
            Some("/"@ + file)
        } else {
            Some(folder + "/"@ + file)
        }
    }
}

/// The file a typed path saves to (see `save_target_of`); `folder` is the
/// path's folder part (`save_folder`).
pub fn save_target(
    path: &str,
    folder: &str,
    extension: &str,
    default_name: &str,
    folder_exists: bool,
    path_exists: bool,
    path_is_folder: bool,
) -> (r: Option<String>)
    ensures
        match r {
            None => save_target_of(path@, folder@, extension@, default_name@, folder_exists, path_exists, path_is_folder) is None,
            Some(t) => save_target_of(path@, folder@, extension@, default_name@, folder_exists, path_exists, path_is_folder) == Some(t@),
        },
{
    let p = chars_of(path);
    let name = last_piece(&p, '/');
    let slash = chars_of("/");
    if !(folder_exists || path_exists) || !starts_with(&p, &slash) || name.len() == 0 {
        return None;
    }
    if path_is_folder {
        let with_slash = concat(&p, &slash);
        let full = concat(&with_slash, &chars_of(default_name));
        return Some(string_of(&full));
    }
    let ext = chars_of(extension);
    let file = if ends_with(&name, &ext) {
        name
    } else {
        concat(&name, &ext)
    };
    let f = chars_of(folder);
    if crate::text::same_text(folder, "/") {
        let full = concat(&slash, &file);
        Some(string_of(&full))
    } else {
        let with_slash = concat(&f, &slash);
        let full = concat(&with_slash, &file);
        Some(string_of(&full))
    }
}

/// Whatever path is typed, the file saved to is absolute and carries the
/// extension, as long as the default name carries it.
pub proof fn lemma_saved_file_has_extension(
    path: Seq<char>,
    folder: Seq<char>,
    extension: Seq<char>,
    default_name: Seq<char>,
    folder_exists: bool,
    path_exists: bool,
    path_is_folder: bool,
)
    requires
        has_suffix(default_name, extension),
    ensures
        save_target_of(path, folder, extension, default_name, folder_exists, path_exists, path_is_folder) matches Some(t)
            ==> has_suffix(t, extension),
{
    let name = after_last(path, '/');
    if let Some(t) = save_target_of(path, folder, extension, default_name, folder_exists, path_exists, path_is_folder) {
        let file = if has_suffix(name, extension) {
            name
        } else {
            name + extension
        };
        let head = if path_is_folder {
            path + "/"@
        } else if folder == "/"@ {
            "/"@
        } else {
            folder + "/"@
        };
        let tail = if path_is_folder {
            default_name
        } else {
            file
        };
        assert(t =~= head + tail);
        if !path_is_folder && !has_suffix(name, extension) {
            assert((name + extension).subrange(name.len() as int, (name.len() + extension.len()) as int) =~= extension);
        }
        assert(has_suffix(tail, extension));
        assert(t.subrange(t.len() - extension.len(), t.len() as int) =~= tail.subrange(
            tail.len() - extension.len(),
            tail.len() as int,
        ));
    }
}

/// A path is refused only when it is relative, ends in `/`, or neither it
/// nor its folder exists. An absolute file path whose folder exists is
/// written to whether or not the file already exists (it is written over):
/// the target is then in that folder and ends with `/`, the
/// file's name and, when the name lacks it, the extension. A folder gets
/// the default name inside it.
pub proof fn lemma_save_target_cases(
    path: Seq<char>,
    folder: Seq<char>,
    extension: Seq<char>,
    default_name: Seq<char>,
    folder_exists: bool,
    path_exists: bool,
    path_is_folder: bool,
)
    ensures
        !has_prefix(path, "/"@) ==> save_target_of(
            path,
            folder,
            extension,
            default_name,
            folder_exists,
            path_exists,
            path_is_folder,
        ) is None,
        after_last(path, '/').len() == 0 ==> save_target_of(
            path,
            folder,
            extension,
            default_name,
            folder_exists,
            path_exists,
            path_is_folder,
        ) is None,
        !folder_exists && !path_exists ==> save_target_of(
            path,
            folder,
            extension,
            default_name,
            folder_exists,
            path_exists,
            path_is_folder,
        ) is None,
        has_prefix(path, "/"@) && after_last(path, '/').len() > 0 && (folder_exists || path_exists) && path_is_folder
            ==> save_target_of(path, folder, extension, default_name, folder_exists, path_exists, path_is_folder)
            == Some(path + "/"@ + default_name),
        has_prefix(path, "/"@) && after_last(path, '/').len() > 0 && folder_exists ==> {
            let t = save_target_of(path, folder, extension, default_name, true, path_exists, false);
            let name = after_last(path, '/');
            let file = if has_suffix(name, extension) { name } else { name + extension };
            &&& t is Some
            &&& t == save_target_of(path, folder, extension, default_name, true, !path_exists, false)
            &&& has_suffix(t->Some_0, "/"@ + file)
            &&& has_suffix(t->Some_0, extension)
            &&& (folder == "/"@ ==> t->Some_0 == "/"@ + file)
            &&& (folder != "/"@ ==> has_prefix(t->Some_0, folder + "/"@))
        },
{
    reveal_strlit("/");
    let name = after_last(path, '/');
    let file = if has_suffix(name, extension) { name } else { name + extension };
    if has_prefix(path, "/"@) && name.len() > 0 && folder_exists {
        let t = save_target_of(path, folder, extension, default_name, true, path_exists, false)->Some_0;
        let head = if folder == "/"@ { Seq::<char>::empty() } else { folder };
        assert(t =~= head + ("/"@ + file));
        assert(t.subrange(t.len() - ("/"@ + file).len(), t.len() as int) =~= "/"@ + file);
        if !has_suffix(name, extension) {
            assert((name + extension).subrange(name.len() as int, (name.len() + extension.len()) as int) =~= extension);
        }
        assert(has_suffix(file, extension));
        assert(t.subrange(t.len() - extension.len(), t.len() as int) =~= file.subrange(
            file.len() - extension.len(),
            file.len() as int,
        ));
        if folder != "/"@ {
            assert(t.subrange(0, (folder + "/"@).len() as int) =~= folder + "/"@);
        }
    }
}

/// The folder a typed path names, as the path checker reads it: `/` when
/// the path starts with `/`, followed by the path's pieces but the last
/// (joined with `/`) without their leading `/`.
pub open spec fn checked_folder_of(path: Seq<char>) -> Seq<char> {
    let lead = before_last(path, '/');
    let root = if has_prefix(path, "/"@) {
        "/"@
    } else {
        Seq::empty()
    };
    if has_prefix(lead, "/"@) {
        root + lead.subrange(1, lead.len() as int)
    } else {
        root + lead
    }
}

/// The folder a typed path names, as the path checker reads it.
pub fn checked_folder(path: &str) -> (r: String)
    ensures
        r@ == checked_folder_of(path@),
{
    let p = chars_of(path);
    let slash = chars_of("/");
    proof {
        reveal_strlit("/");
    }
    let root: Vec<char> = if starts_with(&p, &slash) {
        slash.clone()
    } else {
        Vec::new()
    };
    let lead = leading_pieces(&p, '/');
    let rest = if starts_with(&lead, &slash) {
        slice_chars(&lead, 1, lead.len())
    } else {
        lead
    };
    let all = concat(&root, &rest);
    string_of(&all)
}

/// What the path checker says of a typed path.
#[derive(Clone, Copy, Debug, PartialEq, Eq, Structural)]
pub enum PathCheck {
    /// The path is not absolute: it cannot be accepted.
    AbsolutePathNeeded,
    /// Its folder does not exist: it cannot be accepted.
    FolderMissing,
    /// Its folder is not a folder: it can be accepted (a default name is used).
    FolderNeeded,
    /// The file name lacks the extension: it can be accepted (it is added).
    ExtensionNeeded,
    /// Nothing to say; whether it can be accepted stays as it was.
    Fine,
}

/// What the path checker says of `path`, whose folder (`checked_folder`)
/// is `folder`, given whether that folder exists and is a folder.
pub open spec fn path_check_of(
    path: Seq<char>,
    folder: Seq<char>,
    extension: Seq<char>,
    folder_exists: bool,
    folder_is_folder: bool,
) -> PathCheck {
    if !has_prefix(folder, "/"@) {
        PathCheck::AbsolutePathNeeded
    } else if !folder_exists {
        PathCheck::FolderMissing
    } else if !folder_is_folder && folder != "/"@ {
        PathCheck::FolderNeeded
    } else if !has_suffix(after_last(path, '/'), extension) {
        PathCheck::ExtensionNeeded
    } else {
        PathCheck::Fine
    }
}

/// What the path checker says of a typed path.
pub fn check_path(path: &str, folder: &str, extension: &str, folder_exists: bool, folder_is_folder: bool) -> (r: PathCheck)
    ensures
        r == path_check_of(path@, folder@, extension@, folder_exists, folder_is_folder),
{
    let f = chars_of(folder);
    if !starts_with(&f, &chars_of("/")) {
        PathCheck::AbsolutePathNeeded
    } else if !folder_exists {
        PathCheck::FolderMissing
    } else if !folder_is_folder && !crate::text::same_text(folder, "/") {
        PathCheck::FolderNeeded
    } else if !ends_with(&last_piece(&chars_of(path), '/'), &chars_of(extension)) {
        PathCheck::ExtensionNeeded
    } else {
        PathCheck::Fine
    }
}

/// Whether the accept button can be pressed after a check: `Some` with the
/// new state, or `None` when it stays as it was.
pub fn accept_state(check: PathCheck) -> (r: Option<bool>)
    ensures
        r == match check {
            PathCheck::AbsolutePathNeeded | PathCheck::FolderMissing => Some(false),
            PathCheck::FolderNeeded | PathCheck::ExtensionNeeded => Some(true),
            PathCheck::Fine => None,
        },
{
    match check {
        PathCheck::AbsolutePathNeeded | PathCheck::FolderMissing => Some(false),
        PathCheck::FolderNeeded | PathCheck::ExtensionNeeded => Some(true),
        PathCheck::Fine => None,
    }
}

/// The marked-up line that explains a check.
pub fn check_message(check: PathCheck, extension: &str) -> (r: String)
    ensures
        r@ == match check {
            PathCheck::AbsolutePathNeeded => "<span foreground=\"red\">Absolute link</span> is needed"@,
            PathCheck::FolderMissing => "The <span foreground=\"red\">given</span> path doesn't exist"@,
            PathCheck::FolderNeeded => "An <span foreground=\"red\">existing</span> directory is needed"@,
            PathCheck::ExtensionNeeded => "A <span foreground=\"red\"> "@ + extension@ + " extension</span> is needed"@,
            PathCheck::Fine => Seq::<char>::empty(),
        },
{
    match check {
        PathCheck::AbsolutePathNeeded => String::from_str("<span foreground=\"red\">Absolute link</span> is needed"),
        PathCheck::FolderMissing => String::from_str("The <span foreground=\"red\">given</span> path doesn't exist"),
        PathCheck::FolderNeeded => String::from_str("An <span foreground=\"red\">existing</span> directory is needed"),
        PathCheck::ExtensionNeeded => {
            let a = concat(&chars_of("A <span foreground=\"red\"> "), &chars_of(extension));
            let b = concat(&a, &chars_of(" extension</span> is needed"));
            string_of(&b)
        },
        PathCheck::Fine => String::new(),
    }
}

} // verus!
