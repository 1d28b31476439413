//! Directory entries and their classification.
//!
//! A raw child, as the operating system reports it, either is hidden (its
//! name leads with `.`) and is dropped, or becomes a listed entry whose
//! markdown-like flag is computed from the lowered form of the name's
//! extension.

use vstd::prelude::*;
use crate::casefold::lower_of;
use crate::casefold::lowercase;

verus! {

/// One child of a directory, as the operating system reports it: final
/// path segment, full path, and whether metadata calls it a directory.
pub struct RawEntry {
    pub name: String,
    pub path: String,
    pub is_dir: bool,
}

/// One entry of a listing.
#[derive(Debug, PartialEq)]
pub struct FileEntry {
    pub name: String,
    pub path: String,
    pub is_dir: bool,
    pub is_md: bool,
}

/// A name the lister hides: the hidden-file marker `.` leads it.
pub open spec fn spec_is_hidden(name: Seq<char>) -> bool {
    name.len() > 0 && name[0] == '.'
}

/// Index `i` holds the last dot of `name`.
pub open spec fn is_last_dot(name: Seq<char>, i: int) -> bool {
    &&& 0 <= i < name.len()
    &&& name[i] == '.'
    &&& forall|j: int| i < j < name.len() ==> name[j] != '.'
}

/// The extensions recognized as markdown-like, compared after lowering.
pub open spec fn spec_recognized(ext: Seq<char>) -> bool {
    ||| ext == "md"@
    ||| ext == "markdown"@
    ||| ext == "txt"@
}

/// A markdown-like entry: not a directory, and the part of the name
/// after its last dot lowers to a recognized extension.
pub open spec fn spec_is_md(name: Seq<char>, is_dir: bool) -> bool {
    &&& !is_dir
    &&& exists|i: int|
        #[trigger] is_last_dot(name, i) && spec_recognized(
            lower_of(name.subrange(i + 1, name.len() as int)),
        )
}

/// The listed entry a surviving raw child turns into.
pub open spec fn spec_entry_of(raw: RawEntry) -> FileEntry {
    FileEntry {
        name: raw.name,
        path: raw.path,
        is_dir: raw.is_dir,
        is_md: spec_is_md(raw.name@, raw.is_dir),
    }
}

/// What classification does with one raw child.
pub open spec fn spec_classify(raw: RawEntry) -> Option<FileEntry> {
    if spec_is_hidden(raw.name@) {
        None
    } else {
        Some(spec_entry_of(raw))
    }
}

/// A name has at most one last dot.
pub proof fn lemma_last_dot_unique(name: Seq<char>, i: int, j: int)
    requires
        is_last_dot(name, i),
        is_last_dot(name, j),
    ensures
        i == j,
{
    if i < j {
        assert(name[j] != '.');
    } else if j < i {
        assert(name[i] != '.');
    }
}

/// True when the name begins with the hidden-file marker.
pub fn is_hidden(name: &str) -> (r: bool)
    ensures
        r == spec_is_hidden(name@),
{
    name.unicode_len() > 0 && name.get_char(0) == '.'
}

/// The position of the name's last dot, if the name has a dot at all.
fn find_last_dot(name: &str) -> (r: Option<usize>)
    ensures
        match r {
            Some(d) => is_last_dot(name@, d as int),
            None => forall|j: int| 0 <= j < name@.len() ==> name@[j] != '.',
        },
{
    let n = name.unicode_len();
    let mut last: Option<usize> = None;
    let mut k: usize = 0;
    while k < n
        invariant
            n == name@.len(),
            k <= n,
            match last {
                Some(d) => d < k && name@[d as int] == '.' && forall|j: int|
                    d < j < k ==> name@[j] != '.',
                None => forall|j: int| 0 <= j < k ==> name@[j] != '.',
            },
        decreases n - k,
    {
        if name.get_char(k) == '.' {
            last = Some(k);
        }
        k = k + 1;
    }
    last
}

/// The part of the name after its last dot, when the name has one.
pub fn extension_of<'a>(name: &'a str) -> (r: Option<&'a str>)
    ensures
        match r {
            Some(e) => exists|i: int|
                #[trigger] is_last_dot(name@, i) && e@ == name@.subrange(
                    i + 1,
                    name@.len() as int,
                ),
            None => forall|i: int| !is_last_dot(name@, i),
        },
{
    let n = name.unicode_len();
    match find_last_dot(name) {
        None => None,
        Some(d) => Some(name.substring_char(d + 1, n)),
    }
}

/// True when the (already lowered) extension is in the recognized set.
pub fn is_recognized(ext: &String) -> (r: bool)
    ensures
        r == spec_recognized(ext@),
{
    let md = String::from_str("md");
    let markdown = String::from_str("markdown");
    let txt = String::from_str("txt");
    *ext == md || *ext == markdown || *ext == txt
}

/// True when the name's extension, lowered, is in the recognized set.
pub fn has_recognized_extension(name: &str) -> (r: bool)
    ensures
        r == exists|i: int|
            #[trigger] is_last_dot(name@, i) && spec_recognized(
                lower_of(name@.subrange(i + 1, name@.len() as int)),
            ),
{
    match extension_of(name) {
        None => false,
        Some(e) => {
            let low = lowercase(e);
            let r = is_recognized(&low);
            proof {
                let d = choose|i: int|
                    #[trigger] is_last_dot(name@, i) && e@ == name@.subrange(
                        i + 1,
                        name@.len() as int,
                    );
                if r {
                    assert(is_last_dot(name@, d) && spec_recognized(
                        lower_of(name@.subrange(d + 1, name@.len() as int)),
                    ));
                } else {
                    assert forall|i: int| #[trigger] is_last_dot(name@, i) implies !spec_recognized(
                        lower_of(name@.subrange(i + 1, name@.len() as int)),
                    ) by {
                        lemma_last_dot_unique(name@, i, d);
                    }
                }
            }
            r
        },
    }
}

/// Classifies one raw child: hides dot-names and flags markdown-like
/// files; name, path and directory bit pass through unchanged.
pub fn classify(raw: RawEntry) -> (r: Option<FileEntry>)
    ensures
        r == spec_classify(raw),
{
    if is_hidden(raw.name.as_str()) {
        None
    } else {
        let is_md = !raw.is_dir && has_recognized_extension(raw.name.as_str());
        Some(
            FileEntry {
                name: raw.name,
                path: raw.path,
                is_dir: raw.is_dir,
                is_md,
            },
        )
    }
}

} // verus!
