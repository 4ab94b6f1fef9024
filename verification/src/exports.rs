use vstd::prelude::*;

use crate::text::chars_of;

verus! {

/// One file of the e621 database exports, as the manifest lists it.
pub struct Export {
    pub name: String,
    pub file_name: String,
    pub file_size: u64,
    pub checksum: String,
    pub updated_at: String,
    pub url: String,
}

/// Why an export cannot be had.
#[derive(Debug, PartialEq, Eq, Structural)]
pub enum ExportError {
    /// The manifest lists no export of that name.
    NotInManifest,
}

/// The first export of the manifest called `name`.
pub open spec fn first_named(manifest: Seq<Export>, name: Seq<char>, from: int) -> Option<int>
    decreases manifest.len() - from,
{
    if from < 0 || from >= manifest.len() {
        None
    } else if manifest[from].name@ == name {
        Some(from)
    } else {
        first_named(manifest, name, from + 1)
    }
}

fn same_chars(a: &Vec<char>, b: &Vec<char>) -> (r: bool)
    ensures
        r == (a@ == b@),
{
    if a.len() != b.len() {
        return false;
    }
    let mut i: usize = 0;
    while i < a.len()
        invariant
            i <= a@.len(),
            a@.len() == b@.len(),
            forall|k: int| 0 <= k < i ==> a@[k] == b@[k],
        decreases a@.len() - i,
    {
        if a[i] != b[i] {
            return false;
        }
        i = i + 1;
    }
    assert(a@ =~= b@);
    true
}

/// The export of the manifest called `name`, the first if several are.
pub fn find<'a>(manifest: &'a [Export], name: &str) -> (r: Result<&'a Export, ExportError>)
    ensures
        match first_named(manifest@, name@, 0) {
            Some(i) => r == Ok::<&Export, ExportError>(&manifest@[i]),
            None => r == Err::<&Export, ExportError>(ExportError::NotInManifest),
        },
{
    let want = chars_of(name);
    let mut i: usize = 0;
    while i < manifest.len()
        invariant
            i <= manifest@.len(),
            want@ == name@,
            first_named(manifest@, name@, 0) == first_named(manifest@, name@, i as int),
        decreases manifest@.len() - i,
    {
        let have = chars_of(manifest[i].name.as_str());
        if same_chars(&have, &want) {
            return Ok(&manifest[i]);
        }
        i = i + 1;
    }
    Err(ExportError::NotInManifest)
}

/// The first header from `from` on that reads `name`.
pub open spec fn first_header(headers: Seq<Seq<char>>, name: Seq<char>, from: int) -> Option<int>
    decreases headers.len() - from,
{
    if from < 0 || from >= headers.len() {
        None
    } else if headers[from] == name {
        Some(from)
    } else {
        first_header(headers, name, from + 1)
    }
}

/// The position of the column headed `name`, the first if several are.
pub fn column_index(headers: &Vec<String>, name: &str) -> (r: Option<usize>)
    ensures
        r == (match first_header(headers@.map_values(|h: String| h@), name@, 0) {
            Some(i) => Some(i as usize),
            None => None,
        }),
{
    let ghost views = headers@.map_values(|h: String| h@);
    let want = chars_of(name);
    let mut i: usize = 0;
    while i < headers.len()
        invariant
            i <= headers@.len(),
            want@ == name@,
            views == headers@.map_values(|h: String| h@),
            first_header(views, name@, 0) == first_header(views, name@, i as int),
        decreases headers@.len() - i,
    {
        let have = chars_of(headers[i].as_str());
        if same_chars(&have, &want) {
            return Some(i);
        }
        i = i + 1;
    }
    None
}

} // verus!
