//! The name under which a downloaded file is written.

use vstd::prelude::*;
use crate::text::{chars_of, remove_all, string_of, without};

verus! {

/// The text before the filename in a content-disposition header.
pub const ATTACHMENT_MARK: &'static str = "attachment; filename=";

/// The start of a filename made up for a response that names none.
pub const DEFAULT_STEM: &'static str = "new_file.";

/// The filename for a download of `extension` whose content-disposition
/// header reads `header`: the header without the attachment mark and without
/// semicolons when it is there and not empty, else the default name.
pub open spec fn filename_of(extension: Seq<char>, header: Option<Seq<char>>) -> Seq<char> {
    match header {
        Some(v) => if v.len() > 0 {
            without(without(v, ATTACHMENT_MARK@), seq![';'])
        } else {
            DEFAULT_STEM@ + extension
        },
        None => DEFAULT_STEM@ + extension,
    }
}

/// The filename for a download of `extension`, from the text of its
/// content-disposition header if the response has a readable one.
pub fn derive_filename(extension: &str, header: Option<&str>) -> (r: String)
    ensures
        r@ == filename_of(
            extension@,
            match header {
                Some(h) => Some(h@),
                None => None,
            },
        ),
{
    if let Some(value) = header {
        let cs = chars_of(value);
        if cs.len() > 0 {
            let mark = chars_of(ATTACHMENT_MARK);
            let semicolon = vec![';'];
            assert(semicolon@ =~= seq![';']);
            let unmarked = remove_all(cs.as_slice(), mark.as_slice());
            let name = remove_all(unmarked.as_slice(), semicolon.as_slice());
            return string_of(name.as_slice());
        }
    }
    let mut name = chars_of(DEFAULT_STEM);
    let ext = chars_of(extension);
    let ghost stem = name@;
    let mut i: usize = 0;
    while i < ext.len()
        invariant
            i <= ext@.len(),
            name@ == stem + ext@.subrange(0, i as int),
        decreases ext@.len() - i,
    {
        name.push(ext[i]);
        i = i + 1;
        assert(name@ =~= stem + ext@.subrange(0, i as int));
    }
    assert(ext@.subrange(0, ext@.len() as int) =~= ext@);
    string_of(name.as_slice())
}

} // verus!
