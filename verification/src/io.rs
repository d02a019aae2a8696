//! What writing a managed file back decides: the reading and writing of
//! files is the caller's.
use vstd::prelude::*;

use crate::error::TombError;
use crate::model::ManagedFile;
use crate::renderer::{file_text, render_managed_file, written_file};
use crate::text::{chars_of, push_chars};

verus! {

/// The text to write for `file`, read earlier from `earlier_source`, now
/// that the file at `path` holds `current_source`: its rendering when the
/// file is unchanged, else a conflict naming the path.
pub fn contents_to_write(
    path: &str,
    earlier_source: &str,
    current_source: &str,
    file: &ManagedFile,
) -> (r: Result<String, TombError>)
    ensures
        current_source@ == earlier_source@ ==> (r matches Ok(s) && s@ == file_text(written_file(file@))),
        current_source@ != earlier_source@ ==> (r matches Err(TombError::Conflict(m))
            && m@ == "Source content was changed in "@ + path@),
{
    let current = chars_of(current_source);
    let earlier = chars_of(earlier_source);
    if !crate::text::chars_eq(&current, &earlier) {
        let mut message = "Source content was changed in ".to_string();
        push_chars(&mut message, &chars_of(path));
        return Err(TombError::Conflict(message));
    }
    Ok(render_managed_file(file))
}

} // verus!
