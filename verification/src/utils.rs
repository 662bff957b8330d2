//! The file extensions that indexing looks at.

use crate::text::{same_text, texts};
use vstd::prelude::*;

verus! {

/// The extensions of the files that are indexed, in lower case.
pub open spec fn supported_extensions() -> Seq<Seq<char>> {
    seq!["rs"@, "py"@, "js"@, "ts"@]
}

/// Whether `extension`, as it stands, is one of the supported extensions.
pub open spec fn supported(extension: Seq<char>) -> bool {
    extension == "rs"@ || extension == "py"@ || extension == "js"@ || extension == "ts"@
}

/// `supported` says what `supported_extensions` holds.
pub proof fn lemma_supported(extension: Seq<char>)
    ensures
        supported(extension) <==> supported_extensions().contains(extension),
{
    let all = supported_extensions();
    if supported(extension) {
        assert(all[0] == "rs"@);
        assert(all[1] == "py"@);
        assert(all[2] == "js"@);
        assert(all[3] == "ts"@);
    }
}

/// The extensions of the files that are indexed.
pub fn get_supported_extensions() -> (extensions: Vec<String>)
    ensures
        texts(extensions@) == supported_extensions(),
{
    let mut extensions: Vec<String> = Vec::new();
    extensions.push(String::from_str("rs"));
    extensions.push(String::from_str("py"));
    extensions.push(String::from_str("js"));
    extensions.push(String::from_str("ts"));
    assert(texts(extensions@) =~= supported_extensions());
    extensions
}

/// Whether `extension`, as it stands, is one of the supported extensions.
pub fn is_supported_extension(extension: &str) -> (r: bool)
    ensures
        r == supported(extension@),
{
    same_text(extension, "rs") || same_text(extension, "py") || same_text(extension, "js")
        || same_text(extension, "ts")
}

} // verus!
