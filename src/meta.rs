//! Where the metadata file of a project entry lives: beside the entry,
//! named after it with a `.meta` extension.
use vstd::prelude::*;
use vstd::string::StringExecFns;

verus! {

/// What `Path::extension` gives for a path, as text.
pub uninterp spec fn extension_of(path: Seq<char>) -> Option<Seq<char>>;

/// What `Path::with_extension` gives for a path and an extension, as text.
pub uninterp spec fn with_extension_of(path: Seq<char>, ext: Seq<char>) -> Seq<char>;

/// Relies on `std::path::Path::extension`: the extension of the file name,
/// if it has one. A part of a `str` is UTF-8, so the text is kept whole;
/// it is a part of the file name, so it holds no separator.
#[verifier::external_body]
fn path_extension(path: &str) -> (r: Option<String>)
    ensures
        r matches Some(e) ==> extension_of(path@) == Some(e@),
        r matches Some(e) ==> !e@.contains('/'),
        r is None ==> extension_of(path@) is None,
{
    std::path::Path::new(path).extension().map(|e| e.to_string_lossy().into_owned())
}

/// Relies on `std::path::Path::with_extension`: the path with the extension
/// of its file name replaced by `ext`. It joins UTF-8 text, so the text is
/// kept whole. It panics on an extension that holds a separator.
#[verifier::external_body]
fn path_with_extension(path: &str, ext: &str) -> (r: String)
    requires
        !ext@.contains('/'),
    ensures
        r@ == with_extension_of(path@, ext@),
{
    std::path::Path::new(path).with_extension(ext).to_string_lossy().into_owned()
}

/// The extension a file's metadata file has: the file's own extension
/// followed by `.meta`.
pub fn meta_extension(ext: &str) -> (r: String)
    ensures
        r@ == ext@ + ".meta"@,
{
    let mut r = ext.to_owned();
    r.append(".meta");
    r
}

/// The metadata path of a project entry. A directory's is the path with
/// the extension `meta`; a file's keeps the file's extension and adds
/// `.meta` after it. A file without an extension has no metadata path:
/// that input is answered with `None` rather than a panic.
pub fn get_meta_file(path: &str, is_dir: bool) -> (r: Option<String>)
    ensures
        is_dir ==> (r matches Some(m) && m@ == with_extension_of(path@, "meta"@)),
        !is_dir ==> match extension_of(path@) {
            Some(e) => (r matches Some(m) && m@ == with_extension_of(path@, e + ".meta"@)),
            None => r is None,
        },
{
    if is_dir {
        proof {
            reveal_strlit("meta");
            assert(!"meta"@.contains('/'));
        }
        return Some(path_with_extension(path, "meta"));
    }
    match path_extension(path) {
        Some(ext) => {
            let meta = meta_extension(ext.as_str());
            proof {
                reveal_strlit(".meta");
                assert(!meta@.contains('/')) by {
                    assert forall|i: int| 0 <= i < meta@.len() implies meta@[i] != '/' by {
                        if i >= ext@.len() {
                            assert(meta@[i] == ".meta"@[i - ext@.len()]);
                        } else {
                            assert(meta@[i] == ext@[i]);
                        }
                    }
                }
            }
            Some(path_with_extension(path, meta.as_str()))
        },
        None => None,
    }
}

} // verus!
