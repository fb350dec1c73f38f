//! Which files of a directory are offered as wallpapers, and under which
//! names.

use vstd::prelude::*;
use vstd::slice::slice_subrange;
use vstd::string::StringExecFns;
use crate::text::{chars_of, last_position, rfind, same_chars, string_of};

verus! {

/// The text that `str::to_lowercase` makes of `s`: each character replaced
/// by its lower-case form.
pub uninterp spec fn lowercase(s: Seq<char>) -> Seq<char>;

/// Calls `str::to_lowercase` on `s`; what comes out is the text that
/// `lowercase` names.
#[verifier::external_body]
fn to_lowercase(s: &str) -> (r: String)
    ensures
        r@ == lowercase(s@),
{
    s.to_lowercase()
}

/// What follows the last `c` of `s`; all of `s` where it holds no `c`.
pub open spec fn after_last(s: Seq<char>, c: char) -> Seq<char> {
    s.skip(rfind(s, c) + 1)
}

/// The extension of a file name: what follows its last dot, if it has one.
pub open spec fn extension(name: Seq<char>) -> Option<Seq<char>> {
    if rfind(name, '.') >= 0 {
        Some(after_last(name, '.'))
    } else {
        None
    }
}

/// The extensions, in lower case, of the images that are offered.
pub open spec fn is_supported_extension(ext: Seq<char>) -> bool {
    ext == "jpg"@ || ext == "jpeg"@ || ext == "png"@ || ext == "bmp"@ || ext == "webp"@
}

/// A file is offered if it has an extension and that, in lower case, is
/// supported.
pub open spec fn is_image_name(name: Seq<char>) -> bool {
    match extension(name) {
        Some(ext) => is_supported_extension(lowercase(ext)),
        None => false,
    }
}

/// Whether `ext`, an extension in lower case, is that of a supported image.
pub fn supported_extension(ext: &str) -> (r: bool)
    ensures
        r == is_supported_extension(ext@),
{
    let chars = chars_of(ext);
    let ext = chars.as_slice();
    same_chars(ext, chars_of("jpg").as_slice()) || same_chars(ext, chars_of("jpeg").as_slice())
        || same_chars(ext, chars_of("png").as_slice()) || same_chars(
        ext,
        chars_of("bmp").as_slice(),
    ) || same_chars(ext, chars_of("webp").as_slice())
}

/// Whether the file named `file_name` is offered as a wallpaper.
pub fn is_supported_image(file_name: &str) -> (r: bool)
    ensures
        r == is_image_name(file_name@),
{
    let chars = chars_of(file_name);
    let n: usize = chars.len();
    match last_position(chars.as_slice(), '.') {
        Some(dot) => {
            let ext = string_of(slice_subrange(chars.as_slice(), dot + 1, n));
            let lowered = to_lowercase(ext.as_str());
            supported_extension(lowered.as_str())
        },
        None => false,
    }
}

/// The path of the file named `file_name` in the directory `dir`.
pub fn image_path(dir: &str, file_name: &str) -> (r: String)
    ensures
        r@ == dir@ + "/"@ + file_name@,
{
    let mut r = dir.to_owned();
    r.append("/");
    r.append(file_name);
    r
}

/// The name under which the image at `path` is shown: what follows the last
/// `/` of the path.
pub fn file_label(path: &str) -> (r: String)
    ensures
        r@ == after_last(path@, '/'),
{
    let chars = chars_of(path);
    let n: usize = chars.len();
    let start: usize = match last_position(chars.as_slice(), '/') {
        Some(slash) => slash + 1,
        None => 0,
    };
    string_of(slice_subrange(chars.as_slice(), start, n))
}

} // verus!
