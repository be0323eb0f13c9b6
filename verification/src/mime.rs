//! MIME type detection by file extension, for the static files that the
//! embedded user interface serves.

use vstd::prelude::*;
use vstd::string::StringSliceAdditionalSpecFns;

verus! {

/// Whether `suf` is a suffix of `b`.
pub open spec fn is_suffix(b: Seq<u8>, suf: Seq<u8>) -> bool {
    suf.len() <= b.len() && b.subrange(b.len() - suf.len(), b.len() as int) == suf
}

/// The MIME type for a path, decided by its extension, with the generic
/// byte-stream type as the fallback.
pub open spec fn mime_of(b: Seq<u8>) -> Seq<char> {
    if is_suffix(b, (".html").spec_bytes()) {
        ("text/html")@
    } else if is_suffix(b, (".css").spec_bytes()) {
        ("text/css")@
    } else if is_suffix(b, (".js").spec_bytes()) {
        ("application/javascript")@
    } else if is_suffix(b, (".png").spec_bytes()) {
        ("image/png")@
    } else if is_suffix(b, (".jpg").spec_bytes()) || is_suffix(b, (".jpeg").spec_bytes()) {
        ("image/jpeg")@
    } else if is_suffix(b, (".ico").spec_bytes()) {
        ("image/x-icon")@
    } else if is_suffix(b, (".svg").spec_bytes()) {
        ("image/svg+xml")@
    } else if is_suffix(b, (".gif").spec_bytes()) {
        ("image/gif")@
    } else if is_suffix(b, (".mp4").spec_bytes()) {
        ("video/mp4")@
    } else if is_suffix(b, (".webm").spec_bytes()) {
        ("video/webm")@
    } else if is_suffix(b, (".ogg").spec_bytes()) {
        ("video/ogg")@
    } else if is_suffix(b, (".avi").spec_bytes()) {
        ("video/x-msvideo")@
    } else if is_suffix(b, (".mpeg").spec_bytes()) {
        ("video/mpeg")@
    } else {
        ("application/octet-stream")@
    }
}

/// Whether the byte slice ends with the given suffix.
fn has_suffix(b: &[u8], suf: &[u8]) -> (r: bool)
    ensures
        r == is_suffix(b@, suf@),
{
    if suf.len() > b.len() {
        return false;
    }
    let start: usize = b.len() - suf.len();
    let mut i: usize = 0;
    while i < suf.len()
        invariant
            suf@.len() <= b@.len(),
            b@.len() <= usize::MAX,
            start == b@.len() - suf@.len(),
            i <= suf@.len(),
            forall|j: int| 0 <= j < i ==> b@[start + j] == suf@[j],
        decreases suf@.len() - i,
    {
        if b[start + i] != suf[i] {
            return false;
        }
        i = i + 1;
    }
    proof {
        assert(b@.subrange(b@.len() - suf@.len(), b@.len() as int) =~= suf@);
    }
    true
}

/// The MIME type of a static file, decided by its path's extension.
pub fn get_mime_type(path: &str) -> (r: &'static str)
    ensures
        r@ == mime_of(path.spec_bytes()),
{
    let b = path.as_bytes();
    if has_suffix(b, ".html".as_bytes()) {
        "text/html"
    } else if has_suffix(b, ".css".as_bytes()) {
        "text/css"
    } else if has_suffix(b, ".js".as_bytes()) {
        "application/javascript"
    } else if has_suffix(b, ".png".as_bytes()) {
        "image/png"
    } else if has_suffix(b, ".jpg".as_bytes()) || has_suffix(b, ".jpeg".as_bytes()) {
        "image/jpeg"
    } else if has_suffix(b, ".ico".as_bytes()) {
        "image/x-icon"
    } else if has_suffix(b, ".svg".as_bytes()) {
        "image/svg+xml"
    } else if has_suffix(b, ".gif".as_bytes()) {
        "image/gif"
    } else if has_suffix(b, ".mp4".as_bytes()) {
        "video/mp4"
    } else if has_suffix(b, ".webm".as_bytes()) {
        "video/webm"
    } else if has_suffix(b, ".ogg".as_bytes()) {
        "video/ogg"
    } else if has_suffix(b, ".avi".as_bytes()) {
        "video/x-msvideo"
    } else if has_suffix(b, ".mpeg".as_bytes()) {
        "video/mpeg"
    } else {
        "application/octet-stream"
    }
}

} // verus!
