//! Static assets: which asset a request path names and how it is served.

use crate::text::{chars_of, copy_range, count_leading, leading_count, text_of};
use vstd::prelude::*;

verus! {

/// The media type that `mime_guess` gives for `path`.
pub uninterp spec fn guessed_media_type(path: Seq<char>) -> Seq<char>;

/// Calls `mime_guess::from_path` and takes the first guess, or
/// `application/octet-stream` where there is none.
///
/// Trusted: that the outcome depends on the path alone.
#[verifier::external_body]
fn guess_media_type(path: &str) -> (r: String)
    ensures
        r@ == guessed_media_type(path@),
{
    mime_guess::from_path(path).first_or_octet_stream().as_ref().to_string()
}

/// A static asset to serve: its name in the bundle and its media type.
#[derive(Debug)]
pub struct StaticAsset {
    pub name: String,
    pub content_type: String,
}

/// The asset that a request path names: the path without its leading `/`,
/// or `index.html` where nothing is left.
pub open spec fn asset_name(request_path: Seq<char>) -> Seq<char> {
    let rest = request_path.skip(leading_count(request_path, '/') as int);
    if rest.len() == 0 {
        "index.html"@
    } else {
        rest
    }
}

/// The asset to serve for a request path, with the media type for its
/// name.
pub fn static_asset(request_path: &str) -> (r: StaticAsset)
    ensures
        r.name@ == asset_name(request_path@),
        r.content_type@ == guessed_media_type(asset_name(request_path@)),
{
    let chars = chars_of(request_path);
    let lead = count_leading(&chars, '/');
    let name = if lead == chars.len() {
        "index.html".to_owned()
    } else {
        text_of(&copy_range(&chars, lead, chars.len()))
    };
    let content_type = guess_media_type(name.as_str());
    StaticAsset { name, content_type }
}

} // verus!
