//! Decisions of the HTTP service: which image to analyse and which address
//! to bind.

use vstd::prelude::*;

verus! {

/// The image used when the picture of the day is not an image.
pub const FALLBACK_IMAGE_URL: &'static str = "https://i.imgur.com/68jyjZT.jpg";

/// The address bound in development and for an unknown environment.
pub const LOOPBACK_HOST: &'static str = "127.0.0.1";

/// The address bound in production: every interface.
pub const ALL_INTERFACES_HOST: &'static str = "0.0.0.0";

/// The URL whose image is analysed: the daily media's own URL where its media
/// type is `image`, the fallback image otherwise.
pub fn image_url(media_type: &String, url: &String) -> (r: String)
    ensures
        media_type@ == "image"@ ==> r@ == url@,
        media_type@ != "image"@ ==> r@ == FALLBACK_IMAGE_URL@,
{
    let image_kind = "image".to_owned();
    if media_type.eq(&image_kind) {
        url.clone()
    } else {
        FALLBACK_IMAGE_URL.to_owned()
    }
}

/// The host to bind for an environment name, and whether the name was one of
/// `development` (loopback) and `production` (every interface); any other
/// name falls back to loopback.
pub fn host_for_environment(environment: &String) -> (r: (&'static str, bool))
    ensures
        r.1 == (environment@ == "development"@ || environment@ == "production"@),
        environment@ == "production"@ ==> r.0@ == ALL_INTERFACES_HOST@,
        environment@ != "production"@ ==> r.0@ == LOOPBACK_HOST@,
{
    let development = "development".to_owned();
    let production = "production".to_owned();
    if environment.eq(&production) {
        (ALL_INTERFACES_HOST, true)
    } else if environment.eq(&development) {
        (LOOPBACK_HOST, true)
    } else {
        (LOOPBACK_HOST, false)
    }
}

} // verus!
