//! The in-scope pieces of the release installer: release timestamps and the
//! download address of a published release. The installer's downloading,
//! archive extraction, and path editing are I/O outside this library.

use vstd::prelude::*;
use vstd::string::StringExecFns;

verus! {

/// Relies on `std::time::SystemTime::now` and `duration_since`: seconds
/// since the Unix epoch, as the machine clock reports them. Nothing can be
/// promised of the clock; a clock standing before the epoch reads as zero.
#[verifier::external_body]
pub fn timestamp_secs() -> u64 {
    match std::time::SystemTime::now().duration_since(std::time::SystemTime::UNIX_EPOCH) {
        Ok(elapsed) => elapsed.as_secs(),
        Err(_) => 0,
    }
}

/// The address a published release of `release_semver` for the build
/// `target` is downloaded from.
pub fn github_download_url(release_semver: &str, target: &str) -> (r: String)
    ensures
        r@ == "https://github.com/solana-labs/solana/releases/download/v"@ + release_semver@
            + "/solana-release-"@ + target@ + ".tar.bz2"@,
{
    let mut url = String::new();
    url.append("https://github.com/solana-labs/solana/releases/download/v");
    url.append(release_semver);
    url.append("/solana-release-");
    url.append(target);
    url.append(".tar.bz2");
    url
}

} // verus!
