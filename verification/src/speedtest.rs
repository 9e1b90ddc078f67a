//! The parts of a speed test that are not the transfer itself.
use crate::chars;
use crate::numbers;
use crate::text;
use vstd::prelude::*;

verus! {

/// Where test data is downloaded from: a public endpoint that needs no key.
pub const DOWNLOAD_URL: &'static str = "https://speed.cloudflare.com/__down";

/// Where test data is uploaded to.
pub const UPLOAD_URL: &'static str = "https://speed.cloudflare.com/__up";

/// How many seconds a transfer may take.
pub const REQUEST_TIMEOUT_SECS: u64 = 20;

pub const DEFAULT_DOWNLOAD_TEST_BYTES: usize = 25_000_000;

pub const DEFAULT_UPLOAD_TEST_BYTES: usize = 8_000_000;

/// Where `bytes` bytes are downloaded from.
pub fn download_url(bytes: usize) -> (r: String)
    ensures
        r@ == DOWNLOAD_URL@ + "?bytes="@ + numbers::decimal(bytes as nat),
{
    let mut out: Vec<char> = Vec::new();
    text::put_str(&mut out, DOWNLOAD_URL);
    text::put_str(&mut out, "?bytes=");
    numbers::put_decimal(&mut out, bytes as u64);
    assert(out@ =~= DOWNLOAD_URL@ + "?bytes="@ + numbers::decimal(bytes as nat));
    text::string_of(out.as_slice())
}

/// What is uploaded: the same byte `bytes` times, as it is the transfer that is timed.
pub fn upload_payload(bytes: usize) -> (r: Vec<u8>)
    ensures
        r@ == Seq::new(bytes as nat, |i: int| 0x5Au8),
{
    let mut out: Vec<u8> = Vec::new();
    let mut i: usize = 0;
    while i < bytes
        invariant
            i <= bytes,
            out@ == Seq::new(i as nat, |i: int| 0x5Au8),
        decreases bytes - i,
    {
        out.push(0x5A);
        i += 1;
        assert(out@ =~= Seq::new(i as nat, |i: int| 0x5Au8));
    }
    out
}

/// The error that a test reports, of those of its two halves.
pub open spec fn reported(download: Option<Seq<char>>, upload: Option<Seq<char>>) -> Option<Seq<char>> {
    match download {
        Some(e) => Some(e),
        None => upload,
    }
}

/// A test reports an error exactly where one of its halves had one, and that of the download
/// where both had.
pub proof fn law_download_error_comes_first(d: Seq<char>, upload: Option<Seq<char>>)
    ensures
        reported(Some(d), upload) == Some(d),
        reported(None, upload) == upload,
{
}

/// The sizes of a test and how long it may take.
pub proof fn law_sizes_of_a_test()
    ensures
        DEFAULT_DOWNLOAD_TEST_BYTES == 25_000_000,
        DEFAULT_UPLOAD_TEST_BYTES == 8_000_000,
        REQUEST_TIMEOUT_SECS == 20,
        DOWNLOAD_URL@ == "https://speed.cloudflare.com/__down"@,
        UPLOAD_URL@ == "https://speed.cloudflare.com/__up"@,
{
}

/// The error that a test reports: that of the download, or else that of the upload.
pub fn first_error(download: &Option<String>, upload: &Option<String>) -> (r: Option<String>)
    ensures
        chars::opt_text(r) == reported(chars::opt_text(*download), chars::opt_text(*upload)),
        chars::opt_text(r) == match chars::opt_text(*download) {
            Some(e) => Some(e),
            None => chars::opt_text(*upload),
        },
{
    match download {
        Some(e) => Some(e.clone()),
        None => text::copy_opt(upload),
    }
}

} // verus!
