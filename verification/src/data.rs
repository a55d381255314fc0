//! Decisions of the local catalogue-data cache: versions and downloads.

use vstd::prelude::*;
use crate::numbers::{
    decimal, decimal_chars, is_ascii_digit, lemma_decimal_digits, lemma_parse_decimal,
    parse_unsigned, parse_unsigned_chars,
};
use crate::text::{chars_of, is_white_space, lemma_trim_identity, string_from_chars, trim, trim_chars};

verus! {

/// A downloaded data file smaller than this is taken for a failed scrape.
pub const MIN_DATA_BYTES: u64 = 500_000;

/// The version a version file's text names: the trimmed text parsed as a
/// `u32`.
pub open spec fn version_in(text: Seq<char>) -> Option<nat> {
    parse_unsigned(trim(text), u32::MAX as nat)
}

/// The version a version file's text names (`text.trim().parse::<u32>()`).
pub fn parse_version(text: &str) -> (r: Option<u32>)
    ensures
        match r {
            Some(v) => version_in(text@) == Some(v as nat),
            None => version_in(text@) is None,
        },
{
    let t = trim_chars(&chars_of(text));
    match parse_unsigned_chars(&t, u32::MAX as u64) {
        Some(v) => Some(v as u32),
        None => None,
    }
}

/// The text a version file is written with: the version in decimal
/// (`version.to_string()`).
pub fn version_text(version: u32) -> (r: String)
    ensures
        r@ == decimal(version as nat),
{
    string_from_chars(&decimal_chars(version as u64))
}

/// A version file written with `version_text` reads back as the same
/// version.
pub proof fn lemma_version_round_trip(version: u32)
    ensures
        version_in(decimal(version as nat)) == Some(version as nat),
{
    let d = decimal(version as nat);
    lemma_decimal_digits(version as nat);
    assert(is_ascii_digit(d[0]) && is_ascii_digit(d.last()));
    assert(!is_white_space(d[0]) && !is_white_space(d.last()));
    lemma_trim_identity(d);
    lemma_parse_decimal(version as nat, u32::MAX as nat);
}

/// Whether the data file is fetched at all: when asked to overwrite it, or
/// when there is none yet.
pub fn should_download(overwrite: bool, file_exists: bool) -> (r: bool)
    ensures
        r == (overwrite || !file_exists),
{
    overwrite || !file_exists
}

/// Whether the published version is newer than the local one, so that the
/// local version is raised and the data fetched again.
pub fn is_newer_version(last: u32, local: u32) -> (r: bool)
    ensures
        r == (last > local),
{
    last > local
}

/// Whether a fresh download is ignored in favour of the existing file: it
/// is too small to be a good scrape and a file is already there.
pub fn keep_existing_data(content_length: u64, file_exists: bool) -> (r: bool)
    ensures
        r == (content_length < MIN_DATA_BYTES && file_exists),
{
    content_length < MIN_DATA_BYTES && file_exists
}

} // verus!
