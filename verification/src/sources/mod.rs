//! Catalogue sources: the shared result types and the anime-sama pages.

pub mod pages;
pub mod anime_sama;

use vstd::prelude::*;
use crate::numbers::{signed_decimal, signed_decimal_chars};
use crate::text::{chars_of, concat, join, join_strings, string_from_chars, strings_view};

verus! {

/// A search result from a source catalog.
#[derive(Debug, Clone)]
pub struct AnimeResult {
    pub name: String,
    pub slug: String,
    pub url: String,
}

/// Season info with available languages.
#[derive(Debug, Clone)]
pub struct SeasonInfo {
    pub number: i8,
    pub langs: Vec<String>,
}

impl SeasonInfo {
    /// How the season is shown: `Saison N (lang, lang)`.
    pub fn label(&self) -> (r: String)
        ensures
            r@ == "Saison "@ + signed_decimal(self.number as int) + " ("@ + join(
                strings_view(self.langs@),
                ", "@,
            ) + ")"@,
    {
        let mut v = chars_of("Saison ");
        v = concat(&v, &signed_decimal_chars(self.number));
        v = concat(&v, &chars_of(" ("));
        v = concat(&v, &join_strings(&self.langs, ", "));
        v = concat(&v, &chars_of(")"));
        string_from_chars(&v)
    }
}

#[verifier::external_type_specification]
#[verifier::external_body]
pub struct ExAnyhowError(anyhow::Error);

/// Trait that any anime source must implement.
pub trait Source {
    /// Search for animes by name. Returns matching results.
    fn search(&self, query: &str) -> anyhow::Result<Vec<AnimeResult>>;

    /// Get available seasons and their languages for a given anime.
    fn get_seasons(&self, anime: &AnimeResult) -> anyhow::Result<Vec<SeasonInfo>>;

    /// Get episode URLs for a specific anime, season and language.
    fn get_episodes(&self, anime: &AnimeResult, season: i8, lang: &str) -> anyhow::Result<
        Vec<String>,
    >;
}

} // verus!
pub mod season_list;
pub mod search;
