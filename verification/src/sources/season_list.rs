//! Seasons and languages of an anime page, from its `panneauAnime` calls.

use vstd::prelude::*;
use crate::sources::anime_sama::{AnimeSama, SourceError};
use crate::sources::pages::{PanneauCall, panneau_calls, panneau_calls_from};
use crate::sources::{AnimeResult, SeasonInfo};
use crate::text::{chars_of, concat, string_from_chars, strings_contain, strings_view};

verus! {

/// The view of the `(label, path, lang)` triples of an anime page.
pub open spec fn calls_view(entries: Seq<(String, String, String)>) -> Seq<PanneauCall> {
    entries.map_values(
        |e: (String, String, String)| PanneauCall { label: e.0@, path: e.1@, lang: e.2@ },
    )
}

/// The distinct season paths of the calls, in order of first appearance.
pub open spec fn season_paths(calls: Seq<PanneauCall>) -> Seq<Seq<char>>
    decreases calls.len(),
{
    if calls.len() == 0 {
        seq![]
    } else {
        let before = season_paths(calls.drop_last());
        if before.contains(calls.last().path) {
            before
        } else {
            before.push(calls.last().path)
        }
    }
}

/// The languages the calls list for `path`, in order.
pub open spec fn listed_langs(calls: Seq<PanneauCall>, path: Seq<char>) -> Seq<Seq<char>>
    decreases calls.len(),
{
    if calls.len() == 0 {
        seq![]
    } else {
        let before = listed_langs(calls.drop_last(), path);
        if calls.last().path == path {
            before.push(calls.last().lang)
        } else {
            before
        }
    }
}

/// `[lang]` unless `known` already holds it.
pub open spec fn probe_if_missing(known: Seq<Seq<char>>, lang: Seq<char>) -> Seq<Seq<char>> {
    if known.contains(lang) {
        seq![]
    } else {
        seq![lang]
    }
}

/// The languages of the catalogue that `known` lacks, in the order
/// `vostfr`, `vf`, `va`: the ones whose episode scripts are probed.
pub open spec fn langs_to_probe(known: Seq<Seq<char>>) -> Seq<Seq<char>> {
    probe_if_missing(known, "vostfr"@) + probe_if_missing(known, "vf"@) + probe_if_missing(
        known,
        "va"@,
    )
}

/// The URL of the episode script of one season path and language.
pub open spec fn episodes_script_url(
    base: Seq<char>,
    slug: Seq<char>,
    path: Seq<char>,
    lang: Seq<char>,
) -> Seq<char> {
    base + "/catalogue/"@ + slug + "/"@ + path + "/"@ + lang + "/episodes.js"@
}

/// The first `n` languages of `langs` whose probe answered: the `j`-th
/// answered when `row[j]` holds.
pub open spec fn confirmed_langs(langs: Seq<Seq<char>>, row: Seq<bool>, n: nat) -> Seq<Seq<char>>
    decreases n,
{
    if n == 0 {
        seq![]
    } else {
        let before = confirmed_langs(langs, row, (n - 1) as nat);
        if n - 1 < row.len() && row[n - 1] {
            before.push(langs[n - 1])
        } else {
            before
        }
    }
}

/// The probe answers for the `i`-th season path (none when `found` has no
/// row for it).
pub open spec fn probe_row(found: Seq<Seq<bool>>, i: int) -> Seq<bool> {
    if 0 <= i < found.len() {
        found[i]
    } else {
        seq![]
    }
}

/// The languages of the `i`-th season path: those the calls list, then
/// those whose probe answered.
pub open spec fn season_langs(calls: Seq<PanneauCall>, found: Seq<Seq<bool>>, i: int) -> Seq<
    Seq<char>,
> {
    let known = listed_langs(calls, season_paths(calls)[i]);
    let probed = langs_to_probe(known);
    known + confirmed_langs(probed, probe_row(found, i), probed.len())
}

/// The seasons of the first `n` paths that have a language: the `i`-th path
/// is numbered `i + 1` (as an `i8`).
pub open spec fn seasons_upto(calls: Seq<PanneauCall>, found: Seq<Seq<bool>>, n: nat) -> Seq<
    (i8, Seq<Seq<char>>),
>
    decreases n,
{
    if n == 0 {
        seq![]
    } else {
        let before = seasons_upto(calls, found, (n - 1) as nat);
        let langs = season_langs(calls, found, n - 1);
        if langs.len() > 0 {
            before.push(((n as int) as i8, langs))
        } else {
            before
        }
    }
}

/// The seasons of an anime page, given which probes answered.
pub open spec fn seasons_of(calls: Seq<PanneauCall>, found: Seq<Seq<bool>>) -> Seq<
    (i8, Seq<Seq<char>>),
> {
    seasons_upto(calls, found, season_paths(calls).len())
}

proof fn lemma_listed_langs_nonempty(calls: Seq<PanneauCall>, p: Seq<char>)
    requires
        season_paths(calls).contains(p),
    ensures
        listed_langs(calls, p).len() > 0,
    decreases calls.len(),
{
    if calls.len() > 0 && calls.last().path != p {
        let before = season_paths(calls.drop_last());
        if !before.contains(calls.last().path) {
            let k = choose|k: int| 0 <= k < season_paths(calls).len() && season_paths(calls)[k] == p;
            assert(k < before.len());
            assert(before[k] == p);
        }
        lemma_listed_langs_nonempty(calls.drop_last(), p);
    }
}

proof fn lemma_seasons_upto(calls: Seq<PanneauCall>, found: Seq<Seq<bool>>, n: nat)
    requires
        n <= season_paths(calls).len(),
        n <= 127,
    ensures
        seasons_upto(calls, found, n).len() == n,
        forall|i: int|
            0 <= i < n ==> #[trigger] seasons_upto(calls, found, n)[i] == ((i + 1) as i8, season_langs(
                calls,
                found,
                i,
            )),
    decreases n,
{
    if n > 0 {
        lemma_seasons_upto(calls, found, (n - 1) as nat);
        let paths = season_paths(calls);
        assert(paths.contains(paths[n - 1]));
        lemma_listed_langs_nonempty(calls, paths[n - 1]);
        assert(season_langs(calls, found, n - 1).len() > 0);
    }
}

/// The seasons of an anime page: one per distinct season path, in order of
/// first appearance, the `i`-th numbered `i + 1`; each holds at least the
/// languages the page lists for its path.  And the number shown for a
/// season is the number under which its episodes are looked up: it selects
/// the same path.
pub proof fn lemma_seasons_numbered(calls: Seq<PanneauCall>, found: Seq<Seq<bool>>)
    requires
        season_paths(calls).len() <= 126,
    ensures
        seasons_of(calls, found).len() == season_paths(calls).len(),
        forall|i: int|
            0 <= i < season_paths(calls).len() ==> {
                let season = #[trigger] seasons_of(calls, found)[i];
                &&& season.0 == (i + 1) as i8
                &&& season.1 == season_langs(calls, found, i)
                &&& season.1.len() > 0
                &&& season_path_of(calls, season.0) == Some(season_paths(calls)[i])
            },
{
    let paths = season_paths(calls);
    lemma_seasons_upto(calls, found, paths.len());
    assert forall|i: int| 0 <= i < paths.len() implies {
        let season = #[trigger] seasons_of(calls, found)[i];
        &&& season.0 == (i + 1) as i8
        &&& season.1 == season_langs(calls, found, i)
        &&& season.1.len() > 0
        &&& season_path_of(calls, season.0) == Some(season_paths(calls)[i])
    } by {
        assert(paths.contains(paths[i]));
        lemma_listed_langs_nonempty(calls, paths[i]);
    }
}

fn season_paths_exec(entries: &Vec<(String, String, String)>) -> (r: Vec<String>)
    ensures
        strings_view(r@) == season_paths(calls_view(entries@)),
{
    let ghost calls = calls_view(entries@);
    let mut r: Vec<String> = Vec::new();
    let mut k: usize = 0;
    while k < entries.len()
        invariant
            k <= entries@.len(),
            calls == calls_view(entries@),
            strings_view(r@) == season_paths(calls.take(k as int)),
        decreases entries.len() - k,
    {
        proof {
            assert(calls.take(k + 1).drop_last() == calls.take(k as int));
        }
        let path = &entries[k].1;
        if !strings_contain(&r, path) {
            r.push(path.clone());
            proof {
                assert(strings_view(r@) == strings_view(r@.drop_last()).push(path@));
            }
        }
        k += 1;
    }
    proof {
        assert(calls.take(k as int) == calls);
    }
    r
}

fn listed_langs_exec(entries: &Vec<(String, String, String)>, path: &String) -> (r: Vec<String>)
    ensures
        strings_view(r@) == listed_langs(calls_view(entries@), path@),
{
    let ghost calls = calls_view(entries@);
    let mut r: Vec<String> = Vec::new();
    let mut k: usize = 0;
    while k < entries.len()
        invariant
            k <= entries@.len(),
            calls == calls_view(entries@),
            strings_view(r@) == listed_langs(calls.take(k as int), path@),
        decreases entries.len() - k,
    {
        proof {
            assert(calls.take(k + 1).drop_last() == calls.take(k as int));
        }
        if entries[k].1 == *path {
            r.push(entries[k].2.clone());
            proof {
                assert(strings_view(r@) == strings_view(r@.drop_last()).push(entries@[k as int].2@));
            }
        }
        k += 1;
    }
    proof {
        assert(calls.take(k as int) == calls);
    }
    r
}

fn langs_to_probe_exec(known: &Vec<String>) -> (r: Vec<String>)
    ensures
        strings_view(r@) == langs_to_probe(strings_view(known@)),
{
    let mut r: Vec<String> = Vec::new();
    let vostfr = String::from_str("vostfr");
    let vf = String::from_str("vf");
    let va = String::from_str("va");
    if !strings_contain(known, &vostfr) {
        r.push(vostfr);
    }
    if !strings_contain(known, &vf) {
        r.push(vf);
    }
    if !strings_contain(known, &va) {
        r.push(va);
    }
    proof {
        assert(strings_view(r@) =~= langs_to_probe(strings_view(known@)));
    }
    r
}

/// The season path numbered `season`: the distinct paths are numbered 1,
/// 2, ... in order of first appearance.
pub open spec fn season_path_of(calls: Seq<PanneauCall>, season: i8) -> Option<Seq<char>> {
    let paths = season_paths(calls);
    if 1 <= season <= paths.len() {
        Some(paths[season - 1])
    } else {
        None
    }
}

impl AnimeSama {
    /// The distinct season paths of an anime page's calls, in order of first
    /// appearance.
    pub fn season_paths(entries: &Vec<(String, String, String)>) -> (r: Vec<String>)
        ensures
            strings_view(r@) == season_paths(calls_view(entries@)),
    {
        season_paths_exec(entries)
    }

    /// The season path numbered `season` (paths are numbered from 1 by first
    /// appearance, with an `i8` counter that may not pass 127).
    pub fn find_season_path(entries: &Vec<(String, String, String)>, season: i8) -> (r: Option<String>)
        requires
            season_paths(calls_view(entries@)).len() <= 126,
        ensures
            match r {
                Some(p) => season_path_of(calls_view(entries@), season) == Some(p@),
                None => season_path_of(calls_view(entries@), season) is None,
            },
    {
        let paths = season_paths_exec(entries);
        if season >= 1 && (season as usize) <= paths.len() {
            let idx = (season - 1) as usize;
            proof {
                assert(strings_view(paths@)[idx as int] == paths@[idx as int]@);
            }
            Some(paths[idx].clone())
        } else {
            None
        }
    }

    /// Parse panneauAnime() calls from the anime page JS to extract seasons.
    /// Format: `panneauAnime("Saga 1 (East Blue)", "saison1/vostfr");` gives
    /// `(label, path, lang)`.
    pub fn parse_panneau_calls(html: &str) -> (r: Vec<(String, String, String)>)
        ensures
            calls_view(r@) == panneau_calls_from(html@, 0),
    {
        let found = panneau_calls(&chars_of(html));
        let mut r: Vec<(String, String, String)> = Vec::new();
        let mut k: usize = 0;
        while k < found.len()
            invariant
                k <= found@.len(),
                found@.len() == panneau_calls_from(html@, 0).len(),
                forall|j: int|
                    0 <= j < found@.len() ==> {
                        let c = panneau_calls_from(html@, 0)[j];
                        &&& (#[trigger] found@[j]).0@ == c.label
                        &&& found@[j].1@ == c.path
                        &&& found@[j].2@ == c.lang
                    },
                calls_view(r@) == panneau_calls_from(html@, 0).take(k as int),
            decreases found.len() - k,
        {
            let label = string_from_chars(&found[k].0);
            let path = string_from_chars(&found[k].1);
            let lang = string_from_chars(&found[k].2);
            let ghost before = r@;
            r.push((label, path, lang));
            proof {
                let want = panneau_calls_from(html@, 0).take(k + 1);
                assert(calls_view(before).len() == before.len());
                assert(before.len() == k);
                assert(r@.len() == k + 1);
                assert(want.len() == k + 1);
                assert(calls_view(r@).len() == want.len());
                assert forall|j: int| 0 <= j < want.len() implies calls_view(r@)[j] == want[j] by {
                    if j < k {
                        assert(r@[j] == before[j]);
                        assert(calls_view(before)[j] == calls_view(r@)[j]);
                    }
                }
                assert(calls_view(r@) =~= want);
            }
            k += 1;
        }
        proof {
            assert(panneau_calls_from(html@, 0).take(k as int) == panneau_calls_from(html@, 0));
        }
        r
    }

    /// The URL of the episode script of one season path and language.
    pub fn episodes_script_url(&self, slug: &str, path: &str, lang: &str) -> (r: String)
        ensures
            r@ == episodes_script_url(self.base(), slug@, path@, lang@),
    {
        let mut v = chars_of(self.base_url());
        v = concat(&v, &chars_of("/catalogue/"));
        v = concat(&v, &chars_of(slug));
        v = concat(&v, &chars_of("/"));
        v = concat(&v, &chars_of(path));
        v = concat(&v, &chars_of("/"));
        v = concat(&v, &chars_of(lang));
        v = concat(&v, &chars_of("/episodes.js"));
        string_from_chars(&v)
    }
}


/// The URL of the episode script of season `season` in language `lang`,
/// when the page has a path numbered `season`.
pub open spec fn season_script(
    base: Seq<char>,
    slug: Seq<char>,
    calls: Seq<PanneauCall>,
    season: i8,
    lang: Seq<char>,
) -> Option<Seq<char>> {
    match season_path_of(calls, season) {
        Some(path) => Some(episodes_script_url(base, slug, path, lang)),
        None => None,
    }
}

impl AnimeSama {
    /// The URL of the episode script of season `season` of an anime page in
    /// language `lang`: the script of the season path numbered `season`, or
    /// `SeasonNotFound` when the page has no such path.
    pub fn episodes_script_for(
        &self,
        anime: &AnimeResult,
        entries: &Vec<(String, String, String)>,
        season: i8,
        lang: &str,
    ) -> (r: Result<String, SourceError>)
        requires
            season_paths(calls_view(entries@)).len() <= 126,
        ensures
            match r {
                Ok(u) => season_script(self.base(), anime.slug@, calls_view(entries@), season, lang@)
                    == Some(u@),
                Err(e) => e is SeasonNotFound && season_script(
                    self.base(),
                    anime.slug@,
                    calls_view(entries@),
                    season,
                    lang@,
                ) is None,
            },
    {
        match Self::find_season_path(entries, season) {
            Some(path) => Ok(self.episodes_script_url(anime.slug.as_str(), path.as_str(), lang)),
            None => Err(SourceError::SeasonNotFound),
        }
    }
}

/// Every season that `seasons_from_probes` lists for a page is found again
/// on that page under its number, in any language: its episodes are read
/// from the script of the very path it was listed for, the one whose
/// languages were probed for it.
pub proof fn lemma_listed_seasons_have_scripts(
    base: Seq<char>,
    slug: Seq<char>,
    calls: Seq<PanneauCall>,
    found: Seq<Seq<bool>>,
    lang: Seq<char>,
)
    requires
        season_paths(calls).len() <= 126,
    ensures
        forall|i: int|
            0 <= i < seasons_of(calls, found).len() ==> season_script(
                base,
                slug,
                calls,
                (#[trigger] seasons_of(calls, found)[i]).0,
                lang,
            ) == Some(episodes_script_url(base, slug, season_paths(calls)[i], lang)),
{
    lemma_seasons_numbered(calls, found);
}

/// The view of a list of seasons: each season's number and languages.
pub open spec fn seasons_view(v: Seq<SeasonInfo>) -> Seq<(i8, Seq<Seq<char>>)> {
    v.map_values(|x: SeasonInfo| (x.number, strings_view(x.langs@)))
}

/// The view of a probe plan: for each season, its `(lang, url)` pairs.
pub open spec fn plan_view(v: Seq<Vec<(String, String)>>) -> Seq<Seq<(Seq<char>, Seq<char>)>> {
    v.map_values(
        |row: Vec<(String, String)>| row@.map_values(|p: (String, String)| (p.0@, p.1@)),
    )
}

/// The probes of one season path: each language to probe with its URL.
pub open spec fn path_probes(
    base: Seq<char>,
    slug: Seq<char>,
    calls: Seq<PanneauCall>,
    path: Seq<char>,
) -> Seq<(Seq<char>, Seq<char>)> {
    langs_to_probe(listed_langs(calls, path)).map_values(
        |lang: Seq<char>| (lang, episodes_script_url(base, slug, path, lang)),
    )
}

/// The views of a vector of answer rows.
pub open spec fn rows_view(v: Seq<Vec<bool>>) -> Seq<Seq<bool>> {
    v.map_values(|row: Vec<bool>| row@)
}

impl AnimeSama {
    /// For each season path of an anime page, in order, the languages that
    /// the page does not list and the URL of the episode script that shows
    /// whether the season exists in that language.
    pub fn season_probes(&self, anime: &AnimeResult, entries: &Vec<(String, String, String)>) -> (r: Vec<Vec<(String, String)>>)
        ensures
            plan_view(r@) == season_paths(calls_view(entries@)).map_values(
                |path: Seq<char>| path_probes(self.base(), anime.slug@, calls_view(entries@), path),
            ),
    {
        let ghost calls = calls_view(entries@);
        let ghost want = season_paths(calls).map_values(
            |path: Seq<char>| path_probes(self.base(), anime.slug@, calls, path),
        );
        let paths = season_paths_exec(entries);
        let mut r: Vec<Vec<(String, String)>> = Vec::new();
        let mut i: usize = 0;
        while i < paths.len()
            invariant
                i <= paths@.len(),
                calls == calls_view(entries@),
                strings_view(paths@) == season_paths(calls),
                want == season_paths(calls).map_values(
                    |path: Seq<char>| path_probes(self.base(), anime.slug@, calls, path),
                ),
                plan_view(r@) == want.take(i as int),
            decreases paths.len() - i,
        {
            let path = &paths[i];
            let known = listed_langs_exec(entries, path);
            let langs = langs_to_probe_exec(&known);
            let ghost lv = langs_to_probe(listed_langs(calls, path@));
            let mut row: Vec<(String, String)> = Vec::new();
            let mut j: usize = 0;
            while j < langs.len()
                invariant
                    j <= langs@.len(),
                    strings_view(langs@) == lv,
                    row@.map_values(|p: (String, String)| (p.0@, p.1@)) == lv.take(j as int).map_values(
                        |lang: Seq<char>| (lang, episodes_script_url(self.base(), anime.slug@, path@, lang)),
                    ),
                decreases langs.len() - j,
            {
                let url = self.episodes_script_url(anime.slug.as_str(), path.as_str(), langs[j].as_str());
                let ghost before = row@;
                row.push((langs[j].clone(), url));
                proof {
                    let g = |p: (String, String)| (p.0@, p.1@);
                    let h = |lang: Seq<char>| (lang, episodes_script_url(self.base(), anime.slug@, path@, lang));
                    assert(strings_view(langs@)[j as int] == langs@[j as int]@);
                    before.lemma_push_map_commute(g, (langs@[j as int], url));
                    lv.lemma_take_succ_push(j as int);
                    lv.take(j as int).lemma_push_map_commute(h, lv[j as int]);
                    assert(row@ == before.push((langs@[j as int], url)));
                    assert(row@.map_values(g) == lv.take(j + 1).map_values(h));
                }
                j += 1;
            }
            proof {
                assert(lv.take(j as int) == lv);
                assert(strings_view(paths@)[i as int] == path@);
                assert(want[i as int] == path_probes(self.base(), anime.slug@, calls, path@));
            }
            let ghost before = r@;
            r.push(row);
            proof {
                let g = |row: Vec<(String, String)>| row@.map_values(|p: (String, String)| (p.0@, p.1@));
                before.lemma_push_map_commute(g, r@[i as int]);
                want.lemma_take_succ_push(i as int);
                assert(plan_view(r@) =~= want.take(i + 1));
            }
            i += 1;
        }
        proof {
            assert(want.take(i as int) == want);
        }
        r
    }

    /// The seasons of an anime page: the `i`-th distinct season path, in
    /// order of first appearance, is season `i + 1` (as an `i8`); its
    /// languages are those the page lists for it, then those whose probe
    /// (`found[i][j]` for the `j`-th language of its probe plan) answered.
    /// Paths without any language are left out.
    pub fn seasons_from_probes(entries: &Vec<(String, String, String)>, found: &Vec<Vec<bool>>) -> (r: Vec<SeasonInfo>)
        ensures
            seasons_view(r@) == seasons_of(calls_view(entries@), rows_view(found@)),
    {
        let ghost calls = calls_view(entries@);
        let ghost fv = rows_view(found@);
        let paths = season_paths_exec(entries);
        let mut r: Vec<SeasonInfo> = Vec::new();
        let mut i: usize = 0;
        while i < paths.len()
            invariant
                i <= paths@.len(),
                calls == calls_view(entries@),
                fv == rows_view(found@),
                strings_view(paths@) == season_paths(calls),
                seasons_view(r@) == seasons_upto(calls, fv, i as nat),
            decreases paths.len() - i,
        {
            let path = &paths[i];
            let mut langs = listed_langs_exec(entries, path);
            let probed = langs_to_probe_exec(&langs);
            let ghost known = strings_view(langs@);
            let ghost pv = strings_view(probed@);
            let ghost row = probe_row(fv, i as int);
            let mut j: usize = 0;
            while j < probed.len()
                invariant
                    j <= probed@.len(),
                    pv == strings_view(probed@),
                    fv == rows_view(found@),
                    row == probe_row(fv, i as int),
                    strings_view(langs@) == known + confirmed_langs(pv, row, j as nat),
                decreases probed.len() - j,
            {
                if i < found.len() && j < found[i].len() && found[i][j] {
                    proof {
                        assert(row == found@[i as int]@);
                    }
                    let ghost before = langs@;
                    langs.push(probed[j].clone());
                    proof {
                        before.lemma_push_map_commute(|x: String| x@, probed@[j as int]);
                        assert(pv[j as int] == probed@[j as int]@);
                        assert(strings_view(langs@) == strings_view(before).push(pv[j as int]));
                        assert(confirmed_langs(pv, row, (j + 1) as nat) == confirmed_langs(pv, row, j as nat).push(pv[j as int]));
                        assert(strings_view(langs@) =~= known + confirmed_langs(pv, row, (j + 1) as nat));
                    }
                } else {
                    proof {
                        if i < found.len() {
                            assert(row == found@[i as int]@);
                        }
                        assert(confirmed_langs(pv, row, (j + 1) as nat) == confirmed_langs(pv, row, j as nat));
                    }
                }
                j += 1;
            }
            proof {
                assert(strings_view(paths@)[i as int] == path@);
                assert(known == listed_langs(calls, season_paths(calls)[i as int]));
                assert(strings_view(langs@) == season_langs(calls, fv, i as int));
            }
            if langs.len() > 0 {
                let number = #[verifier::truncate] ((i + 1) as i8);
                let ghost before = r@;
                r.push(SeasonInfo { number, langs });
                proof {
                    assert(seasons_view(r@) =~= seasons_view(before).push((number, season_langs(calls, fv, i as int))));
                }
            }
            i += 1;
        }
        r
    }
}


/// The `j`-th probe of the `i`-th season path answered.
pub open spec fn probe_answered(found: Seq<Seq<bool>>, i: int, j: int) -> bool {
    0 <= i < found.len() && 0 <= j < found[i].len() && found[i][j]
}

/// What the first `n` confirmed languages hold: each probed language among
/// the first `n` whose answer holds.
proof fn lemma_confirmed_langs_contains(langs: Seq<Seq<char>>, row: Seq<bool>, n: nat, x: Seq<char>)
    requires
        n <= langs.len(),
    ensures
        confirmed_langs(langs, row, n).contains(x) <==> exists|j: int|
            0 <= j < n && j < row.len() && row[j] && #[trigger] langs[j] == x,
    decreases n,
{
    if n > 0 {
        lemma_confirmed_langs_contains(langs, row, (n - 1) as nat, x);
        let before = confirmed_langs(langs, row, (n - 1) as nat);
        let m = (n - 1) as int;
        if m < row.len() && row[m] {
            if langs[m] == x {
                assert(before.push(langs[m])[before.len() as int] == x);
            }
            if before.push(langs[m]).contains(x) && langs[m] != x {
                let k = choose|k: int| 0 <= k < before.push(langs[m]).len() && before.push(langs[m])[k] == x;
                assert(before[k] == x);
            }
            if before.contains(x) {
                let k = choose|k: int| 0 <= k < before.len() && before[k] == x;
                assert(before.push(langs[m])[k] == x);
            }
        }
    }
}

/// `a + b` holds `x` when `a` or `b` does.
proof fn lemma_concat_contains(a: Seq<Seq<char>>, b: Seq<Seq<char>>, x: Seq<char>)
    ensures
        (a + b).contains(x) <==> a.contains(x) || b.contains(x),
{
    if (a + b).contains(x) {
        let k = choose|k: int| 0 <= k < (a + b).len() && (a + b)[k] == x;
        if k < a.len() {
            assert(a[k] == x);
        } else {
            assert(b[k - a.len()] == x);
        }
    }
    if a.contains(x) {
        let k = choose|k: int| 0 <= k < a.len() && a[k] == x;
        assert((a + b)[k] == x);
    }
    if b.contains(x) {
        let k = choose|k: int| 0 <= k < b.len() && b[k] == x;
        assert((a + b)[a.len() + k] == x);
    }
}

/// The languages of every listed season: the ones the page lists for its
/// path come first, in order; and a language is offered exactly when the
/// page lists it for that path or it is one of the languages probed for
/// that path (those of `season_probes`, in order) whose probe answered.
/// No answered probe is left unread.
pub proof fn lemma_season_languages(calls: Seq<PanneauCall>, found: Seq<Seq<bool>>)
    requires
        season_paths(calls).len() <= 126,
    ensures
        forall|i: int|
            0 <= i < seasons_of(calls, found).len() ==> {
                let langs = (#[trigger] seasons_of(calls, found)[i]).1;
                let listed = listed_langs(calls, season_paths(calls)[i]);
                let probed = langs_to_probe(listed);
                &&& langs.take(listed.len() as int) == listed
                &&& forall|x: Seq<char>|
                    langs.contains(x) <==> listed.contains(x) || exists|j: int|
                        0 <= j < probed.len() && probe_answered(found, i, j) && #[trigger] probed[j] == x
            },
{
    lemma_seasons_numbered(calls, found);
    assert forall|i: int| 0 <= i < seasons_of(calls, found).len() implies {
        let langs = (#[trigger] seasons_of(calls, found)[i]).1;
        let listed = listed_langs(calls, season_paths(calls)[i]);
        let probed = langs_to_probe(listed);
        &&& langs.take(listed.len() as int) == listed
        &&& forall|x: Seq<char>|
            langs.contains(x) <==> listed.contains(x) || exists|j: int|
                0 <= j < probed.len() && probe_answered(found, i, j) && #[trigger] probed[j] == x
    } by {
        let listed = listed_langs(calls, season_paths(calls)[i]);
        let probed = langs_to_probe(listed);
        let row = probe_row(found, i);
        let conf = confirmed_langs(probed, row, probed.len());
        let langs = seasons_of(calls, found)[i].1;
        assert(langs == listed + conf);
        assert(langs.take(listed.len() as int) =~= listed);
        assert forall|x: Seq<char>|
            langs.contains(x) <==> listed.contains(x) || exists|j: int|
                0 <= j < probed.len() && probe_answered(found, i, j) && #[trigger] probed[j] == x by {
            lemma_concat_contains(listed, conf, x);
            lemma_confirmed_langs_contains(probed, row, probed.len(), x);
            if exists|j: int| 0 <= j < probed.len() && probe_answered(found, i, j) && #[trigger] probed[j] == x {
                let j = choose|j: int| 0 <= j < probed.len() && probe_answered(found, i, j) && #[trigger] probed[j] == x;
                assert(j < row.len() && row[j]);
            }
            if exists|j: int| 0 <= j < probed.len() && j < row.len() && row[j] && #[trigger] probed[j] == x {
                let j = choose|j: int| 0 <= j < probed.len() && j < row.len() && row[j] && #[trigger] probed[j] == x;
                assert(probe_answered(found, i, j));
            }
        }
    }
}


/// The season paths of a page: each appears once, and a path is one of
/// them exactly when some call names it; a path that a call names before
/// the first call naming another comes before it.
pub proof fn lemma_season_paths(calls: Seq<PanneauCall>)
    ensures
        forall|a: int, b: int|
            0 <= a < b < season_paths(calls).len() ==> #[trigger] season_paths(calls)[a]
                != #[trigger] season_paths(calls)[b],
        forall|p: Seq<char>|
            season_paths(calls).contains(p) <==> exists|k: int|
                0 <= k < calls.len() && (#[trigger] calls[k]).path == p,
        forall|k: int|
            0 <= k < calls.len() ==> season_paths(calls.take(k)).contains((#[trigger] calls[k]).path)
                || season_paths(calls.take(k + 1)) == season_paths(calls.take(k)).push(calls[k].path),
    decreases calls.len(),
{
    if calls.len() > 0 {
        let init = calls.drop_last();
        lemma_season_paths(init);
        let before = season_paths(init);
        let last = calls.last();
        assert forall|a: int, b: int|
            0 <= a < b < season_paths(calls).len() implies #[trigger] season_paths(calls)[a]
                != #[trigger] season_paths(calls)[b] by {
            if b >= before.len() {
                assert(before[a] == season_paths(calls)[a]);
                assert(before.contains(before[a]));
            } else {
                assert(season_paths(calls)[a] == before[a] && season_paths(calls)[b] == before[b]);
            }
        }
        assert forall|p: Seq<char>|
            season_paths(calls).contains(p) <==> exists|k: int|
                0 <= k < calls.len() && (#[trigger] calls[k]).path == p by {
            if season_paths(calls).contains(p) {
                let j = choose|j: int| 0 <= j < season_paths(calls).len() && season_paths(calls)[j] == p;
                if j < before.len() {
                    assert(before[j] == p);
                    assert(before.contains(p));
                    let k = choose|k: int| 0 <= k < init.len() && (#[trigger] init[k]).path == p;
                    assert(calls[k] == init[k]);
                } else {
                    assert(calls[calls.len() - 1].path == p);
                }
            }
            if exists|k: int| 0 <= k < calls.len() && (#[trigger] calls[k]).path == p {
                let k = choose|k: int| 0 <= k < calls.len() && (#[trigger] calls[k]).path == p;
                if k < init.len() {
                    assert(init[k] == calls[k]);
                    assert(before.contains(p));
                    let j = choose|j: int| 0 <= j < before.len() && before[j] == p;
                    assert(season_paths(calls)[j] == p);
                } else if !before.contains(p) {
                    assert(season_paths(calls)[before.len() as int] == p);
                }
            }
        }
        assert forall|k: int|
            0 <= k < calls.len() implies season_paths(calls.take(k)).contains((#[trigger] calls[k]).path)
                || season_paths(calls.take(k + 1)) == season_paths(calls.take(k)).push(calls[k].path) by {
            assert(calls.take(k + 1).drop_last() == calls.take(k));
            assert(calls.take(k + 1).last() == calls[k]);
        }
    }
}

/// The languages the calls list for a path: a language is among them
/// exactly when some call names that path with it.
pub proof fn lemma_listed_langs(calls: Seq<PanneauCall>, path: Seq<char>)
    ensures
        forall|x: Seq<char>|
            listed_langs(calls, path).contains(x) <==> exists|k: int|
                0 <= k < calls.len() && (#[trigger] calls[k]).path == path && calls[k].lang == x,
    decreases calls.len(),
{
    if calls.len() > 0 {
        let init = calls.drop_last();
        lemma_listed_langs(init, path);
        let before = listed_langs(init, path);
        let now = listed_langs(calls, path);
        assert forall|x: Seq<char>|
            now.contains(x) <==> exists|k: int|
                0 <= k < calls.len() && (#[trigger] calls[k]).path == path && calls[k].lang == x by {
            if now.contains(x) {
                let j = choose|j: int| 0 <= j < now.len() && now[j] == x;
                if j < before.len() {
                    assert(before[j] == x);
                    assert(before.contains(x));
                    let k = choose|k: int|
                        0 <= k < init.len() && (#[trigger] init[k]).path == path && init[k].lang == x;
                    assert(calls[k] == init[k]);
                } else {
                    assert(calls[calls.len() - 1] == calls.last());
                }
            }
            if exists|k: int| 0 <= k < calls.len() && (#[trigger] calls[k]).path == path && calls[k].lang == x {
                let k = choose|k: int|
                    0 <= k < calls.len() && (#[trigger] calls[k]).path == path && calls[k].lang == x;
                if k < init.len() {
                    assert(init[k] == calls[k]);
                    assert(before.contains(x));
                    let j = choose|j: int| 0 <= j < before.len() && before[j] == x;
                    assert(now[j] == x);
                } else {
                    assert(now[before.len() as int] == x);
                }
            }
        }
    }
}

/// The languages probed for a path: among `vostfr`, `vf` and `va`, in that
/// order, exactly those the page does not list for it.
pub proof fn lemma_langs_to_probe(known: Seq<Seq<char>>)
    ensures
        forall|x: Seq<char>|
            langs_to_probe(known).contains(x) <==> (x == "vostfr"@ || x == "vf"@ || x == "va"@)
                && !known.contains(x),
        forall|a: int, b: int|
            0 <= a < b < langs_to_probe(known).len() ==> #[trigger] langs_to_probe(known)[a]
                != #[trigger] langs_to_probe(known)[b],
{
    reveal_strlit("vostfr");
    reveal_strlit("vf");
    reveal_strlit("va");
    let p1 = probe_if_missing(known, "vostfr"@);
    let p2 = probe_if_missing(known, "vf"@);
    let p3 = probe_if_missing(known, "va"@);
    let l = langs_to_probe(known);
    assert("vostfr"@ != "vf"@ && "vostfr"@ != "va"@ && "vf"@ != "va"@) by {
        assert("vostfr"@.len() != "vf"@.len());
        assert("vostfr"@.len() != "va"@.len());
        assert("vf"@[1] != "va"@[1]);
    }
    assert forall|x: Seq<char>|
        l.contains(x) <==> (x == "vostfr"@ || x == "vf"@ || x == "va"@) && !known.contains(x) by {
        lemma_concat_contains(p1 + p2, p3, x);
        lemma_concat_contains(p1, p2, x);
        if p1.contains(x) {
            let j = choose|j: int| 0 <= j < p1.len() && p1[j] == x;
        }
        if p2.contains(x) {
            let j = choose|j: int| 0 <= j < p2.len() && p2[j] == x;
        }
        if p3.contains(x) {
            let j = choose|j: int| 0 <= j < p3.len() && p3[j] == x;
        }
        if x == "vostfr"@ && !known.contains(x) {
            assert(p1[0] == x);
        }
        if x == "vf"@ && !known.contains(x) {
            assert(p2[0] == x);
        }
        if x == "va"@ && !known.contains(x) {
            assert(p3[0] == x);
        }
    }
}

} // verus!
