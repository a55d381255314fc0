//! The anime-sama catalogue: the logic of its search, season and episode
//! pages.

use vstd::prelude::*;
use crate::sources::pages::{
    eps_arrays, eps_arrays_from, quoted_links, quoted_links_from,
};
use crate::text::{chars_of, concat, contains, contains_exec, string_from_chars};

verus! {

/// Why a catalogue page yields nothing usable.
#[derive(Debug)]
pub enum SourceError {
    /// No season path carries the requested number.
    SeasonNotFound,
    /// The episode script lists no episode.
    NoEpisodes,
}

impl SourceError {
    /// The message shown to the user.
    pub fn message(&self) -> (r: &'static str)
        ensures
            r@ == match self {
                SourceError::SeasonNotFound => "Saison introuvable"@,
                SourceError::NoEpisodes => "Aucun épisode trouvé pour cette saison/langue"@,
            },
    {
        match self {
            SourceError::SeasonNotFound => "Saison introuvable",
            SourceError::NoEpisodes => "Aucun épisode trouvé pour cette saison/langue",
        }
    }
}

/// A catalogue client bound to one live base URL.
pub struct AnimeSama {
    /// Live base URL, resolved at startup.
    base_url: String,
}

impl AnimeSama {
    /// The base URL this client builds its requests from.
    pub closed spec fn base(&self) -> Seq<char> {
        self.base_url@
    }

    /// A client for the catalogue at `base_url`.
    pub fn new(base_url: String) -> (r: Self)
        ensures
            r.base() == base_url@,
    {
        AnimeSama { base_url }
    }

    /// The endpoint that answers search queries.
    pub fn search_url(&self) -> (r: String)
        ensures
            r@ == self.base() + "/template-php/defaut/fetch.php"@,
    {
        let v = concat(&chars_of(self.base_url.as_str()), &chars_of("/template-php/defaut/fetch.php"));
        string_from_chars(&v)
    }

    /// The form body of a search query (the query is sent as it is).
    pub fn search_body(query: &str) -> (r: String)
        ensures
            r@ == "query="@ + query@,
    {
        string_from_chars(&concat(&chars_of("query="), &chars_of(query)))
    }

    /// The base URL this client builds its requests from.
    pub fn base_url(&self) -> (r: &str)
        ensures
            r@ == self.base(),
    {
        self.base_url.as_str()
    }
}

/// Hosts whose links the downloader and player can handle, highest
/// priority first.
pub open spec fn supported_hosts() -> Seq<Seq<char>> {
    seq!["sibnet.ru"@, "vidmoly.to"@, "sendvid.com"@]
}

fn supported_hosts_exec() -> (r: Vec<Vec<char>>)
    ensures
        r@.len() == supported_hosts().len(),
        forall|k: int| 0 <= k < r@.len() ==> #[trigger] r@[k]@ == supported_hosts()[k],
{
    let mut r: Vec<Vec<char>> = Vec::new();
    r.push(chars_of("sibnet.ru"));
    r.push(chars_of("vidmoly.to"));
    r.push(chars_of("sendvid.com"));
    r
}

/// `url` points to one of the supported hosts.
pub open spec fn is_supported_link(url: Seq<char>) -> bool {
    exists|k: int| 0 <= k < supported_hosts().len() && contains(url, #[trigger] supported_hosts()[k])
}

fn is_supported_chars(url: &Vec<char>) -> (r: bool)
    ensures
        r == is_supported_link(url@),
{
    let hosts = supported_hosts_exec();
    let mut k: usize = 0;
    while k < hosts.len()
        invariant
            k <= hosts@.len(),
            hosts@.len() == supported_hosts().len(),
            forall|j: int| 0 <= j < hosts@.len() ==> #[trigger] hosts@[j]@ == supported_hosts()[j],
            forall|j: int| 0 <= j < k ==> !contains(url@, #[trigger] supported_hosts()[j]),
        decreases hosts.len() - k,
    {
        if contains_exec(url, &hosts[k]) {
            return true;
        }
        k += 1;
    }
    false
}

impl AnimeSama {
    /// Whether a URL points to a supported host.
    pub fn is_supported(url: &str) -> (r: bool)
        ensures
            r == is_supported_link(url@),
    {
        is_supported_chars(&chars_of(url))
    }
}


/// The longest of the link lists.
pub open spec fn max_links(sources: Seq<Seq<Seq<char>>>) -> nat
    decreases sources.len(),
{
    if sources.len() == 0 {
        0
    } else {
        let m = max_links(sources.drop_last());
        if sources.last().len() > m {
            sources.last().len()
        } else {
            m
        }
    }
}

/// The first list, from the `k`-th on, whose link at position `i` points to
/// host `h`.
pub open spec fn first_list_with_host(
    sources: Seq<Seq<Seq<char>>>,
    i: int,
    h: Seq<char>,
    k: int,
) -> Option<int>
    decreases sources.len() - k,
{
    if k < 0 || k >= sources.len() {
        None
    } else if i < sources[k].len() && contains(sources[k][i], h) {
        Some(k)
    } else {
        first_list_with_host(sources, i, h, k + 1)
    }
}

/// The link at position `i` from the highest-priority supported host (the
/// `hk`-th on), the lists tried in order for each host.
pub open spec fn best_host_link(sources: Seq<Seq<Seq<char>>>, i: int, hk: int) -> Option<
    Seq<char>,
>
    decreases supported_hosts().len() - hk,
{
    if hk < 0 || hk >= supported_hosts().len() {
        None
    } else {
        match first_list_with_host(sources, i, supported_hosts()[hk], 0) {
            Some(k) => Some(sources[k][i]),
            None => best_host_link(sources, i, hk + 1),
        }
    }
}

/// The link chosen for episode position `i`: the one from the
/// highest-priority supported host, the lists tried in order for each host;
/// nothing when no link at that position points to a supported host (links
/// to other hosts are skipped).
pub open spec fn episode_link(sources: Seq<Seq<Seq<char>>>, i: int) -> Seq<char> {
    match best_host_link(sources, i, 0) {
        Some(u) => u,
        None => seq![],
    }
}

/// The chosen links of the first `n` positions, in order, empty choices
/// left out.
pub open spec fn chosen_links(sources: Seq<Seq<Seq<char>>>, n: nat) -> Seq<Seq<char>>
    decreases n,
{
    if n == 0 {
        seq![]
    } else {
        let before = chosen_links(sources, (n - 1) as nat);
        let u = episode_link(sources, n - 1);
        if u.len() > 0 {
            before.push(u)
        } else {
            before
        }
    }
}

/// The chosen link of every episode position, empty choices left out.
pub open spec fn episode_links(sources: Seq<Seq<Seq<char>>>) -> Seq<Seq<char>> {
    chosen_links(sources, max_links(sources))
}

/// For each of the first `n` arrays that holds quoted links, those links.
pub open spec fn link_lists(arrays: Seq<Seq<char>>, n: nat) -> Seq<Seq<Seq<char>>>
    decreases n,
{
    if n == 0 {
        seq![]
    } else {
        let before = link_lists(arrays, (n - 1) as nat);
        let links = quoted_links_from(arrays[n - 1], 0);
        if links.len() > 0 {
            before.push(links)
        } else {
            before
        }
    }
}

/// The non-empty link lists of the `var epsN = [...]` arrays of a script,
/// in order.
pub open spec fn episode_sources(js: Seq<char>) -> Seq<Seq<Seq<char>>> {
    link_lists(eps_arrays_from(js, 0), eps_arrays_from(js, 0).len())
}

/// Views of a vector of link lists.
pub open spec fn lists_view(v: Seq<Vec<Vec<char>>>) -> Seq<Seq<Seq<char>>> {
    v.map_values(|l: Vec<Vec<char>>| l@.map_values(|u: Vec<char>| u@))
}

fn first_list_with_host_exec(sources: &Vec<Vec<Vec<char>>>, i: usize, h: &Vec<char>) -> (r: Option<usize>)
    ensures
        r matches Some(k) ==> first_list_with_host(lists_view(sources@), i as int, h@, 0) == Some(k as int),
        r is None ==> first_list_with_host(lists_view(sources@), i as int, h@, 0) is None,
{
    let ghost sv = lists_view(sources@);
    let mut k: usize = 0;
    while k < sources.len()
        invariant
            k <= sources@.len(),
            sv == lists_view(sources@),
            first_list_with_host(sv, i as int, h@, 0) == first_list_with_host(sv, i as int, h@, k as int),
        decreases sources.len() - k,
    {
        assert(sv[k as int] == sources@[k as int]@.map_values(|u: Vec<char>| u@));
        if i < sources[k].len() && contains_exec(&sources[k][i], h) {
            return Some(k);
        }
        k += 1;
    }
    None
}

fn best_host_link_exec(sources: &Vec<Vec<Vec<char>>>, i: usize, hosts: &Vec<Vec<char>>) -> (r: Option<usize>)
    requires
        hosts@.len() == supported_hosts().len(),
        forall|j: int| 0 <= j < hosts@.len() ==> #[trigger] hosts@[j]@ == supported_hosts()[j],
    ensures
        r matches Some(k) ==> k < sources@.len() && i < sources@[k as int]@.len()
            && best_host_link(lists_view(sources@), i as int, 0) == Some(sources@[k as int]@[i as int]@),
        r is None ==> best_host_link(lists_view(sources@), i as int, 0) is None,
{
    let ghost sv = lists_view(sources@);
    let mut hk: usize = 0;
    while hk < hosts.len()
        invariant
            hk <= hosts@.len(),
            hosts@.len() == supported_hosts().len(),
            forall|j: int| 0 <= j < hosts@.len() ==> #[trigger] hosts@[j]@ == supported_hosts()[j],
            sv == lists_view(sources@),
            best_host_link(sv, i as int, 0) == best_host_link(sv, i as int, hk as int),
        decreases hosts.len() - hk,
    {
        match first_list_with_host_exec(sources, i, &hosts[hk]) {
            Some(k) => {
                proof {
                    lemma_first_list_with_host(sv, i as int, supported_hosts()[hk as int], 0);
                    assert(sv[k as int] == sources@[k as int]@.map_values(|u: Vec<char>| u@));
                }
                return Some(k);
            },
            None => {},
        }
        hk += 1;
    }
    None
}

proof fn lemma_first_list_with_host(sources: Seq<Seq<Seq<char>>>, i: int, h: Seq<char>, k: int)
    ensures
        first_list_with_host(sources, i, h, k) matches Some(j) ==> k <= j < sources.len() && 0 <= j
            && i < sources[j].len() && contains(sources[j][i], h),
    decreases sources.len() - k,
{
    if 0 <= k < sources.len() && !(i < sources[k].len() && contains(sources[k][i], h)) {
        lemma_first_list_with_host(sources, i, h, k + 1);
    }
}

fn episode_link_exec(sources: &Vec<Vec<Vec<char>>>, i: usize, hosts: &Vec<Vec<char>>) -> (r: Vec<char>)
    requires
        hosts@.len() == supported_hosts().len(),
        forall|j: int| 0 <= j < hosts@.len() ==> #[trigger] hosts@[j]@ == supported_hosts()[j],
    ensures
        r@ == episode_link(lists_view(sources@), i as int),
{
    match best_host_link_exec(sources, i, hosts) {
        Some(k) => sources[k][i].clone(),
        None => Vec::new(),
    }
}

fn max_links_exec(sources: &Vec<Vec<Vec<char>>>) -> (r: usize)
    ensures
        r == max_links(lists_view(sources@)),
{
    let ghost sv = lists_view(sources@);
    let mut m: usize = 0;
    let mut k: usize = 0;
    while k < sources.len()
        invariant
            k <= sources@.len(),
            sv == lists_view(sources@),
            m == max_links(sv.take(k as int)),
        decreases sources.len() - k,
    {
        proof {
            assert(sv.take(k + 1).drop_last() == sv.take(k as int));
            assert(sv[k as int] == sources@[k as int]@.map_values(|u: Vec<char>| u@));
        }
        if sources[k].len() > m {
            m = sources[k].len();
        }
        k += 1;
    }
    proof {
        assert(sv.take(k as int) == sv);
    }
    m
}

/// The link lists of a script: for every `var epsN = [...]` array that holds
/// quoted links, those links in order.
fn episode_sources_exec(js: &Vec<char>) -> (r: Vec<Vec<Vec<char>>>)
    ensures
        lists_view(r@) == episode_sources(js@),
{
    let arrays = eps_arrays(js);
    let ghost all = eps_arrays_from(js@, 0);
    let mut r: Vec<Vec<Vec<char>>> = Vec::new();
    let mut j: usize = 0;
    while j < arrays.len()
        invariant
            j <= arrays@.len(),
            arrays@.len() == all.len(),
            forall|k: int| 0 <= k < arrays@.len() ==> #[trigger] arrays@[k]@ == all[k],
            lists_view(r@) == link_lists(all, j as nat),
        decreases arrays.len() - j,
    {
        let links = quoted_links(&arrays[j]);
        let ghost lv = links@.map_values(|u: Vec<char>| u@);
        proof {
            assert(arrays@[j as int]@ == all[j as int]);
            assert(lv =~= quoted_links_from(all[j as int], 0));
        }
        if links.len() > 0 {
            let ghost before = r@;
            r.push(links);
            proof {
                assert(lists_view(r@) =~= lists_view(before).push(lv));
            }
        }
        j += 1;
    }
    r
}

impl AnimeSama {
    /// The episodes of a season in one language, from its episode script:
    /// the links `parse_episodes_js` picks, or `NoEpisodes` when it picks
    /// none.
    pub fn episodes_from_script(js: &str) -> (r: Result<Vec<String>, SourceError>)
        ensures
            match r {
                Ok(v) => v@.len() > 0 && v@.len() == episode_links(episode_sources(js@)).len()
                    && forall|k: int| 0 <= k < v@.len() ==> #[trigger] v@[k]@ == episode_links(episode_sources(js@))[k],
                Err(e) => e is NoEpisodes && episode_links(episode_sources(js@)).len() == 0,
            },
    {
        let episodes = Self::parse_episodes_js(js);
        if episodes.len() == 0 {
            Err(SourceError::NoEpisodes)
        } else {
            Ok(episodes)
        }
    }

    /// Parse all `epsN` arrays of an `episodes.js` script and return the best
    /// URL of each episode: for every episode position, the link from the
    /// highest-priority supported host across all arrays.  A position whose
    /// links all point to unsupported hosts is skipped.
    pub fn parse_episodes_js(js: &str) -> (r: Vec<String>)
        ensures
            r@.len() == episode_links(episode_sources(js@)).len(),
            forall|k: int| 0 <= k < r@.len() ==> #[trigger] r@[k]@ == episode_links(episode_sources(js@))[k],
    {
        let chars = chars_of(js);
        let sources = episode_sources_exec(&chars);
        let ghost sv = lists_view(sources@);
        let hosts = supported_hosts_exec();
        let max_eps = max_links_exec(&sources);
        let mut best: Vec<String> = Vec::new();
        let mut i: usize = 0;
        while i < max_eps
            invariant
                i <= max_eps,
                sv == lists_view(sources@),
                sv == episode_sources(js@),
                max_eps == max_links(sv),
                hosts@.len() == supported_hosts().len(),
                forall|j: int| 0 <= j < hosts@.len() ==> #[trigger] hosts@[j]@ == supported_hosts()[j],
                best@.len() == chosen_links(sv, i as nat).len(),
                forall|k: int| 0 <= k < best@.len() ==> #[trigger] best@[k]@ == chosen_links(sv, i as nat)[k],
            decreases max_eps - i,
        {
            let url = episode_link_exec(&sources, i, &hosts);
            let ghost prev = chosen_links(sv, i as nat);
            if url.len() > 0 {
                let su = string_from_chars(&url);
                best.push(su);
                assert(chosen_links(sv, (i + 1) as nat) == prev.push(url@));
                assert forall|k: int| 0 <= k < best@.len() implies #[trigger] best@[k]@ == chosen_links(sv, (i + 1) as nat)[k] by {
                    if k < prev.len() {
                    }
                }
            }
            i += 1;
        }
        best
    }
}


proof fn lemma_first_list_with_host_found(sources: Seq<Seq<Seq<char>>>, i: int, h: Seq<char>, k: int, k0: int)
    requires
        0 <= k <= k0 < sources.len(),
        i < sources[k0].len(),
        contains(sources[k0][i], h),
    ensures
        first_list_with_host(sources, i, h, k) is Some,
    decreases k0 - k,
{
    if !(i < sources[k].len() && contains(sources[k][i], h)) {
        lemma_first_list_with_host_found(sources, i, h, k + 1, k0);
    }
}

proof fn lemma_best_host_link(sources: Seq<Seq<Seq<char>>>, i: int, hk: int)
    requires
        0 <= hk,
    ensures
        best_host_link(sources, i, hk) matches Some(u) ==> (exists|k: int|
            0 <= k < sources.len() && i < sources[k].len() && u == #[trigger] sources[k][i])
            && (exists|h: int| hk <= h < supported_hosts().len() && contains(u, #[trigger] supported_hosts()[h])),
        forall|h: int, k: int|
            hk <= h < supported_hosts().len() && 0 <= k < sources.len() && i < sources[k].len()
                && contains(#[trigger] sources[k][i], #[trigger] supported_hosts()[h])
                ==> (best_host_link(sources, i, hk) matches Some(u) && exists|h2: int|
                hk <= h2 <= h && contains(u, #[trigger] supported_hosts()[h2])),
    decreases supported_hosts().len() - hk,
{
    if hk < supported_hosts().len() {
        lemma_best_host_link(sources, i, hk + 1);
        lemma_first_list_with_host(sources, i, supported_hosts()[hk], 0);
        match first_list_with_host(sources, i, supported_hosts()[hk], 0) {
            Some(k) => {
                let u = sources[k][i];
                assert(contains(u, supported_hosts()[hk]));
            },
            None => {
                assert forall|h: int, k: int|
                    hk <= h < supported_hosts().len() && 0 <= k < sources.len() && i < sources[k].len()
                        && contains(#[trigger] sources[k][i], #[trigger] supported_hosts()[h])
                        implies (best_host_link(sources, i, hk) matches Some(u) && exists|h2: int|
                        hk <= h2 <= h && contains(u, #[trigger] supported_hosts()[h2])) by {
                    if h == hk {
                        lemma_first_list_with_host_found(sources, i, supported_hosts()[hk], 0, k);
                    }
                }
            },
        }
    }
}

/// `u` is the link that one of the lists holds at position `i`.
pub open spec fn link_at_position(sources: Seq<Seq<Seq<char>>>, i: int, u: Seq<char>) -> bool {
    exists|k: int| 0 <= k < sources.len() && i < sources[k].len() && u == #[trigger] sources[k][i]
}

/// Each chosen link is the chosen link of some position and is not empty.
proof fn lemma_chosen_links(sources: Seq<Seq<Seq<char>>>, n: nat)
    ensures
        chosen_links(sources, n).len() <= n,
        forall|j: int|
            0 <= j < chosen_links(sources, n).len() ==> exists|i: int|
                0 <= i < n && #[trigger] chosen_links(sources, n)[j] == episode_link(sources, i)
                    && episode_link(sources, i).len() > 0,
    decreases n,
{
    if n > 0 {
        lemma_chosen_links(sources, (n - 1) as nat);
        let before = chosen_links(sources, (n - 1) as nat);
        assert forall|j: int| 0 <= j < chosen_links(sources, n).len() implies exists|i: int|
            0 <= i < n && #[trigger] chosen_links(sources, n)[j] == episode_link(sources, i)
                && episode_link(sources, i).len() > 0 by {
            if j < before.len() {
                assert(chosen_links(sources, n)[j] == before[j]);
                let i = choose|i: int|
                    0 <= i < n - 1 && #[trigger] before[j] == episode_link(sources, i)
                        && episode_link(sources, i).len() > 0;
                assert(0 <= i < n && chosen_links(sources, n)[j] == episode_link(sources, i));
            } else {
                assert(chosen_links(sources, n)[j] == episode_link(sources, n - 1));
            }
        }
    }
}

/// Some list holds, at position `i`, a link to a supported host.
pub open spec fn has_supported_link_at(sources: Seq<Seq<Seq<char>>>, i: int) -> bool {
    exists|k: int, h: int|
        0 <= k < sources.len() && i < sources[k].len() && 0 <= h < supported_hosts().len()
            && contains(#[trigger] sources[k][i], #[trigger] supported_hosts()[h])
}

/// What the link chosen for a position is: a link to a supported host held
/// at that position when there is one, from a host at least as high in the
/// priority order as any link there; nothing when there is none.
pub proof fn lemma_episode_link(sources: Seq<Seq<Seq<char>>>, i: int)
    ensures
        episode_link(sources, i).len() > 0 ==> has_supported_link_at(sources, i),
        has_supported_link_at(sources, i) ==> link_at_position(sources, i, episode_link(sources, i))
            && is_supported_link(episode_link(sources, i)),
        forall|k: int, h: int|
            0 <= k < sources.len() && i < sources[k].len() && 0 <= h < supported_hosts().len()
                && contains(#[trigger] sources[k][i], #[trigger] supported_hosts()[h]) ==> exists|
                h2: int,
            |
                0 <= h2 <= h && contains(episode_link(sources, i), #[trigger] supported_hosts()[h2]),
{
    lemma_best_host_link(sources, i, 0);
    if let Some(u) = best_host_link(sources, i, 0) {
        let k = choose|k: int| 0 <= k < sources.len() && i < sources[k].len() && u == #[trigger] sources[k][i];
        let h = choose|h: int| 0 <= h < supported_hosts().len() && contains(u, #[trigger] supported_hosts()[h]);
        assert(contains(sources[k][i], supported_hosts()[h]));
        assert(link_at_position(sources, i, u));
    } else {
        if has_supported_link_at(sources, i) {
            let (k, h) = choose|k: int, h: int|
                0 <= k < sources.len() && i < sources[k].len() && 0 <= h < supported_hosts().len()
                    && contains(#[trigger] sources[k][i], #[trigger] supported_hosts()[h]);
            assert(best_host_link(sources, i, 0) is Some);
        }
    }
}

/// What the episode list of a script is made of.
///
/// Every array of the script that holds quoted links yields one list.  The
/// result takes, position by position up to the length of the longest
/// list, the chosen link of each position that has a link to a supported
/// host, and skips the others: every link in it points to a supported host
/// and is one of the links the lists hold at its position, and it comes
/// from a host at least as high in the priority order as any link there.
pub proof fn lemma_episode_links(js: Seq<char>)
    ensures
        episode_links(episode_sources(js)).len() <= max_links(episode_sources(js)),
        forall|j: int|
            0 <= j < episode_links(episode_sources(js)).len() ==> exists|i: int|
                0 <= i < max_links(episode_sources(js)) && #[trigger] episode_links(
                    episode_sources(js),
                )[j] == episode_link(episode_sources(js), i) && has_supported_link_at(
                    episode_sources(js),
                    i,
                ),
        forall|j: int|
            0 <= j < episode_links(episode_sources(js)).len() ==> is_supported_link(
                #[trigger] episode_links(episode_sources(js))[j],
            ),
{
    let sources = episode_sources(js);
    let links = episode_links(sources);
    let m = max_links(sources);
    lemma_chosen_links(sources, m);
    assert forall|j: int| 0 <= j < links.len() implies exists|i: int|
        0 <= i < m && #[trigger] links[j] == episode_link(sources, i) && has_supported_link_at(
            sources,
            i,
        ) by {
        let i = choose|i: int|
            0 <= i < m && #[trigger] links[j] == episode_link(sources, i) && episode_link(sources, i).len() > 0;
        lemma_episode_link(sources, i);
    }
    assert forall|j: int| 0 <= j < links.len() implies is_supported_link(#[trigger] links[j]) by {
        let i = choose|i: int|
            0 <= i < m && #[trigger] links[j] == episode_link(sources, i) && episode_link(sources, i).len() > 0;
        lemma_episode_link(sources, i);
    }
}


/// The `k`-th list holds, at position `i`, a link to host `h`.
pub open spec fn list_has_host_at(sources: Seq<Seq<Seq<char>>>, k: int, i: int, h: Seq<char>) -> bool {
    0 <= k < sources.len() && 0 <= i < sources[k].len() && contains(sources[k][i], h)
}

/// The list found for a host is the earliest one, from the `k`-th on, that
/// holds a link to it at position `i`; none is found when no such list
/// holds one.
proof fn lemma_first_list_earliest(sources: Seq<Seq<Seq<char>>>, i: int, h: Seq<char>, k: int)
    requires
        0 <= k,
        0 <= i,
    ensures
        match first_list_with_host(sources, i, h, k) {
            Some(j) => list_has_host_at(sources, j, i, h) && k <= j && forall|k2: int|
                k <= k2 < j ==> !#[trigger] list_has_host_at(sources, k2, i, h),
            None => forall|k2: int| k <= k2 ==> !#[trigger] list_has_host_at(sources, k2, i, h),
        },
    decreases sources.len() - k,
{
    if k < sources.len() && !(i < sources[k].len() && contains(sources[k][i], h)) {
        lemma_first_list_earliest(sources, i, h, k + 1);
    }
}

/// The link chosen from the `hk`-th host on: when some list holds at
/// position `i` a link to one of those hosts, the link of the earliest list
/// holding one to the first such host; nothing otherwise.
proof fn lemma_best_host_link_choice(sources: Seq<Seq<Seq<char>>>, i: int, hk: int)
    requires
        0 <= hk,
        0 <= i,
    ensures
        (exists|h: int, k: int|
            hk <= h < supported_hosts().len() && #[trigger] list_has_host_at(sources, k, i, supported_hosts()[h]))
            ==> (best_host_link(sources, i, hk) matches Some(u) && exists|h: int, k: int|
            {
                &&& hk <= h < supported_hosts().len()
                &&& #[trigger] list_has_host_at(sources, k, i, supported_hosts()[h])
                &&& u == sources[k][i]
                &&& forall|k2: int| 0 <= k2 < k ==> !list_has_host_at(sources, k2, i, supported_hosts()[h])
                &&& forall|h2: int, k2: int|
                    hk <= h2 < h ==> !list_has_host_at(sources, k2, i, supported_hosts()[h2])
            }),
        !(exists|h: int, k: int|
            hk <= h < supported_hosts().len() && #[trigger] list_has_host_at(sources, k, i, supported_hosts()[h]))
            ==> best_host_link(sources, i, hk) is None,
    decreases supported_hosts().len() - hk,
{
    if hk < supported_hosts().len() {
        let host = supported_hosts()[hk];
        lemma_first_list_earliest(sources, i, host, 0);
        lemma_best_host_link_choice(sources, i, hk + 1);
        match first_list_with_host(sources, i, host, 0) {
            Some(k) => {
                assert(list_has_host_at(sources, k, i, supported_hosts()[hk]));
            },
            None => {
                if exists|h: int, k: int|
                    hk <= h < supported_hosts().len() && #[trigger] list_has_host_at(sources, k, i, supported_hosts()[h]) {
                    let (h, k) = choose|h: int, k: int|
                        hk <= h < supported_hosts().len() && #[trigger] list_has_host_at(sources, k, i, supported_hosts()[h]);
                    assert(h != hk);
                    assert(list_has_host_at(sources, k, i, supported_hosts()[h]));
                    let u = best_host_link(sources, i, hk + 1)->0;
                    let (h1, k1) = choose|h1: int, k1: int|
                    {
                        &&& hk + 1 <= h1 < supported_hosts().len()
                        &&& #[trigger] list_has_host_at(sources, k1, i, supported_hosts()[h1])
                        &&& u == sources[k1][i]
                        &&& forall|k2: int| 0 <= k2 < k1 ==> !list_has_host_at(sources, k2, i, supported_hosts()[h1])
                        &&& forall|h2: int, k2: int|
                            hk + 1 <= h2 < h1 ==> !list_has_host_at(sources, k2, i, supported_hosts()[h2])
                    };
                    assert forall|h2: int, k2: int| hk <= h2 < h1 implies !list_has_host_at(sources, k2, i, supported_hosts()[h2]) by {
                        if h2 == hk {
                            if k2 >= 0 {
                                assert(!list_has_host_at(sources, k2, i, host));
                            }
                        }
                    }
                } else {
                    assert forall|h: int, k: int|
                        hk + 1 <= h < supported_hosts().len() implies !#[trigger] list_has_host_at(sources, k, i, supported_hosts()[h]) by {
                    }
                }
            },
        }
    }
}

/// Which link a position gets.  When some list holds at position `i` a
/// link to a supported host, take the first host in priority order that
/// one does: the chosen link is that of the earliest list, in script order,
/// holding at `i` a link to that host; no list holds there a link to a host
/// of higher priority, and no earlier list holds there a link to that
/// host.  When none does, nothing is chosen.
pub proof fn lemma_episode_link_choice(sources: Seq<Seq<Seq<char>>>, i: int)
    requires
        0 <= i,
    ensures
        has_supported_link_at(sources, i) ==> exists|h: int, k: int|
            {
                &&& 0 <= h < supported_hosts().len()
                &&& #[trigger] list_has_host_at(sources, k, i, supported_hosts()[h])
                &&& episode_link(sources, i) == sources[k][i]
                &&& forall|k2: int| 0 <= k2 < k ==> !list_has_host_at(sources, k2, i, supported_hosts()[h])
                &&& forall|h2: int, k2: int|
                    0 <= h2 < h ==> !list_has_host_at(sources, k2, i, supported_hosts()[h2])
            },
        !has_supported_link_at(sources, i) ==> episode_link(sources, i) == Seq::<char>::empty(),
{
    lemma_best_host_link_choice(sources, i, 0);
    if has_supported_link_at(sources, i) {
        let (k, h) = choose|k: int, h: int|
            0 <= k < sources.len() && i < sources[k].len() && 0 <= h < supported_hosts().len()
                && contains(#[trigger] sources[k][i], #[trigger] supported_hosts()[h]);
        assert(list_has_host_at(sources, k, i, supported_hosts()[h]));
    } else {
        assert forall|h: int, k: int|
            0 <= h < supported_hosts().len() implies !#[trigger] list_has_host_at(sources, k, i, supported_hosts()[h]) by {
            if list_has_host_at(sources, k, i, supported_hosts()[h]) {
                assert(contains(sources[k][i], supported_hosts()[h]));
            }
        }
    }
}


/// The longest list's length: no list is longer, and, when there is a
/// list, one has exactly that length.
pub proof fn lemma_max_links(sources: Seq<Seq<Seq<char>>>)
    ensures
        forall|k: int| 0 <= k < sources.len() ==> #[trigger] sources[k].len() <= max_links(sources),
        sources.len() > 0 ==> exists|k: int|
            0 <= k < sources.len() && #[trigger] sources[k].len() == max_links(sources),
        sources.len() == 0 ==> max_links(sources) == 0,
    decreases sources.len(),
{
    if sources.len() > 0 {
        let init = sources.drop_last();
        lemma_max_links(init);
        assert forall|k: int| 0 <= k < sources.len() implies #[trigger] sources[k].len() <= max_links(sources) by {
            if k < init.len() {
                assert(sources[k] == init[k]);
            }
        }
        if sources.last().len() <= max_links(init) && init.len() > 0 {
            let k = choose|k: int| 0 <= k < init.len() && #[trigger] init[k].len() == max_links(init);
            assert(sources[k] == init[k]);
        }
        if init.len() == 0 {
            assert(sources[0].len() == max_links(sources));
        }
    }
}

/// A link to a supported host is not empty.
proof fn lemma_supported_link_nonempty(u: Seq<char>)
    requires
        is_supported_link(u),
    ensures
        u.len() > 0,
{
    reveal_strlit("sibnet.ru");
    reveal_strlit("vidmoly.to");
    reveal_strlit("sendvid.com");
    let h = choose|h: int| 0 <= h < supported_hosts().len() && contains(u, #[trigger] supported_hosts()[h]);
    assert(supported_hosts()[h].len() > 0);
}

/// The episode list grows position by position: position `n` adds its
/// chosen link after those of the positions before it when some list holds
/// there a link to a supported host, and adds nothing otherwise.  So every
/// such position gives exactly one episode, in position order.
pub proof fn lemma_chosen_links_step(sources: Seq<Seq<Seq<char>>>, n: nat)
    ensures
        chosen_links(sources, n + 1) == if has_supported_link_at(sources, n as int) {
            chosen_links(sources, n).push(episode_link(sources, n as int))
        } else {
            chosen_links(sources, n)
        },
{
    lemma_episode_link(sources, n as int);
    if has_supported_link_at(sources, n as int) {
        lemma_supported_link_nonempty(episode_link(sources, n as int));
    }
    assert((n + 1) as nat - 1 == n);
}

} // verus!
