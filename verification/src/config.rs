//! Resilient base-URL resolution for the catalogue.
//!
//! The catalogue rotates its domain regularly (`.to`, `.xyz`, `.org`, `.fr`,
//! ...), so the base URL is resolved at startup from, in order of
//! precedence: an explicit override, used as it is; a mirror list from the
//! environment or the user's config file, probed in order, first reachable
//! wins; the built-in mirror list, probed the same way.  This module holds
//! the decisions; reading the environment and files and sending the probes
//! is the caller's part.

use vstd::prelude::*;
use crate::text::{
    Separators, chars_of, concat, ends_with, is_separator, is_white_space, join, join_strings,
    lemma_split_joined_lines, lemma_trim_end_char_last, lemma_trim_ends, lemma_trim_identity,
    occurs_at_exec, split_chars, split_pieces, starts_with, string_from_chars,
    strings_view, trim, trim_chars, trim_end_char, trim_end_char_chars,
};

verus! {

/// The header of the mirror config file written on first run.
pub const CONFIG_HEADER: &'static str = "# ani-dl — miroirs anime-sama\n\
     #\n\
     # Un domaine par ligne, testé de haut en bas : le premier qui répond est utilisé.\n\
     # anime-sama change régulièrement de domaine — ajoute ou réordonne les lignes ici\n\
     # sans avoir à recompiler. Lignes vides et lignes commençant par # ignorées.\n\
     #\n\
     # Override ponctuel : ANIME_SAMA_BASE_URL=https://mon-domaine ani-dl\n\
     \n";

/// Built-in fallback mirrors, tried in order when no list is configured.
pub open spec fn default_mirrors() -> Seq<Seq<char>> {
    seq![
        "https://anime-sama.to"@,
        "https://anime-sama.xyz"@,
        "https://anime-sama.org"@,
        "https://anime-sama.fr"@,
    ]
}

/// Built-in fallback mirrors, tried in order when no list is configured.
pub fn default_mirrors_list() -> (r: Vec<String>)
    ensures
        strings_view(r@) == default_mirrors(),
{
    let mut r: Vec<String> = Vec::new();
    r.push(String::from_str("https://anime-sama.to"));
    r.push(String::from_str("https://anime-sama.xyz"));
    r.push(String::from_str("https://anime-sama.org"));
    r.push(String::from_str("https://anime-sama.fr"));
    proof {
        assert(strings_view(r@) =~= default_mirrors());
    }
    r
}

/// A mirror with surrounding white space and trailing slashes removed, and
/// `https://` put in front unless it already starts with `http://` or
/// `https://`.
pub open spec fn normalized(url: Seq<char>) -> Seq<char> {
    let t = trim_end_char(trim(url), '/');
    if starts_with(t, "http://"@) || starts_with(t, "https://"@) {
        t
    } else {
        "https://"@ + t
    }
}

fn normalize_chars(url: &Vec<char>) -> (r: Vec<char>)
    ensures
        r@ == normalized(url@),
{
    let t = trim_end_char_chars(&trim_chars(url), '/');
    if occurs_at_exec(&t, 0, &chars_of("http://")) || occurs_at_exec(&t, 0, &chars_of("https://")) {
        t
    } else {
        concat(&chars_of("https://"), &t)
    }
}

/// Normalize a mirror: ensure an `https://` scheme, drop any trailing slash.
pub fn normalize(url: &str) -> (r: String)
    ensures
        r@ == normalized(url@),
{
    string_from_chars(&normalize_chars(&chars_of(url)))
}

/// A trimmed line or entry of a mirror list names something: it is neither
/// blank nor a `#` comment.
pub open spec fn is_mirror_entry(t: Seq<char>) -> bool {
    t.len() > 0 && !starts_with(t, "#"@)
}

/// The mirrors that the comma-separated entries of a line name, normalized,
/// in order (blank and `#` entries are skipped).
pub open spec fn mirrors_of(pieces: Seq<Seq<char>>) -> Seq<Seq<char>>
    decreases pieces.len(),
{
    if pieces.len() == 0 {
        seq![]
    } else {
        let before = mirrors_of(pieces.drop_last());
        let t = trim(pieces.last());
        if is_mirror_entry(t) {
            before.push(normalized(t))
        } else {
            before
        }
    }
}

/// The mirrors that one line of a list names: none for a blank line or a
/// `#` comment line, whatever it holds; else those of its comma-separated
/// entries.
pub open spec fn line_mirrors(line: Seq<char>) -> Seq<Seq<char>> {
    if is_mirror_entry(trim(line)) {
        mirrors_of(split_pieces(line, Separators::Comma))
    } else {
        seq![]
    }
}

/// The mirrors that a sequence of lines names, line after line.
pub open spec fn mirrors_of_lines(lines: Seq<Seq<char>>) -> Seq<Seq<char>>
    decreases lines.len(),
{
    if lines.len() == 0 {
        seq![]
    } else {
        mirrors_of_lines(lines.drop_last()) + line_mirrors(lines.last())
    }
}

/// The mirrors of a list: one or more per line, entries on a line
/// separated by commas.
pub open spec fn mirror_list(raw: Seq<char>) -> Seq<Seq<char>> {
    mirrors_of_lines(split_pieces(raw, Separators::Line))
}

/// Pushes the mirrors that the comma-separated entries of `line` name.
fn push_line_mirrors(line: &Vec<char>, out: &mut Vec<String>)
    ensures
        strings_view(final(out)@) == strings_view(old(out)@) + mirrors_of(
            split_pieces(line@, Separators::Comma),
        ),
{
    let pieces = split_chars(line, &Separators::Comma);
    let ghost p = split_pieces(line@, Separators::Comma);
    let ghost start = strings_view(out@);
    let hash = chars_of("#");
    let mut k: usize = 0;
    while k < pieces.len()
        invariant
            k <= pieces@.len(),
            pieces@.len() == p.len(),
            forall|j: int| 0 <= j < pieces@.len() ==> #[trigger] pieces@[j]@ == p[j],
            hash@ == "#"@,
            strings_view(out@) == start + mirrors_of(p.take(k as int)),
        decreases pieces.len() - k,
    {
        proof {
            assert(p.take(k + 1).drop_last() == p.take(k as int));
            assert(pieces@[k as int]@ == p[k as int]);
        }
        let t = trim_chars(&pieces[k]);
        if t.len() > 0 && !occurs_at_exec(&t, 0, &hash) {
            let ghost before = out@;
            out.push(string_from_chars(&normalize_chars(&t)));
            proof {
                assert(strings_view(out@) =~= strings_view(before).push(normalized(t@)));
                assert((start + mirrors_of(p.take(k as int))).push(normalized(t@)) =~= start
                    + mirrors_of(p.take(k as int)).push(normalized(t@)));
            }
        }
        k += 1;
    }
    proof {
        assert(p.take(k as int) == p);
    }
}

/// Parse a mirror list: one line per mirror, or several separated by
/// commas; blank lines and lines starting with `#` are ignored whole.
pub fn parse_mirror_list(raw: &str) -> (r: Vec<String>)
    ensures
        strings_view(r@) == mirror_list(raw@),
{
    let lines = split_chars(&chars_of(raw), &Separators::Line);
    let ghost l = split_pieces(raw@, Separators::Line);
    let hash = chars_of("#");
    let mut r: Vec<String> = Vec::new();
    let mut k: usize = 0;
    while k < lines.len()
        invariant
            k <= lines@.len(),
            lines@.len() == l.len(),
            forall|j: int| 0 <= j < lines@.len() ==> #[trigger] lines@[j]@ == l[j],
            hash@ == "#"@,
            strings_view(r@) == mirrors_of_lines(l.take(k as int)),
        decreases lines.len() - k,
    {
        proof {
            assert(l.take(k + 1).drop_last() == l.take(k as int));
            assert(lines@[k as int]@ == l[k as int]);
        }
        let t = trim_chars(&lines[k]);
        if t.len() > 0 && !occurs_at_exec(&t, 0, &hash) {
            push_line_mirrors(&lines[k], &mut r);
        } else {
            proof {
                assert(mirrors_of_lines(l.take(k as int)) + line_mirrors(l[k as int])
                    =~= mirrors_of_lines(l.take(k as int)));
            }
        }
        k += 1;
    }
    proof {
        assert(l.take(k as int) == l);
    }
    r
}

/// Each entry of `list` followed by a newline.
pub open spec fn lines_of(list: Seq<Seq<char>>) -> Seq<char>
    decreases list.len(),
{
    if list.len() == 0 {
        seq![]
    } else {
        lines_of(list.drop_last()) + list.last() + "\n"@
    }
}

/// Self-documenting default contents of the mirror config file: the header,
/// then the built-in mirrors, one per line.
pub fn default_config_contents() -> (r: String)
    ensures
        r@ == CONFIG_HEADER@ + lines_of(default_mirrors()),
{
    let mirrors = default_mirrors_list();
    let mut v = chars_of(CONFIG_HEADER);
    let newline = chars_of("\n");
    let mut k: usize = 0;
    while k < mirrors.len()
        invariant
            k <= mirrors@.len(),
            strings_view(mirrors@) == default_mirrors(),
            newline@ == "\n"@,
            v@ == CONFIG_HEADER@ + lines_of(default_mirrors().take(k as int)),
        decreases mirrors.len() - k,
    {
        proof {
            assert(default_mirrors().take(k + 1).drop_last() == default_mirrors().take(k as int));
            assert(strings_view(mirrors@)[k as int] == mirrors@[k as int]@);
        }
        v = concat(&v, &chars_of(mirrors[k].as_str()));
        v = concat(&v, &newline);
        k += 1;
    }
    proof {
        assert(default_mirrors().take(k as int) == default_mirrors());
    }
    string_from_chars(&v)
}

/// The candidate mirrors, in the order they are probed: the list from the
/// environment when it names any, else the config file's list when it names
/// any, else the built-in list.
pub open spec fn candidates(env_list: Option<Seq<char>>, config_file: Option<Seq<char>>) -> Seq<
    Seq<char>,
> {
    if env_list is Some && mirror_list(env_list->0).len() > 0 {
        mirror_list(env_list->0)
    } else if config_file is Some && mirror_list(config_file->0).len() > 0 {
        mirror_list(config_file->0)
    } else {
        default_mirrors()
    }
}

/// The view of an optional string slice.
pub open spec fn opt_view(s: Option<&str>) -> Option<Seq<char>> {
    match s {
        Some(s) => Some(s@),
        None => None,
    }
}

/// The environment's mirror list, when it names any mirror.
pub fn mirrors_from_env(env_list: Option<&str>) -> (r: Option<Vec<String>>)
    ensures
        match r {
            Some(v) => env_list is Some && mirror_list(env_list->0@).len() > 0 && strings_view(v@)
                == mirror_list(env_list->0@),
            None => !(env_list is Some && mirror_list(env_list->0@).len() > 0),
        },
{
    if let Some(raw) = env_list {
        let list = parse_mirror_list(raw);
        if list.len() > 0 {
            return Some(list);
        }
    }
    None
}

/// The config file's mirror list when it names any mirror, else the
/// built-in list (`None` when the file cannot be read).
pub fn mirrors_from_config(config_file: Option<&str>) -> (r: Vec<String>)
    ensures
        strings_view(r@) == candidates(None, opt_view(config_file)),
{
    if let Some(contents) = config_file {
        let list = parse_mirror_list(contents);
        if list.len() > 0 {
            return list;
        }
    }
    default_mirrors_list()
}

/// Build the ordered candidate list from the environment's mirror list
/// (`None` when it is not set), the config file's contents (`None` when it
/// cannot be read), or the defaults.
pub fn candidate_mirrors(env_list: Option<&str>, config_file: Option<&str>) -> (r: Vec<String>)
    ensures
        strings_view(r@) == candidates(opt_view(env_list), opt_view(config_file)),
{
    match mirrors_from_env(env_list) {
        Some(list) => list,
        None => mirrors_from_config(config_file),
    }
}

/// The base URL that an explicit override names: the override trimmed and
/// normalized, unless it is blank.
pub open spec fn override_url(value: Option<Seq<char>>) -> Option<Seq<char>> {
    match value {
        Some(v) => if trim(v).len() > 0 {
            Some(normalized(trim(v)))
        } else {
            None
        },
        None => None,
    }
}

/// The base URL forced by the override variable's value, if it names one
/// (no probing then).
pub fn base_url_override(value: Option<&str>) -> (r: Option<String>)
    ensures
        match r {
            Some(u) => override_url(opt_view(value)) == Some(u@),
            None => override_url(opt_view(value)) is None,
        },
{
    match value {
        Some(v) => {
            let t = trim_chars(&chars_of(v));
            if t.len() > 0 {
                Some(string_from_chars(&normalize_chars(&t)))
            } else {
                None
            }
        },
        None => None,
    }
}

/// A mirror is healthy when the status of its root page
/// (redirects followed) is below 400.
pub fn is_healthy_status(status: u16) -> (r: bool)
    ensures
        r == (status < 400),
{
    status < 400
}

/// The error shown when no mirror answers.
pub fn unreachable_message(candidates: &Vec<String>, config_path: &str) -> (r: String)
    ensures
        r@ == "Aucun miroir anime-sama joignable.\nMiroirs testés : "@ + join(
            strings_view(candidates@),
            ", "@,
        ) + "\n→ Édite "@ + config_path@
            + " pour ajouter/réordonner un domaine à jour,\n→ ou force-le : ANIME_SAMA_BASE_URL=https://nouveau-domaine ani-dl"@,
{
    let mut v = chars_of("Aucun miroir anime-sama joignable.\nMiroirs testés : ");
    v = concat(&v, &join_strings(candidates, ", "));
    v = concat(&v, &chars_of("\n→ Édite "));
    v = concat(&v, &chars_of(config_path));
    v = concat(
        &v,
        &chars_of(
            " pour ajouter/réordonner un domaine à jour,\n→ ou force-le : ANIME_SAMA_BASE_URL=https://nouveau-domaine ani-dl",
        ),
    );
    string_from_chars(&v)
}


/// What the caller does next while resolving the base URL.
#[derive(Debug)]
pub enum ProbeAction {
    /// Probe this mirror, then report whether it answered.
    Probe(String),
    /// This mirror answered: it is the base URL.
    Use(String),
    /// No candidate answered.
    GiveUp,
}

/// The view of a probe action: `Probe` is 0, `Use` is 1, `GiveUp` is 2,
/// with the mirror it names (empty for `GiveUp`).
pub open spec fn action_view(a: ProbeAction) -> (int, Seq<char>) {
    match a {
        ProbeAction::Probe(u) => (0, u@),
        ProbeAction::Use(u) => (1, u@),
        ProbeAction::GiveUp => (2, seq![]),
    }
}

/// What to do once the first `dead` candidates have not answered: probe
/// the next one, or give up when none is left.
pub open spec fn next_action(candidates: Seq<Seq<char>>, dead: int) -> (int, Seq<char>) {
    if 0 <= dead < candidates.len() {
        (0, candidates[dead])
    } else {
        (2, seq![])
    }
}

/// The probing of the candidate mirrors, one at a time, in order: the
/// first that answers is used.
pub struct MirrorProbe {
    candidates: Vec<String>,
    dead: usize,
}

impl MirrorProbe {
    /// The candidates, in probing order.
    pub closed spec fn candidates(&self) -> Seq<Seq<char>> {
        strings_view(self.candidates@)
    }

    /// How many candidates, from the first, did not answer.
    pub closed spec fn dead(&self) -> nat {
        self.dead as nat
    }

    /// Starts probing: the first action is to probe the first candidate.
    pub fn start(candidates: Vec<String>) -> (r: (MirrorProbe, ProbeAction))
        ensures
            r.0.candidates() == strings_view(candidates@),
            r.0.dead() == 0,
            action_view(r.1) == next_action(strings_view(candidates@), 0),
    {
        let action = if candidates.len() > 0 {
            proof {
                assert(strings_view(candidates@)[0] == candidates@[0]@);
            }
            ProbeAction::Probe(candidates[0].clone())
        } else {
            ProbeAction::GiveUp
        };
        (MirrorProbe { candidates, dead: 0 }, action)
    }

    /// Reports whether the candidate last asked for answered.  An answer
    /// selects it; silence moves on to the next candidate.  Once every
    /// candidate is dead the answer is to give up.
    pub fn answer(&mut self, alive: bool) -> (a: ProbeAction)
        ensures
            final(self).candidates() == old(self).candidates(),
            old(self).dead() >= old(self).candidates().len() ==> final(self).dead() == old(
                self,
            ).dead() && action_view(a) == (2int, Seq::<char>::empty()),
            old(self).dead() < old(self).candidates().len() && alive ==> final(self).dead() == old(
                self,
            ).dead() && action_view(a) == (1int, old(self).candidates()[old(self).dead() as int]),
            old(self).dead() < old(self).candidates().len() && !alive ==> final(self).dead() == old(
                self,
            ).dead() + 1 && action_view(a) == next_action(
                old(self).candidates(),
                old(self).dead() + 1int,
            ),
    {
        if self.dead >= self.candidates.len() {
            return ProbeAction::GiveUp;
        }
        if alive {
            proof {
                assert(strings_view(self.candidates@)[self.dead as int] == self.candidates@[self.dead as int]@);
            }
            return ProbeAction::Use(self.candidates[self.dead].clone());
        }
        self.dead = self.dead + 1;
        if self.dead < self.candidates.len() {
            proof {
                assert(strings_view(self.candidates@)[self.dead as int] == self.candidates@[self.dead as int]@);
            }
            ProbeAction::Probe(self.candidates[self.dead].clone())
        } else {
            ProbeAction::GiveUp
        }
    }

    /// The candidates, in probing order (for the error report).
    pub fn candidate_list(&self) -> (r: &Vec<String>)
        ensures
            strings_view(r@) == self.candidates(),
    {
        &self.candidates
    }
}


/// A mirror file written as lines: its mirrors are, line after line,
/// those of the lines that are neither blank nor `#` comments.
pub proof fn lemma_mirror_file_lines(lines: Seq<Seq<char>>)
    requires
        lines.len() >= 1,
        forall|k: int, i: int|
            0 <= k < lines.len() && 0 <= i < lines[k].len() ==> #[trigger] lines[k][i] != '\n',
    ensures
        mirror_list(join(lines, "\n"@)) == mirrors_of_lines(lines),
{
    assert forall|k: int, i: int|
        0 <= k < lines.len() && 0 <= i < lines[k].len() implies !is_separator(
        Separators::Line,
        #[trigger] lines[k][i],
    ) by {}
    lemma_split_joined_lines(lines);
}

/// A normalized mirror carries a scheme; unless nothing is left of it once
/// white space and trailing slashes are gone, it does not end with a slash;
/// and when what is left does not end with white space, normalizing it
/// again changes nothing.
pub proof fn lemma_normalized(url: Seq<char>)
    ensures
        starts_with(normalized(url), "http://"@) || starts_with(normalized(url), "https://"@),
        trim_end_char(trim(url), '/').len() > 0 ==> !ends_with(normalized(url), "/"@),
        trim_end_char(trim(url), '/').len() > 0 && !is_white_space(
            trim_end_char(trim(url), '/').last(),
        ) ==> normalized(normalized(url)) == normalized(url),
{
    reveal_strlit("/");
    reveal_strlit("https://");
    let t = trim_end_char(trim(url), '/');
    let n = normalized(url);
    lemma_trim_end_char_last(trim(url), '/');
    lemma_trim_ends(url);
    if !(starts_with(t, "http://"@) || starts_with(t, "https://"@)) {
        assert(("https://"@ + t).subrange(0, 8) =~= "https://"@);
    }
    if t.len() > 0 {
        assert(n.last() == t.last());
        if ends_with(n, "/"@) {
            assert(n.subrange(n.len() - 1, n.len() as int)[0] == n.last());
        }
        if !is_white_space(t.last()) {
            assert(t[0] == trim(url)[0]);
            assert(!is_white_space(n[0]));
            lemma_trim_identity(n);
            assert(trim_end_char(n, '/') == n);
        }
    }
}


/// Every mirror that the entries of a line name carries a scheme.
proof fn lemma_entries_schemes(pieces: Seq<Seq<char>>)
    ensures
        forall|k: int|
            0 <= k < mirrors_of(pieces).len() ==> starts_with(
                #[trigger] mirrors_of(pieces)[k],
                "http://"@,
            ) || starts_with(mirrors_of(pieces)[k], "https://"@),
    decreases pieces.len(),
{
    if pieces.len() > 0 {
        let before = mirrors_of(pieces.drop_last());
        lemma_entries_schemes(pieces.drop_last());
        lemma_normalized(trim(pieces.last()));
        assert forall|k: int| 0 <= k < mirrors_of(pieces).len() implies starts_with(
            #[trigger] mirrors_of(pieces)[k],
            "http://"@,
        ) || starts_with(mirrors_of(pieces)[k], "https://"@) by {
            if k < before.len() {
                assert(mirrors_of(pieces)[k] == before[k]);
            }
        }
    }
}

/// Every mirror that a sequence of lines names carries a scheme.
proof fn lemma_lines_schemes(lines: Seq<Seq<char>>)
    ensures
        forall|k: int|
            0 <= k < mirrors_of_lines(lines).len() ==> starts_with(
                #[trigger] mirrors_of_lines(lines)[k],
                "http://"@,
            ) || starts_with(mirrors_of_lines(lines)[k], "https://"@),
    decreases lines.len(),
{
    if lines.len() > 0 {
        let before = mirrors_of_lines(lines.drop_last());
        let last = line_mirrors(lines.last());
        lemma_lines_schemes(lines.drop_last());
        lemma_entries_schemes(split_pieces(lines.last(), Separators::Comma));
        assert forall|k: int| 0 <= k < mirrors_of_lines(lines).len() implies starts_with(
            #[trigger] mirrors_of_lines(lines)[k],
            "http://"@,
        ) || starts_with(mirrors_of_lines(lines)[k], "https://"@) by {
            if k < before.len() {
                assert(mirrors_of_lines(lines)[k] == before[k]);
            } else {
                assert(mirrors_of_lines(lines)[k] == last[k - before.len()]);
            }
        }
    }
}

/// Every mirror that a list names carries a scheme.
pub proof fn lemma_mirror_list_schemes(raw: Seq<char>)
    ensures
        forall|k: int|
            0 <= k < mirror_list(raw).len() ==> starts_with(
                #[trigger] mirror_list(raw)[k],
                "http://"@,
            ) || starts_with(mirror_list(raw)[k], "https://"@),
{
    lemma_lines_schemes(split_pieces(raw, Separators::Line));
}


/// The optional text is present and names at least one mirror.
pub open spec fn names_mirrors(text: Option<Seq<char>>) -> bool {
    text is Some && mirror_list(text->0).len() > 0
}

/// Precedence of the candidate mirrors: a list from the environment that
/// names a mirror is used as it is, whatever the config file says;
/// otherwise (no such variable, or one that names none), when the config
/// file names a mirror, its list is used as it is; otherwise the built-in
/// list.  So there is always a candidate.
pub proof fn lemma_candidates_precedence(env_list: Option<Seq<char>>, config_file: Option<Seq<char>>)
    ensures
        names_mirrors(env_list) ==> candidates(env_list, config_file) == mirror_list(env_list->0),
        !names_mirrors(env_list) && names_mirrors(config_file) ==> candidates(env_list, config_file)
            == mirror_list(config_file->0),
        names_mirrors(config_file) ==> candidates(None, config_file) == mirror_list(config_file->0),
        !names_mirrors(env_list) && !names_mirrors(config_file) ==> candidates(env_list, config_file)
            == default_mirrors(),
        candidates(env_list, config_file).len() > 0,
{
}


/// The mirrors of entries read one after the other: those of the first run
/// of entries, then those of the second; no entry is dropped or moved
/// because of what comes before it.
pub proof fn lemma_mirrors_of_concat(a: Seq<Seq<char>>, b: Seq<Seq<char>>)
    ensures
        mirrors_of(a + b) == mirrors_of(a) + mirrors_of(b),
    decreases b.len(),
{
    if b.len() == 0 {
        assert(a + b =~= a);
        assert(mirrors_of(a) + mirrors_of(b) =~= mirrors_of(a));
    } else {
        lemma_mirrors_of_concat(a, b.drop_last());
        assert((a + b).drop_last() =~= a + b.drop_last());
        assert((a + b).last() == b.last());
        let t = trim(b.last());
        if is_mirror_entry(t) {
            assert((mirrors_of(a) + mirrors_of(b.drop_last())).push(normalized(t)) =~= mirrors_of(a)
                + mirrors_of(b.drop_last()).push(normalized(t)));
        }
    }
}

/// One entry names its trimmed, normalized text as a mirror, unless it is
/// blank or a `#` comment.
pub proof fn lemma_mirrors_of_one(entry: Seq<char>)
    ensures
        mirrors_of(seq![entry]) == if is_mirror_entry(trim(entry)) {
            seq![normalized(trim(entry))]
        } else {
            Seq::<Seq<char>>::empty()
        },
{
    assert(seq![entry].drop_last() =~= Seq::<Seq<char>>::empty());
    assert(seq![entry].last() == entry);
    assert(mirrors_of(Seq::<Seq<char>>::empty()) == Seq::<Seq<char>>::empty());
    if is_mirror_entry(trim(entry)) {
        assert(Seq::<Seq<char>>::empty().push(normalized(trim(entry))) =~= seq![normalized(trim(entry))]);
    }
}

/// The mirrors of lines read one after the other: those of the first
/// lines, then those of the others.
pub proof fn lemma_mirrors_of_lines_concat(a: Seq<Seq<char>>, b: Seq<Seq<char>>)
    ensures
        mirrors_of_lines(a + b) == mirrors_of_lines(a) + mirrors_of_lines(b),
    decreases b.len(),
{
    if b.len() == 0 {
        assert(a + b =~= a);
        assert(mirrors_of_lines(a) + mirrors_of_lines(b) =~= mirrors_of_lines(a));
    } else {
        lemma_mirrors_of_lines_concat(a, b.drop_last());
        assert((a + b).drop_last() =~= a + b.drop_last());
        assert((a + b).last() == b.last());
        assert(mirrors_of_lines(a) + mirrors_of_lines(b.drop_last()) + line_mirrors(b.last())
            =~= mirrors_of_lines(a) + (mirrors_of_lines(b.drop_last()) + line_mirrors(b.last())));
    }
}

/// One line names nothing when, trimmed, it is blank or starts with `#`,
/// whatever it holds, commas included; otherwise the mirrors of its
/// comma-separated entries.
pub proof fn lemma_mirrors_of_one_line(line: Seq<char>)
    ensures
        mirrors_of_lines(seq![line]) == if is_mirror_entry(trim(line)) {
            mirrors_of(split_pieces(line, Separators::Comma))
        } else {
            Seq::<Seq<char>>::empty()
        },
{
    assert(seq![line].drop_last() =~= Seq::<Seq<char>>::empty());
    assert(seq![line].last() == line);
    assert(mirrors_of_lines(Seq::<Seq<char>>::empty()) == Seq::<Seq<char>>::empty());
    assert(Seq::<Seq<char>>::empty() + line_mirrors(line) =~= line_mirrors(line));
}

} // verus!
