//! What the command line shows and names: titles, episode labels, file
//! names, and the fields it reads from the downloader's progress lines.

use vstd::prelude::*;
use crate::numbers::{
    decimal, decimal_chars, decimal_pad2, decimal_pad2_chars, is_ascii_digit, lemma_decimal_digits,
    lemma_parse_decimal, parse_unsigned, parse_unsigned_chars, signed_decimal, signed_decimal_chars,
};
use crate::text::{
    chars_of, concat, contains, find_first, find_last, first_occurrence, join, last_occurrence,
    occurs_at, remove_all, remove_all_chars, slice_chars, string_from_chars, trim, trim_chars,
    words, words_chars,
};

verus! {

/// What `char::to_uppercase` yields for `c` (Unicode's full upper-case
/// mapping, one to three characters).
pub uninterp spec fn upper_case_of(c: char) -> Seq<char>;

/// `char::to_uppercase`, collected: the contract claims that the result is
/// a function of `c` alone, named `upper_case_of`; the mapping itself is
/// not stated.
#[verifier::external_body]
fn upper_case(c: char) -> (r: Vec<char>)
    ensures
        r@ == upper_case_of(c),
{
    c.to_uppercase().collect()
}

/// A word with its first character in upper case.
pub open spec fn capitalized(w: Seq<char>) -> Seq<char> {
    if w.len() == 0 {
        seq![]
    } else {
        upper_case_of(w[0]) + w.drop_first()
    }
}

/// Every word capitalized.
pub open spec fn capitalized_words(ws: Seq<Seq<char>>) -> Seq<Seq<char>>
    decreases ws.len(),
{
    if ws.len() == 0 {
        seq![]
    } else {
        capitalized_words(ws.drop_last()).push(capitalized(ws.last()))
    }
}

/// The words of `s`, each capitalized, joined by single spaces.
pub open spec fn title_case(s: Seq<char>) -> Seq<char> {
    join(capitalized_words(words(s)), " "@)
}

fn capitalize_chars(w: &Vec<char>) -> (r: Vec<char>)
    ensures
        r@ == capitalized(w@),
{
    if w.len() == 0 {
        Vec::new()
    } else {
        let rest = slice_chars(w, 1, w.len());
        proof {
            assert(rest@ == w@.drop_first());
        }
        concat(&upper_case(w[0]), &rest)
    }
}

/// The anime's name as a title: each word capitalized, words separated by
/// single spaces.
pub fn to_title_case(s: &str) -> (r: String)
    ensures
        r@ == title_case(s@),
{
    let ws = words_chars(&chars_of(s));
    let ghost wv = words(s@);
    let space = chars_of(" ");
    let mut out: Vec<char> = Vec::new();
    let mut k: usize = 0;
    while k < ws.len()
        invariant
            k <= ws@.len(),
            ws@.len() == wv.len(),
            forall|j: int| 0 <= j < ws@.len() ==> #[trigger] ws@[j]@ == wv[j],
            space@ == " "@,
            out@ == join(capitalized_words(wv.take(k as int)), " "@),
        decreases ws.len() - k,
    {
        let cw = capitalize_chars(&ws[k]);
        proof {
            assert(wv.take(k + 1).drop_last() == wv.take(k as int));
            assert(ws@[k as int]@ == wv[k as int]);
            let c = capitalized_words(wv.take(k + 1));
            assert(c.drop_last() == capitalized_words(wv.take(k as int)));
            assert(c.last() == cw@);
        }
        if k == 0 {
            out = cw;
        } else {
            out = concat(&out, &space);
            out = concat(&out, &cw);
        }
        k += 1;
    }
    proof {
        assert(wv.take(k as int) == wv);
    }
    string_from_chars(&out)
}

/// The percentage field of a progress line: the text between the last
/// space before the first `%` and that `%`, trimmed.
pub open spec fn percent_field(line: Seq<char>) -> Option<Seq<char>> {
    match first_occurrence(line, "%"@) {
        Some(p) => match last_occurrence(line.take(p), " "@) {
            Some(start) => Some(trim(line.subrange(start, p))),
            None => None,
        },
        None => None,
    }
}

/// The percentage text of a progress line (its number is read by the
/// caller).
pub fn extract_percent_text(line: &str) -> (r: Option<String>)
    ensures
        match r {
            Some(t) => percent_field(line@) == Some(t@),
            None => percent_field(line@) is None,
        },
{
    let l = chars_of(line);
    let pct = chars_of("%");
    let space = chars_of(" ");
    match find_first(&l, &pct) {
        Some(p) => {
            proof {
                reveal_strlit("%");
                assert(p < l@.len());
            }
            let head = slice_chars(&l, 0, p);
            proof {
                assert(head@ == l@.take(p as int));
            }
            match find_last(&head, &space) {
                Some(start) => {
                    proof {
                        reveal_strlit(" ");
                        assert(start < p);
                    }
                    let field = slice_chars(&l, start, p);
                    Some(string_from_chars(&trim_chars(&field)))
                },
                None => None,
            }
        },
        None => None,
    }
}

/// Where the speed field of a progress line starts: after the first
/// ` at `.
pub open spec fn speed_start(line: Seq<char>) -> Option<int> {
    match first_occurrence(line, " at "@) {
        Some(a) => Some(a + 4),
        None => None,
    }
}

/// A progress line whose speed field would end before it starts: slicing it
/// is out of range.
pub open spec fn speed_field_inverted(line: Seq<char>) -> bool {
    &&& speed_start(line) is Some
    &&& first_occurrence(line, " ETA "@) is Some
    &&& first_occurrence(line, " ETA "@)->0 < speed_start(line)->0
}

/// The speed field of a progress line: the text between the first ` at `
/// and the first ` ETA `, trimmed.
pub open spec fn speed_field(line: Seq<char>) -> Option<Seq<char>> {
    match (speed_start(line), first_occurrence(line, " ETA "@)) {
        (Some(a), Some(e)) => Some(trim(line.subrange(a, e))),
        _ => None,
    }
}

/// The speed text of a progress line.
pub fn extract_speed(line: &str) -> (r: Option<String>)
    requires
        !speed_field_inverted(line@),
    ensures
        match r {
            Some(t) => speed_field(line@) == Some(t@),
            None => speed_field(line@) is None,
        },
{
    let l = chars_of(line);
    let at_p = chars_of(" at ");
    let eta_p = chars_of(" ETA ");
    proof {
        reveal_strlit(" at ");
        reveal_strlit(" ETA ");
    }
    let a = match find_first(&l, &at_p) {
        Some(a) => a,
        None => {
            return None;
        },
    };
    let e = match find_first(&l, &eta_p) {
        Some(e) => e,
        None => {
            return None;
        },
    };
    proof {
        assert(a + 4 <= l@.len());
        assert(e + 5 <= l@.len());
    }
    let field = slice_chars(&l, a + 4, e);
    Some(string_from_chars(&trim_chars(&field)))
}

/// The name of a season's folder: `S` and the season number.
pub open spec fn season_dir(season: i8) -> Seq<char> {
    "S"@ + signed_decimal(season as int)
}

/// The name of a season's folder.
pub fn season_dir_name(season: i8) -> (r: String)
    ensures
        r@ == season_dir(season),
{
    string_from_chars(&concat(&chars_of("S"), &signed_decimal_chars(season)))
}

/// The output template handed to the downloader for one episode:
/// `{dir}/{name} S{season}E{episode:02}.%(ext)s`.
pub open spec fn output_template(dir: Seq<char>, name: Seq<char>, season: i8, episode: nat) -> Seq<
    char,
> {
    dir + "/"@ + name + " S"@ + signed_decimal(season as int) + "E"@ + decimal_pad2(episode)
        + ".%(ext)s"@
}

/// The output template handed to the downloader for one episode.
pub fn episode_output_template(dir: &str, name: &str, season: i8, episode: usize) -> (r: String)
    ensures
        r@ == output_template(dir@, name@, season, episode as nat),
{
    let mut v = chars_of(dir);
    v = concat(&v, &chars_of("/"));
    v = concat(&v, &chars_of(name));
    v = concat(&v, &chars_of(" S"));
    v = concat(&v, &signed_decimal_chars(season));
    v = concat(&v, &chars_of("E"));
    v = concat(&v, &decimal_pad2_chars(episode as u64));
    v = concat(&v, &chars_of(".%(ext)s"));
    string_from_chars(&v)
}

/// The label of the `n`-th episode (numbered from 1).
pub open spec fn episode_label(n: nat) -> Seq<char> {
    "Épisode "@ + decimal(n)
}

/// The labels of `count` episodes: `Épisode 1`, ..., `Épisode {count}`.
pub fn episode_labels(count: usize) -> (r: Vec<String>)
    ensures
        r@.len() == count,
        forall|i: int| 0 <= i < count ==> #[trigger] r@[i]@ == episode_label((i + 1) as nat),
{
    let prefix = chars_of("Épisode ");
    let mut r: Vec<String> = Vec::new();
    let mut k: usize = 0;
    while k < count
        invariant
            k <= count,
            prefix@ == "Épisode "@,
            r@.len() == k,
            forall|i: int| 0 <= i < k ==> #[trigger] r@[i]@ == episode_label((i + 1) as nat),
        decreases count - k,
    {
        let label = concat(&prefix, &decimal_chars((k + 1) as u64));
        r.push(string_from_chars(&label));
        k += 1;
    }
    r
}


/// The index of the episode a label names: the label without its
/// `Épisode ` prefixes, read as a number and counted from 0.  `None` where
/// that text is not a number or is zero.
pub open spec fn label_index(label: Seq<char>) -> Option<nat> {
    match parse_unsigned(remove_all(label, "Épisode "@), usize::MAX as nat) {
        Some(v) => if v >= 1 {
            Some((v - 1) as nat)
        } else {
            None
        },
        None => None,
    }
}

/// The index of the episode a chosen label names.
pub fn episode_index(label: &str) -> (r: Option<usize>)
    ensures
        match r {
            Some(i) => label_index(label@) == Some(i as nat),
            None => label_index(label@) is None,
        },
{
    let digits = remove_all_chars(&chars_of(label), &chars_of("Épisode "));
    match parse_unsigned_chars(&digits, usize::MAX as u64) {
        Some(v) => if v >= 1 {
            Some((v - 1) as usize)
        } else {
            None
        },
        None => None,
    }
}

/// Every episode label names its own episode: the label of episode `n`
/// (counted from 1) reads back as index `n - 1`.
pub proof fn lemma_episode_label_index(n: nat)
    requires
        1 <= n <= usize::MAX,
    ensures
        label_index(episode_label(n)) == Some((n - 1) as nat),
{
    let p = "Épisode "@;
    let d = decimal(n);
    let label = episode_label(n);
    reveal_strlit("Épisode ");
    lemma_decimal_digits(n);
    assert(p.len() == 8);
    assert(label.subrange(0, 8) =~= p);
    assert(occurs_at(label, 0, p));
    reveal(first_occurrence);
    assert(first_occurrence(label, p) == Some(0int));
    assert(label.skip(8) =~= d);
    assert forall|i: int| !occurs_at(d, i, p) by {
        if occurs_at(d, i, p) {
            assert(d.subrange(i, i + 8)[0] == d[i]);
            assert(is_ascii_digit(d[i]));
        }
    }
    assert(!contains(d, p));
    assert(first_occurrence(d, p) is None);
    assert(remove_all(d, p) == d);
    assert(label.take(0) =~= Seq::<char>::empty());
    assert(remove_all(label, p) == d);
    lemma_parse_decimal(n, usize::MAX as nat);
}

} // verus!
