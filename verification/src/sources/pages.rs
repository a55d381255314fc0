//! The grammars of the catalogue's script pages.
//!
//! Each recogniser follows a pattern over characters and is searched the
//! way a leftmost-first regular-expression engine iterates its matches:
//! the first position at which the pattern matches wins, and the next search
//! starts where that match ended.

use vstd::prelude::*;
use crate::scan::{CharClass, is_quote, span_end, span_end_exec, lemma_span_end_bounds};
use crate::text::{occurs_at, occurs_at_exec, slice_chars};

verus! {

/// `var`
pub open spec fn var_kw() -> Seq<char> {
    seq!['v', 'a', 'r']
}

/// `eps`
pub open spec fn eps_kw() -> Seq<char> {
    seq!['e', 'p', 's']
}

/// Recognises `var\s+eps\d+\s*=\s*\[[^\]]+\]` at index `i` of `s`.
/// On success gives `(b0, b1, end)`: the array's contents are `s[b0..b1]`
/// and the match ends at `end`.
pub open spec fn eps_array_at(s: Seq<char>, i: int) -> Option<(int, int, int)> {
    let w1 = span_end(s, i + 3, CharClass::WhiteSpace);
    let d1 = span_end(s, w1 + 3, CharClass::DecimalDigit);
    let w2 = span_end(s, d1, CharClass::WhiteSpace);
    let w3 = span_end(s, w2 + 1, CharClass::WhiteSpace);
    let b1 = span_end(s, w3 + 1, CharClass::AllBut(']'));
    if occurs_at(s, i, var_kw()) && w1 > i + 3 && occurs_at(s, w1, eps_kw()) && d1 > w1 + 3
        && w2 < s.len() && s[w2] == '=' && w3 < s.len() && s[w3] == '[' && b1 > w3 + 1 && b1
        < s.len() && s[b1] == ']' {
        Some((w3 + 1, b1, b1 + 1))
    } else {
        None
    }
}

/// An array match lies within the string and moves forward.
pub proof fn lemma_eps_array_at(s: Seq<char>, i: int)
    requires
        0 <= i,
        eps_array_at(s, i) is Some,
    ensures
        ({
            let (b0, b1, e) = eps_array_at(s, i)->0;
            i < b0 < b1 < e <= s.len()
        }),
{
    let w1 = span_end(s, i + 3, CharClass::WhiteSpace);
    let d1 = span_end(s, w1 + 3, CharClass::DecimalDigit);
    let w2 = span_end(s, d1, CharClass::WhiteSpace);
    let w3 = span_end(s, w2 + 1, CharClass::WhiteSpace);
    lemma_span_end_bounds(s, i + 3, CharClass::WhiteSpace);
    lemma_span_end_bounds(s, w1 + 3, CharClass::DecimalDigit);
    lemma_span_end_bounds(s, d1, CharClass::WhiteSpace);
    lemma_span_end_bounds(s, w2 + 1, CharClass::WhiteSpace);
    lemma_span_end_bounds(s, w3 + 1, CharClass::AllBut(']'));
}

/// The contents of every `var epsN = [...]` array of `s` from index `i` on,
/// in order.
pub open spec fn eps_arrays_from(s: Seq<char>, i: int) -> Seq<Seq<char>>
    decreases s.len() - i,
{
    if i < 0 || i >= s.len() {
        seq![]
    } else {
        match eps_array_at(s, i) {
            Some((b0, b1, e)) => {
                proof {
                    lemma_eps_array_at(s, i);
                }
                seq![s.subrange(b0, b1)] + eps_arrays_from(s, e)
            },
            None => eps_arrays_from(s, i + 1),
        }
    }
}

fn eps_array_at_exec(s: &Vec<char>, i: usize) -> (r: Option<(usize, usize, usize)>)
    requires
        i <= s.len(),
    ensures
        match r {
            Some((b0, b1, e)) => eps_array_at(s@, i as int) == Some((b0 as int, b1 as int, e as int)),
            None => eps_array_at(s@, i as int) is None,
        },
{
    let var_p = vec!['v', 'a', 'r'];
    let eps_p = vec!['e', 'p', 's'];
    assert(var_p@ == var_kw());
    assert(eps_p@ == eps_kw());
    if !occurs_at_exec(s, i, &var_p) {
        return None;
    }
    let w1 = span_end_exec(s, i + 3, &CharClass::WhiteSpace);
    if !(w1 > i + 3) || !occurs_at_exec(s, w1, &eps_p) {
        return None;
    }
    let d1 = span_end_exec(s, w1 + 3, &CharClass::DecimalDigit);
    if !(d1 > w1 + 3) {
        return None;
    }
    let w2 = span_end_exec(s, d1, &CharClass::WhiteSpace);
    if !(w2 < s.len() && s[w2] == '=') {
        return None;
    }
    let w3 = span_end_exec(s, w2 + 1, &CharClass::WhiteSpace);
    if !(w3 < s.len() && s[w3] == '[') {
        return None;
    }
    let b1 = span_end_exec(s, w3 + 1, &CharClass::AllBut(']'));
    if !(b1 > w3 + 1 && b1 < s.len() && s[b1] == ']') {
        return None;
    }
    Some((w3 + 1, b1, b1 + 1))
}

/// The contents of every `var epsN = [...]` array of `s`, in order.
pub fn eps_arrays(s: &Vec<char>) -> (r: Vec<Vec<char>>)
    ensures
        r@.len() == eps_arrays_from(s@, 0).len(),
        forall|k: int| 0 <= k < r@.len() ==> #[trigger] r@[k]@ == eps_arrays_from(s@, 0)[k],
{
    let mut r: Vec<Vec<char>> = Vec::new();
    let ghost mut found: Seq<Seq<char>> = seq![];
    let mut i: usize = 0;
    while i < s.len()
        invariant
            i <= s.len(),
            r@.len() == found.len(),
            forall|k: int| 0 <= k < r@.len() ==> #[trigger] r@[k]@ == found[k],
            found + eps_arrays_from(s@, i as int) == eps_arrays_from(s@, 0),
        decreases s.len() - i,
    {
        match eps_array_at_exec(s, i) {
            Some((b0, b1, e)) => {
                proof {
                    lemma_eps_array_at(s@, i as int);
                }
                let body = slice_chars(s, b0, b1);
                r.push(body);
                proof {
                    assert(found + eps_arrays_from(s@, i as int) == found + (seq![s@.subrange(b0 as int, b1 as int)] + eps_arrays_from(s@, e as int)));
                    found = found.push(s@.subrange(b0 as int, b1 as int));
                    assert(found + eps_arrays_from(s@, e as int) == eps_arrays_from(s@, 0));
                }
                i = e;
            },
            None => {
                i += 1;
            },
        }
    }
    proof {
        assert(found + eps_arrays_from(s@, i as int) == found);
    }
    r
}


/// `http`
pub open spec fn http_kw() -> Seq<char> {
    seq!['h', 't', 't', 'p']
}

/// `://`
pub open spec fn scheme_sep() -> Seq<char> {
    seq![':', '/', '/']
}

/// Where the `://` of a quoted link that starts at `i` must stand: after
/// `https` when the `s` is there, after `http` otherwise.
pub open spec fn scheme_sep_index(s: Seq<char>, i: int) -> int {
    if 0 <= i + 5 < s.len() && s[i + 5] == 's' {
        i + 6
    } else {
        i + 5
    }
}

/// Recognises `['"](https?://[^'"]+)['"]` at index `i` of `s`.  On success
/// gives `u1`: the link is `s[i + 1..u1]` and the match ends at `u1 + 1`.
pub open spec fn quoted_link_at(s: Seq<char>, i: int) -> Option<int> {
    let k = scheme_sep_index(s, i);
    let u1 = span_end(s, k + 3, CharClass::NotQuote);
    if 0 <= i < s.len() && is_quote(s[i]) && occurs_at(s, i + 1, http_kw()) && occurs_at(
        s,
        k,
        scheme_sep(),
    ) && u1 > k + 3 && u1 < s.len() && is_quote(s[u1]) {
        Some(u1)
    } else {
        None
    }
}

/// A link match lies within the string and moves forward.
pub proof fn lemma_quoted_link_at(s: Seq<char>, i: int)
    requires
        0 <= i,
        quoted_link_at(s, i) is Some,
    ensures
        i + 1 < quoted_link_at(s, i)->0 < s.len(),
{
    lemma_span_end_bounds(s, scheme_sep_index(s, i) + 3, CharClass::NotQuote);
}

/// Every quoted `http://` or `https://` link of `s` from index `i` on, in
/// order, without its quotes.
pub open spec fn quoted_links_from(s: Seq<char>, i: int) -> Seq<Seq<char>>
    decreases s.len() - i,
{
    if i < 0 || i >= s.len() {
        seq![]
    } else {
        match quoted_link_at(s, i) {
            Some(u1) => {
                proof {
                    lemma_quoted_link_at(s, i);
                }
                seq![s.subrange(i + 1, u1)] + quoted_links_from(s, u1 + 1)
            },
            None => quoted_links_from(s, i + 1),
        }
    }
}

fn quoted_link_at_exec(s: &Vec<char>, i: usize) -> (r: Option<usize>)
    requires
        i < s.len(),
    ensures
        match r {
            Some(u1) => quoted_link_at(s@, i as int) == Some(u1 as int),
            None => quoted_link_at(s@, i as int) is None,
        },
{
    let http_p = vec!['h', 't', 't', 'p'];
    let sep_p = vec![':', '/', '/'];
    assert(http_p@ == http_kw());
    assert(sep_p@ == scheme_sep());
    if !(s[i] == '\'' || s[i] == '"') || !occurs_at_exec(s, i + 1, &http_p) {
        return None;
    }
    let k = if i + 5 < s.len() && s[i + 5] == 's' {
        i + 6
    } else {
        i + 5
    };
    if !occurs_at_exec(s, k, &sep_p) {
        return None;
    }
    let u1 = span_end_exec(s, k + 3, &CharClass::NotQuote);
    if !(u1 > k + 3 && u1 < s.len() && (s[u1] == '\'' || s[u1] == '"')) {
        return None;
    }
    Some(u1)
}

/// Every quoted `http://` or `https://` link of `s`, in order, without its
/// quotes.
pub fn quoted_links(s: &Vec<char>) -> (r: Vec<Vec<char>>)
    ensures
        r@.len() == quoted_links_from(s@, 0).len(),
        forall|k: int| 0 <= k < r@.len() ==> #[trigger] r@[k]@ == quoted_links_from(s@, 0)[k],
{
    let mut r: Vec<Vec<char>> = Vec::new();
    let ghost mut found: Seq<Seq<char>> = seq![];
    let mut i: usize = 0;
    while i < s.len()
        invariant
            i <= s.len(),
            r@.len() == found.len(),
            forall|k: int| 0 <= k < r@.len() ==> #[trigger] r@[k]@ == found[k],
            found + quoted_links_from(s@, i as int) == quoted_links_from(s@, 0),
        decreases s.len() - i,
    {
        match quoted_link_at_exec(s, i) {
            Some(u1) => {
                proof {
                    lemma_quoted_link_at(s@, i as int);
                }
                let link = slice_chars(s, i + 1, u1);
                r.push(link);
                proof {
                    found = found.push(s@.subrange(i + 1, u1 as int));
                    assert(found + quoted_links_from(s@, u1 + 1) == quoted_links_from(s@, 0));
                }
                i = u1 + 1;
            },
            None => {
                i += 1;
            },
        }
    }
    proof {
        assert(found + quoted_links_from(s@, i as int) == found);
    }
    r
}

/// `panneauAnime("`
pub open spec fn panneau_open() -> Seq<char> {
    seq!['p', 'a', 'n', 'n', 'e', 'a', 'u', 'A', 'n', 'i', 'm', 'e', '(', '"']
}

/// `",`
pub open spec fn quote_comma() -> Seq<char> {
    seq!['"', ',']
}

/// The last index `q` with `lo <= q < hi` and `s[q] == c`.
pub open spec fn last_index_in(s: Seq<char>, c: char, lo: int, hi: int) -> Option<int>
    decreases hi - lo,
{
    if hi <= lo {
        None
    } else if s[hi - 1] == c {
        Some(hi - 1)
    } else {
        last_index_in(s, c, lo, hi - 1)
    }
}

proof fn lemma_last_index_in(s: Seq<char>, c: char, lo: int, hi: int)
    ensures
        last_index_in(s, c, lo, hi) matches Some(q) ==> lo <= q < hi && s[q] == c,
    decreases hi - lo,
{
    if hi > lo && s[hi - 1] != c {
        lemma_last_index_in(s, c, lo, hi - 1);
    }
}

/// The positions of one `panneauAnime("label", "path/lang")` call:
/// `label = s[l0..l1]`, `path = s[p0..q]`, `lang = s[q + 1..p1]`, and the
/// call ends at `end`.
pub struct PanneauSpan {
    pub l0: int,
    pub l1: int,
    pub p0: int,
    pub q: int,
    pub p1: int,
    pub end: int,
}

/// Recognises `panneauAnime\("([^"]+)",\s*"([^"]+)/([^"]+)"\)` at index `i`
/// of `s`.  The path takes as much as it can: it ends at the last `/` that
/// leaves a non-empty language.
pub open spec fn panneau_at(s: Seq<char>, i: int) -> Option<PanneauSpan> {
    let l0 = i + 14;
    let l1 = span_end(s, l0, CharClass::AllBut('"'));
    let w = span_end(s, l1 + 2, CharClass::WhiteSpace);
    let p0 = w + 1;
    let p1 = span_end(s, p0, CharClass::AllBut('"'));
    let q = last_index_in(s, '/', p0 + 1, p1 - 1);
    if occurs_at(s, i, panneau_open()) && l1 > l0 && occurs_at(s, l1, quote_comma()) && w
        < s.len() && s[w] == '"' && p1 + 1 < s.len() && s[p1] == '"' && s[p1 + 1] == ')'
        && q is Some {
        Some(PanneauSpan { l0, l1, p0, q: q->0, p1, end: p1 + 2 })
    } else {
        None
    }
}

/// A call match lies within the string and its parts are in order.
pub proof fn lemma_panneau_at(s: Seq<char>, i: int)
    requires
        0 <= i,
        panneau_at(s, i) is Some,
    ensures
        ({
            let m = panneau_at(s, i)->0;
            i < m.l0 < m.l1 < m.p0 < m.q && m.q + 1 < m.p1 < m.end <= s.len()
        }),
{
    let l0 = i + 14;
    let l1 = span_end(s, l0, CharClass::AllBut('"'));
    let w = span_end(s, l1 + 2, CharClass::WhiteSpace);
    let p0 = w + 1;
    let p1 = span_end(s, p0, CharClass::AllBut('"'));
    lemma_span_end_bounds(s, l0, CharClass::AllBut('"'));
    lemma_span_end_bounds(s, l1 + 2, CharClass::WhiteSpace);
    lemma_span_end_bounds(s, p0, CharClass::AllBut('"'));
    lemma_last_index_in(s, '/', p0 + 1, p1 - 1);
}

/// One season entry of an anime page: what a `panneauAnime` call names.
pub struct PanneauCall {
    pub label: Seq<char>,
    pub path: Seq<char>,
    pub lang: Seq<char>,
}

/// Every `panneauAnime("label", "path/lang")` call of `s` from index `i`
/// on, in order.
pub open spec fn panneau_calls_from(s: Seq<char>, i: int) -> Seq<PanneauCall>
    decreases s.len() - i,
{
    if i < 0 || i >= s.len() {
        seq![]
    } else {
        match panneau_at(s, i) {
            Some(m) => {
                proof {
                    lemma_panneau_at(s, i);
                }
                seq![
                    PanneauCall {
                        label: s.subrange(m.l0, m.l1),
                        path: s.subrange(m.p0, m.q),
                        lang: s.subrange(m.q + 1, m.p1),
                    },
                ] + panneau_calls_from(s, m.end)
            },
            None => panneau_calls_from(s, i + 1),
        }
    }
}

fn last_index_in_exec(s: &Vec<char>, c: char, lo: usize, hi: usize) -> (r: Option<usize>)
    requires
        hi <= s.len(),
    ensures
        match r {
            Some(q) => last_index_in(s@, c, lo as int, hi as int) == Some(q as int),
            None => last_index_in(s@, c, lo as int, hi as int) is None,
        },
{
    let mut h = hi;
    while h > lo
        invariant
            h <= hi <= s.len(),
            last_index_in(s@, c, lo as int, hi as int) == last_index_in(s@, c, lo as int, h as int),
        decreases h,
    {
        if s[h - 1] == c {
            return Some(h - 1);
        }
        h -= 1;
    }
    None
}

/// Positions `(l0, l1, p0, q, p1, end)` of a `panneauAnime` call at `i`.
fn panneau_at_exec(s: &Vec<char>, i: usize) -> (r: Option<(usize, usize, usize, usize, usize, usize)>)
    requires
        i <= s.len(),
    ensures
        match r {
            Some((l0, l1, p0, q, p1, end)) => panneau_at(s@, i as int) == Some(
                PanneauSpan {
                    l0: l0 as int,
                    l1: l1 as int,
                    p0: p0 as int,
                    q: q as int,
                    p1: p1 as int,
                    end: end as int,
                },
            ),
            None => panneau_at(s@, i as int) is None,
        },
{
    let open_p = vec!['p', 'a', 'n', 'n', 'e', 'a', 'u', 'A', 'n', 'i', 'm', 'e', '(', '"'];
    let qc_p = vec!['"', ','];
    assert(open_p@ == panneau_open());
    assert(qc_p@ == quote_comma());
    if !occurs_at_exec(s, i, &open_p) {
        return None;
    }
    let l0 = i + 14;
    let l1 = span_end_exec(s, l0, &CharClass::AllBut('"'));
    if !(l1 > l0) || !occurs_at_exec(s, l1, &qc_p) {
        return None;
    }
    let w = span_end_exec(s, l1 + 2, &CharClass::WhiteSpace);
    if !(w < s.len() && s[w] == '"') {
        return None;
    }
    let p0 = w + 1;
    let p1 = span_end_exec(s, p0, &CharClass::AllBut('"'));
    if !(p1 < s.len() - 1 && s[p1] == '"' && s[p1 + 1] == ')') {
        return None;
    }
    match last_index_in_exec(s, '/', p0 + 1, p1 - 1) {
        Some(q) => Some((l0, l1, p0, q, p1, p1 + 2)),
        None => None,
    }
}

/// What an anime page's `panneauAnime("label", "path/lang")` calls name,
/// in order: `(label, path, lang)`.
pub fn panneau_calls(s: &Vec<char>) -> (r: Vec<(Vec<char>, Vec<char>, Vec<char>)>)
    ensures
        r@.len() == panneau_calls_from(s@, 0).len(),
        forall|k: int|
            0 <= k < r@.len() ==> {
                let c = panneau_calls_from(s@, 0)[k];
                &&& (#[trigger] r@[k]).0@ == c.label
                &&& r@[k].1@ == c.path
                &&& r@[k].2@ == c.lang
            },
{
    let mut r: Vec<(Vec<char>, Vec<char>, Vec<char>)> = Vec::new();
    let ghost mut found: Seq<PanneauCall> = seq![];
    let mut i: usize = 0;
    while i < s.len()
        invariant
            i <= s.len(),
            r@.len() == found.len(),
            forall|k: int|
                0 <= k < r@.len() ==> {
                    &&& (#[trigger] r@[k]).0@ == found[k].label
                    &&& r@[k].1@ == found[k].path
                    &&& r@[k].2@ == found[k].lang
                },
            found + panneau_calls_from(s@, i as int) == panneau_calls_from(s@, 0),
        decreases s.len() - i,
    {
        match panneau_at_exec(s, i) {
            Some((l0, l1, p0, q, p1, end)) => {
                proof {
                    lemma_panneau_at(s@, i as int);
                }
                let label = slice_chars(s, l0, l1);
                let path = slice_chars(s, p0, q);
                let lang = slice_chars(s, q + 1, p1);
                r.push((label, path, lang));
                proof {
                    found = found.push(
                        PanneauCall {
                            label: s@.subrange(l0 as int, l1 as int),
                            path: s@.subrange(p0 as int, q as int),
                            lang: s@.subrange(q + 1, p1 as int),
                        },
                    );
                    assert(found + panneau_calls_from(s@, end as int) == panneau_calls_from(s@, 0));
                }
                i = end;
            },
            None => {
                i += 1;
            },
        }
    }
    proof {
        assert(found + panneau_calls_from(s@, i as int) == found);
    }
    r
}

} // verus!
