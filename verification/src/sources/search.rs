//! The catalogue's search: from the HTML fragment the search endpoint
//! answers to the list of results.

use vstd::prelude::*;
use scraper::{ElementRef, Html, Selector};
use scraper::error::SelectorErrorKind;
use crate::sources::anime_sama::AnimeSama;
use crate::sources::AnimeResult;
use crate::text::{
    chars_of, concat, ends_with, is_white_space, lemma_trim_ends, occurs_at, occurs_at_exec, rfind, starts_with, string_from_chars, trim,
    trim_chars, trim_end_char, trim_end_char_chars,
};

verus! {

#[verifier::external_type_specification]
#[verifier::external_body]
pub struct ExHtml(Html);

#[verifier::external_type_specification]
#[verifier::external_body]
pub struct ExSelector(Selector);

#[verifier::external_type_specification]
#[verifier::external_body]
pub struct ExSelectorErrorKind(SelectorErrorKind);

#[verifier::external_type_specification]
#[verifier::external_body]
pub struct ExElementRef<'a>(ElementRef<'a>);

/// A parsed HTML fragment, with the text it was parsed from (its view).
/// Only `parse_fragment` builds one.
struct Page {
    html: Html,
    source: Ghost<Seq<char>>,
}

impl View for Page {
    type V = Seq<char>;

    closed spec fn view(&self) -> Seq<char> {
        self.source@
    }
}

/// A parsed CSS selector group, with the text it was parsed from (its
/// view).  Only `parse_selector` builds one.
struct Css {
    selector: Selector,
    source: Ghost<Seq<char>>,
}

impl View for Css {
    type V = Seq<char>;

    closed spec fn view(&self) -> Seq<char> {
        self.source@
    }
}

/// The elements of a page that match a selector, in the order the
/// selection yields them, with the texts of the page and of the selector
/// (its view).  Only `select_elements` builds one.
struct Selection<'a> {
    elements: Vec<ElementRef<'a>>,
    page: Ghost<Seq<char>>,
    selector: Ghost<Seq<char>>,
}

impl<'a> View for Selection<'a> {
    type V = (Seq<char>, Seq<char>);

    closed spec fn view(&self) -> (Seq<char>, Seq<char>) {
        (self.page@, self.selector@)
    }
}

/// The first descendant of a selected element that matches an inner
/// selector, with what it was found from: the page, the outer selector, the
/// element's position in the selection and the inner selector (its view).
/// Only `first_descendant` builds one.
struct Descendant<'a> {
    element: ElementRef<'a>,
    page: Ghost<Seq<char>>,
    selector: Ghost<Seq<char>>,
    index: Ghost<int>,
    inner: Ghost<Seq<char>>,
}

impl<'a> View for Descendant<'a> {
    type V = (Seq<char>, Seq<char>, int, Seq<char>);

    closed spec fn view(&self) -> (Seq<char>, Seq<char>, int, Seq<char>) {
        (self.page@, self.selector@, self.index@, self.inner@)
    }
}

/// `scraper::Html::parse_fragment`: the HTML5 parse of a fragment (it does
/// not fail).  The contract claims only that the page records the text it
/// was parsed from; the document itself is opaque here.
#[verifier::external_body]
fn parse_fragment(body: &str) -> (r: Page)
    ensures
        r@ == body@,
{
    Page { html: Html::parse_fragment(body), source: Ghost(body@) }
}

/// Whether `scraper::Selector::parse` accepts a selector text: a function
/// of the text alone (CSS selector grammar), not stated here.
pub uninterp spec fn css_selector_parses(selector: Seq<char>) -> bool;

/// `scraper::Selector::parse`: a CSS selector group, or the parse error.
/// The contract claims that success depends on the text alone, naming it
/// `css_selector_parses`, and that the selector records its text; which
/// texts parse is not stated.
#[verifier::external_body]
fn parse_selector(selector: &str) -> (r: Result<Css, SelectorErrorKind>)
    ensures
        r is Ok <==> css_selector_parses(selector@),
        r matches Ok(c) ==> c@ == selector@,
{
    match Selector::parse(selector) {
        Ok(parsed) => Ok(Css { selector: parsed, source: Ghost(selector@) }),
        Err(e) => Err(e),
    }
}

/// How many elements `scraper::Html::select` yields on the fragment parse
/// of `page` with the selector parsed from `selector`: a function of the
/// two texts alone (HTML5 parsing and CSS matching), not stated here.
pub uninterp spec fn selected_count(page: Seq<char>, selector: Seq<char>) -> nat;

/// `scraper::Html::select`, collected: the elements of the page that match
/// the selector, in the order the selection yields them.  The contract
/// claims that their number is `selected_count` of the two texts; which
/// elements match is not stated.
#[verifier::external_body]
fn select_elements<'a>(page: &'a Page, css: &Css) -> (r: Selection<'a>)
    ensures
        r@ == (page@, css@),
        r.elements@.len() == selected_count(page@, css@),
{
    Selection { elements: page.html.select(&css.selector).collect(), page: Ghost(page@), selector: Ghost(css@) }
}

/// The value of attribute `attr` on the `k`-th element that
/// `scraper::Html::select` yields on the fragment parse of `page` with the
/// selector parsed from `selector` (`ElementRef::attr`), if it has one: a
/// function of its arguments alone, not stated here.
pub uninterp spec fn selected_attr(page: Seq<char>, selector: Seq<char>, k: int, attr: Seq<char>) -> Option<Seq<char>>;

/// `scraper::ElementRef::attr` on the `k`-th selected element, copied.
/// The contract claims that the value is `selected_attr` of the page, the
/// selector, `k` and the attribute's name.
#[verifier::external_body]
fn attribute(selection: &Selection, k: usize, name: &str) -> (r: Option<String>)
    requires
        k < selection.elements@.len(),
    ensures
        match r {
            Some(v) => selected_attr(selection@.0, selection@.1, k as int, name@) == Some(v@),
            None => selected_attr(selection@.0, selection@.1, k as int, name@) is None,
        },
{
    match selection.elements[k].attr(name) {
        Some(v) => Some(v.to_string()),
        None => None,
    }
}

/// Whether `scraper::ElementRef::select` with the selector parsed from
/// `inner` yields anything on the `k`-th element that `Html::select`
/// yields on the fragment parse of `page` with the selector parsed from
/// `selector`: a function of its arguments alone, not stated here.
pub uninterp spec fn has_descendant(page: Seq<char>, selector: Seq<char>, k: int, inner: Seq<char>) -> bool;

/// `scraper::ElementRef::select`, first item: the first descendant of the
/// `k`-th selected element that matches the inner selector.  The contract
/// claims that there is one exactly when `has_descendant` of the page, the
/// selector, `k` and the inner selector holds, and that it records them.
#[verifier::external_body]
fn first_descendant<'a>(selection: &Selection<'a>, k: usize, inner: &Css) -> (r: Option<Descendant<'a>>)
    requires
        k < selection.elements@.len(),
    ensures
        r is Some <==> has_descendant(selection@.0, selection@.1, k as int, inner@),
        r matches Some(d) ==> d@ == (selection@.0, selection@.1, k as int, inner@),
{
    match selection.elements[k].select(&inner.selector).next() {
        Some(element) => Some(Descendant { element, page: Ghost(selection@.0), selector: Ghost(selection@.1), index: Ghost(k as int), inner: Ghost(inner@) }),
        None => None,
    }
}

/// The descendant text nodes, concatenated (`ElementRef::text`), of the
/// first descendant matching `inner` of the `k`-th element that
/// `Html::select` yields on the fragment parse of `page` with `selector`:
/// a function of its arguments alone, not stated here.
pub uninterp spec fn descendant_text(page: Seq<char>, selector: Seq<char>, k: int, inner: Seq<char>) -> Seq<char>;

/// `scraper::ElementRef::text`, collected: the element's descendant text
/// nodes, concatenated.  The contract claims that the text is
/// `descendant_text` of what the descendant was found from.
#[verifier::external_body]
fn text_content(d: &Descendant) -> (r: String)
    ensures
        r@ == descendant_text(d@.0, d@.1, d@.2, d@.3),
{
    d.element.text().collect()
}

/// The selector of the search result cards.
pub open spec fn card_selector() -> Seq<char> {
    "a.asn-search-result"@
}

/// The selector of a card's title.
pub open spec fn title_selector() -> Seq<char> {
    "h3.asn-search-result-title"@
}

/// Both selectors of the search page parse.
pub open spec fn search_selectors_parse() -> bool {
    css_selector_parses(card_selector()) && css_selector_parses(title_selector())
}

/// The `k`-th card of a search page: the `href` of its `k`-th
/// `a.asn-search-result` element, and the text of that element's first
/// `h3.asn-search-result-title` descendant (empty when it has none).
pub open spec fn page_card(body: Seq<char>, k: int) -> (Option<Seq<char>>, Seq<char>) {
    (
        selected_attr(body, card_selector(), k, "href"@),
        if has_descendant(body, card_selector(), k, title_selector()) {
            descendant_text(body, card_selector(), k, title_selector())
        } else {
            Seq::empty()
        },
    )
}

/// The cards of a search page, in order.
pub open spec fn search_page_cards(body: Seq<char>) -> Seq<(Option<Seq<char>>, Seq<char>)> {
    Seq::new(selected_count(body, card_selector()), |k: int| page_card(body, k))
}

/// The part of `s` after its last `/` (all of `s` when it has none): what
/// `s.rsplit('/').next()` gives.
pub open spec fn last_segment(s: Seq<char>) -> Seq<char> {
    if exists|i: int| 0 <= i < s.len() && s[i] == '/' {
        let i = choose|i: int|
            0 <= i < s.len() && s[i] == '/' && forall|j: int| i < j < s.len() ==> s[j] != '/';
        s.subrange(i + 1, s.len() as int)
    } else {
        s
    }
}

/// What a search result card gives, from its link target `href` and the
/// text of its title (empty when it has none): `(name, slug, url)`.
///
/// A card without a link, with a blank title or with an empty last path
/// segment gives nothing.  The name is the trimmed title; the slug is the
/// last path segment of the link without its trailing slashes; the URL is
/// the link, made absolute against `base` unless it starts with `http`, and
/// ending with `/`.
pub open spec fn card_result(base: Seq<char>, href: Option<Seq<char>>, title: Seq<char>) -> Option<
    (Seq<char>, Seq<char>, Seq<char>),
> {
    match href {
        None => None,
        Some(href) => {
            let name = trim(title);
            let slug = last_segment(trim_end_char(href, '/'));
            let full = if starts_with(href, "http"@) {
                href
            } else {
                base + href
            };
            let url = if ends_with(full, "/"@) {
                full
            } else {
                full + "/"@
            };
            if name.len() == 0 || slug.len() == 0 {
                None
            } else {
                Some((name, slug, url))
            }
        },
    }
}

/// The part after the last `/`.
fn last_segment_chars(s: &Vec<char>) -> (r: Vec<char>)
    ensures
        r@ == last_segment(s@),
{
    let slash = chars_of("/");
    proof {
        reveal_strlit("/");
    }
    match rfind(s, &slash) {
        Some(i) => {
            proof {
                assert(slash@.len() == 1);
                assert(i + 1 <= s@.len());
                assert(s@.subrange(i as int, i + 1)[0] == s@[i as int]);
                assert(s@[i as int] == '/');
                assert forall|j: int| i < j < s@.len() implies s@[j] != '/' by {
                    if s@[j] == '/' {
                        assert(s@.subrange(j, j + 1) =~= slash@);
                        assert(occurs_at(s@, j, slash@));
                    }
                }
                let k = choose|k: int|
                    0 <= k < s@.len() && s@[k] == '/' && forall|j: int| k < j < s@.len() ==> s@[j] != '/';
                assert(k == i);
            }
            assert(i < s.len());
            crate::text::slice_chars(s, i + 1, s.len())
        },
        None => {
            proof {
                assert forall|i: int| 0 <= i < s@.len() implies s@[i] != '/' by {
                    if s@[i] == '/' {
                        assert(s@.subrange(i, i + 1) =~= slash@);
                        assert(occurs_at(s@, i, slash@));
                    }
                }
            }
            s.clone()
        },
    }
}

impl AnimeSama {
    /// The search result of one card: its link target `href` and the text of
    /// its title element (`None` when it has none).
    pub fn result_from_card(&self, href: Option<&str>, title: Option<&str>) -> (r: Option<AnimeResult>)
        ensures
            ({
                let t = match title {
                    Some(t) => t@,
                    None => Seq::empty(),
                };
                let h = match href {
                    Some(h) => Some(h@),
                    None => None,
                };
                match r {
                    Some(res) => card_result(self.base(), h, t) == Some((res.name@, res.slug@, res.url@)),
                    None => card_result(self.base(), h, t) is None,
                }
            }),
    {
        let href = match href {
            Some(h) => h,
            None => {
                return None;
            },
        };
        let title_chars = match title {
            Some(t) => chars_of(t),
            None => Vec::new(),
        };
        let name = trim_chars(&title_chars);
        if name.len() == 0 {
            return None;
        }
        let href_chars = chars_of(href);
        let slug = last_segment_chars(&trim_end_char_chars(&href_chars, '/'));
        if slug.len() == 0 {
            return None;
        }
        let http = chars_of("http");
        let full = if occurs_at_exec(&href_chars, 0, &http) {
            href_chars
        } else {
            concat(&chars_of(self.base_url()), &href_chars)
        };
        let slash = chars_of("/");
        let url = if full.len() >= slash.len() && occurs_at_exec(&full, full.len() - slash.len(), &slash) {
            full
        } else {
            concat(&full, &slash)
        };
        Some(
            AnimeResult {
                name: string_from_chars(&name),
                slug: string_from_chars(&slug),
                url: string_from_chars(&url),
            },
        )
    }
}


/// The last segment of a string holds no `/`.
pub proof fn lemma_last_segment(s: Seq<char>)
    ensures
        forall|k: int| 0 <= k < last_segment(s).len() ==> last_segment(s)[k] != '/',
{
    if exists|i: int| 0 <= i < s.len() && s[i] == '/' {
        let w = choose|i: int| 0 <= i < s.len() && s[i] == '/';
        lemma_last_slash_exists(s, w);
        let i = choose|i: int|
            0 <= i < s.len() && s[i] == '/' && forall|j: int| i < j < s.len() ==> s[j] != '/';
        assert forall|k: int| 0 <= k < last_segment(s).len() implies last_segment(s)[k] != '/' by {
            assert(last_segment(s)[k] == s[i + 1 + k]);
        }
    }
}

/// A string with a `/` has a last one.
proof fn lemma_last_slash_exists(s: Seq<char>, w: int)
    requires
        0 <= w < s.len(),
        s[w] == '/',
    ensures
        exists|i: int| 0 <= i < s.len() && s[i] == '/' && forall|j: int| i < j < s.len() ==> s[j] != '/',
    decreases s.len() - w,
{
    if exists|j: int| w < j < s.len() && s[j] == '/' {
        let j = choose|j: int| w < j < s.len() && s[j] == '/';
        lemma_last_slash_exists(s, j);
    }
}

/// What a card gives is well formed: the name is non-empty and starts and
/// ends with a character that is not white space; the slug is non-empty
/// and holds no `/`; the URL ends with `/`, and starts with the link when
/// the link starts with `http`, with the base URL followed by the link
/// otherwise.
pub proof fn lemma_card_result(base: Seq<char>, href: Option<Seq<char>>, title: Seq<char>)
    ensures
        card_result(base, href, title) matches Some((name, slug, url)) ==> {
            &&& name.len() > 0
            &&& !is_white_space(name[0])
            &&& !is_white_space(name.last())
            &&& slug.len() > 0
            &&& forall|i: int| 0 <= i < slug.len() ==> slug[i] != '/'
            &&& ends_with(url, "/"@)
            &&& if starts_with(href->0, "http"@) {
                starts_with(url, href->0)
            } else {
                starts_with(url, base + href->0)
            }
        },
{
    if let Some((name, slug, url)) = card_result(base, href, title) {
        reveal_strlit("/");
        lemma_trim_ends(title);
        let h = href->0;
        let t = trim_end_char(h, '/');
        lemma_last_segment(t);
        let full = if starts_with(h, "http"@) {
            h
        } else {
            base + h
        };
        if !ends_with(full, "/"@) {
            assert((full + "/"@).subrange(full.len() as int, full.len() + 1int) =~= "/"@);
            assert((full + "/"@).subrange(0, full.len() as int) =~= full);
        } else {
            assert(full.subrange(0, full.len() as int) =~= full);
        }
    }
}

/// The view of a search result.
pub open spec fn result_view(r: AnimeResult) -> (Seq<char>, Seq<char>, Seq<char>) {
    (r.name@, r.slug@, r.url@)
}

/// The view of a card: its link target and the text of its title.
pub open spec fn card_view(c: (Option<String>, Option<String>)) -> (Option<Seq<char>>, Seq<char>) {
    (
        match c.0 {
            Some(h) => Some(h@),
            None => None,
        },
        match c.1 {
            Some(t) => t@,
            None => Seq::empty(),
        },
    )
}

/// What the cards give, in order, the cards that give nothing left out.
pub open spec fn results_of_cards(base: Seq<char>, cards: Seq<(Option<Seq<char>>, Seq<char>)>) -> Seq<
    (Seq<char>, Seq<char>, Seq<char>),
>
    decreases cards.len(),
{
    if cards.len() == 0 {
        seq![]
    } else {
        let before = results_of_cards(base, cards.drop_last());
        match card_result(base, cards.last().0, cards.last().1) {
            Some(r) => before.push(r),
            None => before,
        }
    }
}

impl AnimeSama {
    /// The cards of the HTML fragment that the search endpoint answers: for
    /// each `a.asn-search-result` element, in document order, its `href` and
    /// the text of its first `h3.asn-search-result-title` descendant.
    /// `None` when one of the two selectors does not parse.
    pub fn search_cards(body: &str) -> (r: Option<Vec<(Option<String>, Option<String>)>>)
        ensures
            r is Some <==> search_selectors_parse(),
            r matches Some(c) ==> {
                &&& c@.len() == selected_count(body@, card_selector())
                &&& forall|k: int| 0 <= k < c@.len() ==> {
                    &&& (match #[trigger] c@[k].0 {
                        Some(h) => selected_attr(body@, card_selector(), k, "href"@) == Some(h@),
                        None => selected_attr(body@, card_selector(), k, "href"@) is None,
                    })
                    &&& (c@[k].1 is Some <==> has_descendant(body@, card_selector(), k, title_selector()))
                    &&& (c@[k].1 matches Some(t) ==> t@ == descendant_text(body@, card_selector(), k, title_selector()))
                }
                &&& c@.map_values(|x: (Option<String>, Option<String>)| card_view(x)) == search_page_cards(body@)
            },
    {
        let document = parse_fragment(body);
        let links = match parse_selector("a.asn-search-result") {
            Ok(s) => s,
            Err(_) => {
                return None;
            },
        };
        let titles = match parse_selector("h3.asn-search-result-title") {
            Ok(s) => s,
            Err(_) => {
                return None;
            },
        };
        let selection = select_elements(&document, &links);
        let ghost page = body@;
        let ghost n = selected_count(page, card_selector());
        let mut cards: Vec<(Option<String>, Option<String>)> = Vec::new();
        let mut k: usize = 0;
        while k < selection.elements.len()
            invariant
                k <= selection.elements@.len(),
                selection.elements@.len() == n,
                selection@ == (page, card_selector()),
                titles@ == title_selector(),
                cards@.len() == k,
                forall|j: int| 0 <= j < k ==> {
                    &&& (match #[trigger] cards@[j].0 {
                        Some(h) => selected_attr(page, card_selector(), j, "href"@) == Some(h@),
                        None => selected_attr(page, card_selector(), j, "href"@) is None,
                    })
                    &&& (cards@[j].1 is Some <==> has_descendant(page, card_selector(), j, title_selector()))
                    &&& (cards@[j].1 matches Some(t) ==> t@ == descendant_text(page, card_selector(), j, title_selector()))
                },
            decreases selection.elements.len() - k,
        {
            let href = attribute(&selection, k, "href");
            let title = match first_descendant(&selection, k, &titles) {
                Some(el) => Some(text_content(&el)),
                None => None,
            };
            let ghost before = cards@;
            cards.push((href, title));
            proof {
                assert forall|j: int| 0 <= j < k + 1 implies {
                    &&& (match #[trigger] cards@[j].0 {
                        Some(h) => selected_attr(page, card_selector(), j, "href"@) == Some(h@),
                        None => selected_attr(page, card_selector(), j, "href"@) is None,
                    })
                    &&& (cards@[j].1 is Some <==> has_descendant(page, card_selector(), j, title_selector()))
                    &&& (cards@[j].1 matches Some(t) ==> t@ == descendant_text(page, card_selector(), j, title_selector()))
                } by {
                    if j < k {
                        assert(cards@[j] == before[j]);
                    }
                }
            }
            k += 1;
        }
        proof {
            let cv = cards@.map_values(|x: (Option<String>, Option<String>)| card_view(x));
            assert forall|j: int| 0 <= j < cv.len() implies cv[j] == search_page_cards(page)[j] by {
                assert(cards@[j].0 == cards@[j].0);
            }
            assert(cv =~= search_page_cards(page));
        }
        Some(cards)
    }

    /// The search results of a list of cards: what each card gives, as
    /// `result_from_card` builds it, in order; cards that give nothing are
    /// left out.
    pub fn results_from_cards(&self, cards: &Vec<(Option<String>, Option<String>)>) -> (r: Vec<AnimeResult>)
        ensures
            r@.map_values(|x: AnimeResult| result_view(x)) == results_of_cards(
                self.base(),
                cards@.map_values(|c: (Option<String>, Option<String>)| card_view(c)),
            ),
    {
        let ghost cv = cards@.map_values(|c: (Option<String>, Option<String>)| card_view(c));
        let mut results: Vec<AnimeResult> = Vec::new();
        let mut k: usize = 0;
        while k < cards.len()
            invariant
                k <= cards@.len(),
                cv == cards@.map_values(|c: (Option<String>, Option<String>)| card_view(c)),
                results@.map_values(|x: AnimeResult| result_view(x)) == results_of_cards(
                    self.base(),
                    cv.take(k as int),
                ),
            decreases cards.len() - k,
        {
            proof {
                assert(cv.take(k + 1).drop_last() == cv.take(k as int));
                assert(cv.take(k + 1).last() == card_view(cards@[k as int]));
            }
            let href_ref: Option<&str> = match &cards[k].0 {
                Some(h) => Some(h.as_str()),
                None => None,
            };
            let title_ref: Option<&str> = match &cards[k].1 {
                Some(t) => Some(t.as_str()),
                None => None,
            };
            match self.result_from_card(href_ref, title_ref) {
                Some(res) => {
                    let ghost before = results@;
                    results.push(res);
                    proof {
                        before.lemma_push_map_commute(|x: AnimeResult| result_view(x), res);
                    }
                },
                None => {},
            }
            k += 1;
        }
        proof {
            assert(cv.take(k as int) == cv);
        }
        results
    }

    /// The search results of the HTML fragment that the search endpoint
    /// answers: the results of its cards (`search_cards`).  `None` when one
    /// of the two selectors does not parse.
    pub fn parse_search_results(&self, body: &str) -> (r: Option<Vec<AnimeResult>>)
        ensures
            r is Some <==> search_selectors_parse(),
            r matches Some(v) ==> v@.map_values(|x: AnimeResult| result_view(x)) == results_of_cards(
                self.base(),
                search_page_cards(body@),
            ),
    {
        match Self::search_cards(body) {
            Some(cards) => {
                let results = self.results_from_cards(&cards);
                proof {
                    let cv = cards@.map_values(|c: (Option<String>, Option<String>)| card_view(c));
                    assert(results@.map_values(|x: AnimeResult| result_view(x)) == results_of_cards(
                        self.base(),
                        cv,
                    ));
                }
                Some(results)
            },
            None => None,
        }
    }
}


/// The results of a single card: its result when it gives one, else none.
pub proof fn lemma_results_of_one_card(base: Seq<char>, card: (Option<Seq<char>>, Seq<char>))
    ensures
        results_of_cards(base, seq![card]) == match card_result(base, card.0, card.1) {
            Some(r) => seq![r],
            None => Seq::empty(),
        },
{
    let none = Seq::<(Option<Seq<char>>, Seq<char>)>::empty();
    assert(seq![card].drop_last() =~= none);
    assert(seq![card].last() == card);
    assert(results_of_cards(base, none) == Seq::<(Seq<char>, Seq<char>, Seq<char>)>::empty());
    match card_result(base, card.0, card.1) {
        Some(r) => {
            assert(Seq::<(Seq<char>, Seq<char>, Seq<char>)>::empty().push(r) =~= seq![r]);
        },
        None => {},
    }
}

/// The results of two runs of cards, one after the other, are the results
/// of the first run followed by those of the second: every card is read on
/// its own, none is dropped or reordered whatever comes before it.
pub proof fn lemma_results_of_cards_concat(
    base: Seq<char>,
    a: Seq<(Option<Seq<char>>, Seq<char>)>,
    b: Seq<(Option<Seq<char>>, Seq<char>)>,
)
    ensures
        results_of_cards(base, a + b) == results_of_cards(base, a) + results_of_cards(base, b),
    decreases b.len(),
{
    if b.len() == 0 {
        assert(a + b =~= a);
        assert(results_of_cards(base, a) + results_of_cards(base, b) =~= results_of_cards(base, a));
    } else {
        lemma_results_of_cards_concat(base, a, b.drop_last());
        assert((a + b).drop_last() =~= a + b.drop_last());
        assert((a + b).last() == b.last());
        let ra = results_of_cards(base, a);
        let rb = results_of_cards(base, b.drop_last());
        match card_result(base, b.last().0, b.last().1) {
            Some(r) => {
                assert((ra + rb).push(r) =~= ra + rb.push(r));
            },
            None => {},
        }
    }
}

} // verus!
