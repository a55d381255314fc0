//! The catalogue data file's records: media and their seasons.

use vstd::prelude::*;
use crate::text::{strings_contain, strings_view};

verus! {

/// The whole catalogue data file.
#[derive(Debug)]
pub struct Medias {
    pub media: Vec<Media>,
}

/// One season of one anime in one language.
#[derive(Debug, Clone)]
pub struct Media {
    pub name: String,
    pub lang: String,
    pub season: i8,
    media_type: String,
    pub episodes: Vec<String>,
}

/// What a `Media` holds.
pub struct MediaView {
    pub name: Seq<char>,
    pub lang: Seq<char>,
    pub season: i8,
    pub media_type: Seq<char>,
    pub episodes: Seq<Seq<char>>,
}

impl View for Media {
    type V = MediaView;

    closed spec fn view(&self) -> MediaView {
        MediaView {
            name: self.name@,
            lang: self.lang@,
            season: self.season,
            media_type: self.media_type@,
            episodes: strings_view(self.episodes@),
        }
    }
}

impl Media {
    /// A record of the data file.
    pub fn new(name: String, lang: String, season: i8, media_type: String, episodes: Vec<String>) -> (r: Self)
        ensures
            r@ == (MediaView {
                name: name@,
                lang: lang@,
                season,
                media_type: media_type@,
                episodes: strings_view(episodes@),
            }),
    {
        Media { name, lang, season, media_type, episodes }
    }

    /// The kind of media the record describes.
    pub fn media_type(&self) -> (r: &String)
        ensures
            r@ == self@.media_type,
    {
        &self.media_type
    }

    /// The name, as the view records it.
    pub fn name_of(&self) -> (r: &String)
        ensures
            r@ == self@.name,
    {
        &self.name
    }
}

/// The views of a list of media.
pub open spec fn media_view(v: Seq<Media>) -> Seq<MediaView> {
    v.map_values(|m: Media| m@)
}

/// The distinct strings of `s`, in order of first appearance.
pub open spec fn distinct_in_order(s: Seq<Seq<char>>) -> Seq<Seq<char>>
    decreases s.len(),
{
    if s.len() == 0 {
        seq![]
    } else {
        let before = distinct_in_order(s.drop_last());
        if before.contains(s.last()) {
            before
        } else {
            before.push(s.last())
        }
    }
}

/// The media of `ms` named `name`, in order.
pub open spec fn media_named(ms: Seq<MediaView>, name: Seq<char>) -> Seq<MediaView>
    decreases ms.len(),
{
    if ms.len() == 0 {
        seq![]
    } else {
        let before = media_named(ms.drop_last(), name);
        if ms.last().name == name {
            before.push(ms.last())
        } else {
            before
        }
    }
}

/// The distinct strings hold each string of `s` exactly once, and nothing
/// else.
pub proof fn lemma_distinct_in_order(s: Seq<Seq<char>>)
    ensures
        forall|x: Seq<char>| #[trigger] distinct_in_order(s).contains(x) <==> s.contains(x),
        forall|i: int, j: int|
            0 <= i < j < distinct_in_order(s).len() ==> distinct_in_order(s)[i]
                != distinct_in_order(s)[j],
    decreases s.len(),
{
    if s.len() > 0 {
        let init = s.drop_last();
        lemma_distinct_in_order(init);
        let before = distinct_in_order(init);
        assert forall|x: Seq<char>| #[trigger] distinct_in_order(s).contains(x) <==> s.contains(x) by {
            if s.contains(x) {
                let k = choose|k: int| 0 <= k < s.len() && s[k] == x;
                if k < s.len() - 1 {
                    assert(init[k] == x);
                    assert(init.contains(x));
                }
            }
            if init.contains(x) {
                let k = choose|k: int| 0 <= k < init.len() && init[k] == x;
                assert(s[k] == x);
            }
            if !before.contains(s.last()) {
                if distinct_in_order(s).contains(x) && x != s.last() {
                    let k = choose|k: int| 0 <= k < distinct_in_order(s).len() && distinct_in_order(s)[k] == x;
                    assert(before[k] == x);
                }
                if before.contains(x) {
                    let k = choose|k: int| 0 <= k < before.len() && before[k] == x;
                    assert(distinct_in_order(s)[k] == x);
                }
                assert(distinct_in_order(s)[before.len() as int] == s.last());
            }
        }
    }
}

/// The seasons of a name are exactly the media of that name: each one
/// returned carries the name, and each media that carries it is returned.
pub proof fn lemma_media_named(ms: Seq<MediaView>, name: Seq<char>)
    ensures
        forall|k: int|
            0 <= k < media_named(ms, name).len() ==> (#[trigger] media_named(ms, name)[k]).name
                == name,
        forall|m: MediaView| ms.contains(m) && m.name == name ==> #[trigger] media_named(
            ms,
            name,
        ).contains(m),
        media_named(ms, name).len() <= ms.len(),
    decreases ms.len(),
{
    if ms.len() > 0 {
        let init = ms.drop_last();
        lemma_media_named(init, name);
        let before = media_named(init, name);
        assert forall|m: MediaView| ms.contains(m) && m.name == name implies #[trigger] media_named(
            ms,
            name,
        ).contains(m) by {
            let k = choose|k: int| 0 <= k < ms.len() && ms[k] == m;
            if k < ms.len() - 1 {
                assert(init[k] == m);
                assert(init.contains(m));
                assert(media_named(init, name).contains(m));
                let j = choose|j: int| 0 <= j < before.len() && before[j] == m;
                assert(media_named(ms, name)[j] == m);
            } else {
                assert(media_named(ms, name).last() == m);
            }
        }
    }
}

impl Medias {
    /// The names of the animes, each once, in order of first appearance.
    pub fn get_name(&self) -> (r: Vec<String>)
        ensures
            strings_view(r@) == distinct_in_order(media_view(self.media@).map_values(|m: MediaView| m.name)),
    {
        let ghost names = media_view(self.media@).map_values(|m: MediaView| m.name);
        let mut names_out: Vec<String> = Vec::new();
        let mut k: usize = 0;
        while k < self.media.len()
            invariant
                k <= self.media@.len(),
                names == media_view(self.media@).map_values(|m: MediaView| m.name),
                strings_view(names_out@) == distinct_in_order(names.take(k as int)),
            decreases self.media.len() - k,
        {
            let name = self.media[k].name_of();
            proof {
                assert(names.take(k + 1).drop_last() == names.take(k as int));
                assert(names[k as int] == name@);
            }
            if !strings_contain(&names_out, name) {
                let ghost before = names_out@;
                names_out.push(name.clone());
                proof {
                    assert(strings_view(names_out@) =~= strings_view(before).push(name@));
                }
            }
            k += 1;
        }
        proof {
            assert(names.take(k as int) == names);
        }
        names_out
    }

    /// The seasons of the anime named `name`, in order.
    pub fn get_seasons_from_str(self, name: &str) -> (r: Vec<Media>)
        ensures
            media_view(r@) == media_named(media_view(self.media@), name@),
    {
        let ghost all = media_view(self.media@);
        let name_s = String::from_str(name);
        let mut r: Vec<Media> = Vec::new();
        for m in it: self.media
            invariant
                all == media_view(it.seq()),
                name_s@ == name@,
                media_view(r@) == media_named(all.take(it.index()), name@),
        {
            proof {
                assert(all.take(it.index() + 1).drop_last() == all.take(it.index()));
                assert(all[it.index()] == m@);
            }
            if m.name == name_s {
                let ghost before = r@;
                r.push(m);
                proof {
                    assert(media_view(r@) =~= media_view(before).push(all[it.index()]));
                }
            }
        }
        proof {
            assert(all.take(all.len() as int) == all);
        }
        r
    }
}

} // verus!
