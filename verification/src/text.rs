//! Character-level text primitives: whitespace, trimming, searching.

use vstd::prelude::*;

verus! {

broadcast use vstd::string::group_string_axioms;

/// Unicode `White_Space`: the set that `char::is_whitespace` and the
/// `\s` class of a Unicode regular expression accept.
pub open spec fn is_white_space(c: char) -> bool {
    let n = c as u32;
    ||| 0x09 <= n <= 0x0D
    ||| n == 0x20
    ||| n == 0x85
    ||| n == 0xA0
    ||| n == 0x1680
    ||| 0x2000 <= n <= 0x200A
    ||| n == 0x2028
    ||| n == 0x2029
    ||| n == 0x202F
    ||| n == 0x205F
    ||| n == 0x3000
}

/// Whether `c` is Unicode white space (`char::is_whitespace`).
pub fn white_space(c: char) -> (r: bool)
    ensures
        r == is_white_space(c),
{
    let n = c as u32;
    (0x09 <= n && n <= 0x0D) || n == 0x20 || n == 0x85 || n == 0xA0 || n == 0x1680 || (0x2000
        <= n && n <= 0x200A) || n == 0x2028 || n == 0x2029 || n == 0x202F || n == 0x205F || n
        == 0x3000
}

/// The characters of a string slice, in order.
pub fn chars_of(s: &str) -> (v: Vec<char>)
    ensures
        v@ == s@,
{
    let mut v: Vec<char> = Vec::new();
    for c in it: s.chars()
        invariant
            v@ == it.seq().take(it.index()),
    {
        v.push(c);
    }
    v
}


/// Builds a `String` from characters (std's `FromIterator<&char>` for
/// `String`): the string holds exactly these characters, in order.
#[verifier::external_body]
pub fn string_from_chars(v: &Vec<char>) -> (s: String)
    ensures
        s@ == v@,
{
    v.iter().collect()
}

/// `s` with leading whitespace removed.
pub open spec fn trim_start(s: Seq<char>) -> Seq<char>
    decreases s.len(),
{
    if s.len() > 0 && is_white_space(s[0]) {
        trim_start(s.drop_first())
    } else {
        s
    }
}

/// `s` with trailing whitespace removed.
pub open spec fn trim_end(s: Seq<char>) -> Seq<char>
    decreases s.len(),
{
    if s.len() > 0 && is_white_space(s.last()) {
        trim_end(s.drop_last())
    } else {
        s
    }
}

/// `s` with leading and trailing whitespace removed (`str::trim`).
pub open spec fn trim(s: Seq<char>) -> Seq<char> {
    trim_end(trim_start(s))
}

/// `s` with every trailing `c` removed (`str::trim_end_matches` with a char).
pub open spec fn trim_end_char(s: Seq<char>, c: char) -> Seq<char>
    decreases s.len(),
{
    if s.len() > 0 && s.last() == c {
        trim_end_char(s.drop_last(), c)
    } else {
        s
    }
}

proof fn lemma_trim_start_skip(s: Seq<char>, i: int)
    requires
        0 <= i <= s.len(),
        forall|j: int| 0 <= j < i ==> is_white_space(#[trigger] s[j]),
    ensures
        trim_start(s) == trim_start(s.skip(i)),
    decreases i,
{
    if i > 0 {
        assert(s.skip(1) == s.drop_first());
        lemma_trim_start_skip(s.drop_first(), i - 1);
        assert(s.drop_first().skip(i - 1) == s.skip(i));
    } else {
        assert(s.skip(0) == s);
    }
}

proof fn lemma_trim_end_take(s: Seq<char>, i: int)
    requires
        0 <= i <= s.len(),
        forall|j: int| i <= j < s.len() ==> is_white_space(#[trigger] s[j]),
    ensures
        trim_end(s) == trim_end(s.take(i)),
    decreases s.len() - i,
{
    if i < s.len() {
        assert(s.drop_last().take(i) == s.take(i));
        lemma_trim_end_take(s.drop_last(), i);
    } else {
        assert(s.take(i) == s);
    }
}

proof fn lemma_trim_end_char_take(s: Seq<char>, c: char, i: int)
    requires
        0 <= i <= s.len(),
        forall|j: int| i <= j < s.len() ==> #[trigger] s[j] == c,
    ensures
        trim_end_char(s, c) == trim_end_char(s.take(i), c),
    decreases s.len() - i,
{
    if i < s.len() {
        assert(s.drop_last().take(i) == s.take(i));
        lemma_trim_end_char_take(s.drop_last(), c, i);
    } else {
        assert(s.take(i) == s);
    }
}

/// The characters of `s` in `[from, to)`.
pub fn slice_chars(s: &Vec<char>, from: usize, to: usize) -> (r: Vec<char>)
    requires
        from <= to <= s.len(),
    ensures
        r@ == s@.subrange(from as int, to as int),
{
    let mut r: Vec<char> = Vec::new();
    let mut i = from;
    while i < to
        invariant
            from <= i <= to <= s.len(),
            r@ == s@.subrange(from as int, i as int),
        decreases to - i,
    {
        r.push(s[i]);
        i += 1;
    }
    r
}

/// `str::trim` on a character vector.
pub fn trim_chars(s: &Vec<char>) -> (r: Vec<char>)
    ensures
        r@ == trim(s@),
{
    let mut a: usize = 0;
    while a < s.len() && white_space(s[a])
        invariant
            a <= s.len(),
            forall|j: int| 0 <= j < a ==> is_white_space(#[trigger] s@[j]),
        decreases s.len() - a,
    {
        a += 1;
    }
    proof {
        lemma_trim_start_skip(s@, a as int);
        assert(trim_start(s@.skip(a as int)) == s@.skip(a as int));
    }
    let mut b: usize = s.len();
    while b > a && white_space(s[b - 1])
        invariant
            a <= b <= s.len(),
            forall|j: int| b <= j < s.len() ==> is_white_space(#[trigger] s@[j]),
        decreases b,
    {
        b -= 1;
    }
    proof {
        let t = s@.skip(a as int);
        assert forall|j: int| (b - a) <= j < t.len() implies is_white_space(#[trigger] t[j]) by {
            assert(t[j] == s@[j + a]);
        }
        lemma_trim_end_take(t, b - a);
        assert(t.take(b - a) == s@.subrange(a as int, b as int));
    }
    slice_chars(s, a, b)
}

/// `str::trim_end_matches(c)` on a character vector.
pub fn trim_end_char_chars(s: &Vec<char>, c: char) -> (r: Vec<char>)
    ensures
        r@ == trim_end_char(s@, c),
{
    let mut b: usize = s.len();
    while b > 0 && s[b - 1] == c
        invariant
            b <= s.len(),
            forall|j: int| b <= j < s.len() ==> #[trigger] s@[j] == c,
        decreases b,
    {
        b -= 1;
    }
    proof {
        lemma_trim_end_char_take(s@, c, b as int);
        assert(s@.take(b as int) == s@.subrange(0, b as int));
    }
    slice_chars(s, 0, b)
}

/// `p` occurs in `s` starting at index `i`.
pub open spec fn occurs_at(s: Seq<char>, i: int, p: Seq<char>) -> bool {
    &&& 0 <= i
    &&& i + p.len() <= s.len()
    &&& s.subrange(i, i + p.len()) == p
}

/// `p` occurs somewhere in `s` (`str::contains`).
pub open spec fn contains(s: Seq<char>, p: Seq<char>) -> bool {
    exists|i: int| occurs_at(s, i, p)
}

/// `s` starts with `p` (`str::starts_with`).
pub open spec fn starts_with(s: Seq<char>, p: Seq<char>) -> bool {
    occurs_at(s, 0, p)
}

/// `s` ends with `p` (`str::ends_with`).
pub open spec fn ends_with(s: Seq<char>, p: Seq<char>) -> bool {
    occurs_at(s, s.len() - p.len(), p)
}

/// Whether `p` occurs in `s` at `i`.
pub fn occurs_at_exec(s: &Vec<char>, i: usize, p: &Vec<char>) -> (r: bool)
    ensures
        r == occurs_at(s@, i as int, p@),
{
    if i > s.len() || p.len() > s.len() - i {
        return false;
    }
    let mut k: usize = 0;
    while k < p.len()
        invariant
            i + p.len() <= s.len(),
            k <= p.len(),
            forall|j: int| 0 <= j < k ==> s@[i + j] == p@[j],
        decreases p.len() - k,
    {
        if s[i + k] != p[k] {
            assert(s@.subrange(i as int, i + p.len())[k as int] != p@[k as int]);
            return false;
        }
        k += 1;
    }
    assert(s@.subrange(i as int, i + p.len()) == p@);
    true
}

/// The first index at which `p` occurs in `s` (`str::find`).
pub fn find(s: &Vec<char>, p: &Vec<char>) -> (r: Option<usize>)
    ensures
        match r {
            Some(i) => occurs_at(s@, i as int, p@) && forall|j: int|
                0 <= j < i ==> !occurs_at(s@, j, p@),
            None => !contains(s@, p@),
        },
{
    if p.len() > s.len() {
        return None;
    }
    let last = s.len() - p.len();
    let mut i: usize = 0;
    loop
        invariant
            last == s.len() - p.len(),
            i <= last,
            forall|j: int| 0 <= j < i ==> !occurs_at(s@, j, p@),
        decreases last - i,
    {
        if occurs_at_exec(s, i, p) {
            return Some(i);
        }
        if i == last {
            return None;
        }
        i += 1;
    }
}

/// The last index at which `p` occurs in `s` (`str::rfind`).
pub fn rfind(s: &Vec<char>, p: &Vec<char>) -> (r: Option<usize>)
    ensures
        match r {
            Some(i) => occurs_at(s@, i as int, p@) && forall|j: int|
                i < j ==> !occurs_at(s@, j, p@),
            None => !contains(s@, p@),
        },
{
    if p.len() > s.len() {
        return None;
    }
    let mut i: usize = s.len() - p.len();
    loop
        invariant
            p.len() <= s.len(),
            i <= s.len() - p.len(),
            forall|j: int| i < j ==> !occurs_at(s@, j, p@),
        decreases i,
    {
        if occurs_at_exec(s, i, p) {
            return Some(i);
        }
        if i == 0 {
            return None;
        }
        i -= 1;
    }
}

/// Whether `p` occurs in `s`.
pub fn contains_exec(s: &Vec<char>, p: &Vec<char>) -> (r: bool)
    ensures
        r == contains(s@, p@),
{
    find(s, p).is_some()
}


/// The views of a sequence of strings.
pub open spec fn strings_view(v: Seq<String>) -> Seq<Seq<char>> {
    v.map_values(|x: String| x@)
}

/// `a` followed by `b`.
pub fn concat(a: &Vec<char>, b: &Vec<char>) -> (r: Vec<char>)
    ensures
        r@ == a@ + b@,
{
    let mut r = a.clone();
    let mut o = b.clone();
    r.append(&mut o);
    r
}

/// Whether `v` holds a string equal to `s` (`Vec::contains`).
pub fn strings_contain(v: &Vec<String>, s: &String) -> (r: bool)
    ensures
        r == strings_view(v@).contains(s@),
{
    let mut k: usize = 0;
    while k < v.len()
        invariant
            k <= v@.len(),
            forall|j: int| 0 <= j < k ==> v@[j]@ != s@,
        decreases v.len() - k,
    {
        if v[k] == *s {
            assert(strings_view(v@)[k as int] == s@);
            return true;
        }
        k += 1;
    }
    proof {
        if strings_view(v@).contains(s@) {
            let j = choose|j: int| 0 <= j < strings_view(v@).len() && strings_view(v@)[j] == s@;
            assert(v@[j]@ == s@);
        }
    }
    false
}


/// The strings of `list` joined by `sep` (`[S]::join`).
pub open spec fn join(list: Seq<Seq<char>>, sep: Seq<char>) -> Seq<char>
    decreases list.len(),
{
    if list.len() == 0 {
        seq![]
    } else if list.len() == 1 {
        list[0]
    } else {
        join(list.drop_last(), sep) + sep + list.last()
    }
}

/// `list.join(sep)`.
pub fn join_strings(list: &Vec<String>, sep: &str) -> (r: Vec<char>)
    ensures
        r@ == join(strings_view(list@), sep@),
{
    let ghost lv = strings_view(list@);
    let sep_chars = chars_of(sep);
    let mut r: Vec<char> = Vec::new();
    let mut k: usize = 0;
    while k < list.len()
        invariant
            k <= list@.len(),
            lv == strings_view(list@),
            sep_chars@ == sep@,
            r@ == join(lv.take(k as int), sep@),
        decreases list.len() - k,
    {
        let item = chars_of(list[k].as_str());
        proof {
            assert(lv.take(k + 1).drop_last() == lv.take(k as int));
            assert(lv[k as int] == list@[k as int]@);
        }
        if k == 0 {
            r = item;
            proof {
                assert(lv.take(1) == seq![lv[0]]);
            }
        } else {
            r = concat(&r, &sep_chars);
            r = concat(&r, &item);
        }
        k += 1;
    }
    proof {
        assert(lv.take(k as int) == lv);
    }
    r
}


/// Which characters separate the pieces of a split.
pub enum Separators {
    /// A line feed (`split('\n')`).
    Line,
    /// A comma (`split(',')`).
    Comma,
    /// Unicode white space (`split(char::is_whitespace)`).
    WhiteSpace,
}

/// `c` separates pieces under `sep`.
pub open spec fn is_separator(sep: Separators, c: char) -> bool {
    match sep {
        Separators::Line => c == '\n',
        Separators::Comma => c == ',',
        Separators::WhiteSpace => is_white_space(c),
    }
}

fn separator(sep: &Separators, c: char) -> (r: bool)
    ensures
        r == is_separator(*sep, c),
{
    match sep {
        Separators::Line => c == '\n',
        Separators::Comma => c == ',',
        Separators::WhiteSpace => white_space(c),
    }
}

/// The pieces of `s` between separators, empty pieces included
/// (`str::split`): one more piece than there are separators.
pub open spec fn split_pieces(s: Seq<char>, sep: Separators) -> Seq<Seq<char>>
    decreases s.len(),
{
    if s.len() == 0 {
        seq![seq![]]
    } else {
        let p = split_pieces(s.drop_last(), sep);
        if is_separator(sep, s.last()) {
            p.push(seq![])
        } else {
            p.update(p.len() - 1, p.last().push(s.last()))
        }
    }
}

/// A split has at least one piece.
pub proof fn lemma_split_pieces_len(s: Seq<char>, sep: Separators)
    ensures
        split_pieces(s, sep).len() >= 1,
    decreases s.len(),
{
    if s.len() > 0 {
        lemma_split_pieces_len(s.drop_last(), sep);
    }
}

/// The pieces of `s` between separators, in order.
pub fn split_chars(s: &Vec<char>, sep: &Separators) -> (r: Vec<Vec<char>>)
    ensures
        r@.len() == split_pieces(s@, *sep).len(),
        forall|k: int| 0 <= k < r@.len() ==> #[trigger] r@[k]@ == split_pieces(s@, *sep)[k],
{
    let mut done: Vec<Vec<char>> = Vec::new();
    let mut cur: Vec<char> = Vec::new();
    let mut i: usize = 0;
    while i < s.len()
        invariant
            i <= s@.len(),
            ({
                let p = split_pieces(s@.take(i as int), *sep);
                &&& done@.len() + 1 == p.len()
                &&& forall|k: int| 0 <= k < done@.len() ==> #[trigger] done@[k]@ == p[k]
                &&& cur@ == p.last()
            }),
        decreases s.len() - i,
    {
        proof {
            assert(s@.take(i + 1).drop_last() == s@.take(i as int));
            lemma_split_pieces_len(s@.take(i as int), *sep);
        }
        if separator(sep, s[i]) {
            done.push(cur);
            cur = Vec::new();
        } else {
            cur.push(s[i]);
        }
        i += 1;
    }
    proof {
        assert(s@.take(i as int) == s@);
    }
    done.push(cur);
    done
}

/// The non-empty pieces of `s` between separators.
pub open spec fn nonempty_pieces(p: Seq<Seq<char>>) -> Seq<Seq<char>>
    decreases p.len(),
{
    if p.len() == 0 {
        seq![]
    } else if p.last().len() > 0 {
        nonempty_pieces(p.drop_last()).push(p.last())
    } else {
        nonempty_pieces(p.drop_last())
    }
}

/// The words of `s`: its maximal runs of non-white-space characters
/// (`str::split_whitespace`).
pub open spec fn words(s: Seq<char>) -> Seq<Seq<char>> {
    nonempty_pieces(split_pieces(s, Separators::WhiteSpace))
}

/// The words of `s`, in order.
pub fn words_chars(s: &Vec<char>) -> (r: Vec<Vec<char>>)
    ensures
        r@.len() == words(s@).len(),
        forall|k: int| 0 <= k < r@.len() ==> #[trigger] r@[k]@ == words(s@)[k],
{
    let pieces = split_chars(s, &Separators::WhiteSpace);
    let ghost p = split_pieces(s@, Separators::WhiteSpace);
    let mut r: Vec<Vec<char>> = Vec::new();
    let mut k: usize = 0;
    while k < pieces.len()
        invariant
            k <= pieces@.len(),
            pieces@.len() == p.len(),
            forall|j: int| 0 <= j < pieces@.len() ==> #[trigger] pieces@[j]@ == p[j],
            r@.len() == nonempty_pieces(p.take(k as int)).len(),
            forall|j: int| 0 <= j < r@.len() ==> #[trigger] r@[j]@ == nonempty_pieces(p.take(k as int))[j],
        decreases pieces.len() - k,
    {
        proof {
            assert(p.take(k + 1).drop_last() == p.take(k as int));
            assert(pieces@[k as int]@ == p[k as int]);
        }
        if pieces[k].len() > 0 {
            r.push(pieces[k].clone());
        }
        k += 1;
    }
    proof {
        assert(p.take(k as int) == p);
    }
    r
}


/// The first index at which `p` occurs in `s` (what `str::find` gives).
#[verifier::opaque]
pub open spec fn first_occurrence(s: Seq<char>, p: Seq<char>) -> Option<int> {
    if contains(s, p) {
        Some(choose|i: int| occurs_at(s, i, p) && forall|j: int| 0 <= j < i ==> !occurs_at(s, j, p))
    } else {
        None
    }
}

/// The last index at which `p` occurs in `s` (what `str::rfind` gives).
#[verifier::opaque]
pub open spec fn last_occurrence(s: Seq<char>, p: Seq<char>) -> Option<int> {
    if contains(s, p) {
        Some(choose|i: int| occurs_at(s, i, p) && forall|j: int| i < j ==> !occurs_at(s, j, p))
    } else {
        None
    }
}

/// The first index at which `p` occurs in `s`.
pub fn find_first(s: &Vec<char>, p: &Vec<char>) -> (r: Option<usize>)
    ensures
        match r {
            Some(i) => first_occurrence(s@, p@) == Some(i as int) && occurs_at(s@, i as int, p@),
            None => first_occurrence(s@, p@) is None,
        },
{
    let r = find(s, p);
    proof {
        reveal(first_occurrence);
        if let Some(i) = r {
            let k = choose|k: int| occurs_at(s@, k, p@) && forall|j: int| 0 <= j < k ==> !occurs_at(s@, j, p@);
            assert(occurs_at(s@, i as int, p@));
            if k < i {
                assert(!occurs_at(s@, k, p@));
            }
            if k > i {
                assert(!occurs_at(s@, i as int, p@));
            }
        }
    }
    r
}

/// The last index at which `p` occurs in `s`.
pub fn find_last(s: &Vec<char>, p: &Vec<char>) -> (r: Option<usize>)
    ensures
        match r {
            Some(i) => last_occurrence(s@, p@) == Some(i as int) && occurs_at(s@, i as int, p@),
            None => last_occurrence(s@, p@) is None,
        },
{
    let r = rfind(s, p);
    proof {
        reveal(last_occurrence);
        if let Some(i) = r {
            let k = choose|k: int| occurs_at(s@, k, p@) && forall|j: int| k < j ==> !occurs_at(s@, j, p@);
            assert(occurs_at(s@, i as int, p@));
            if k < i {
                assert(!occurs_at(s@, i as int, p@));
            }
            if k > i {
                assert(!occurs_at(s@, k, p@));
            }
        }
    }
    r
}


/// `s` with every occurrence of `p` removed, scanning from the left
/// without overlaps (`str::replace(p, "")`).
pub open spec fn remove_all(s: Seq<char>, p: Seq<char>) -> Seq<char>
    decreases s.len(),
{
    if p.len() == 0 {
        s
    } else {
        match first_occurrence(s, p) {
            Some(i) => if 0 <= i && i + p.len() <= s.len() {
                s.take(i) + remove_all(s.skip(i + p.len()), p)
            } else {
                s
            },
            None => s,
        }
    }
}

/// `s.replace(p, "")`.
pub fn remove_all_chars(s: &Vec<char>, p: &Vec<char>) -> (r: Vec<char>)
    ensures
        r@ == remove_all(s@, p@),
{
    if p.len() == 0 {
        return s.clone();
    }
    let mut out: Vec<char> = Vec::new();
    let mut rest = s.clone();
    while rest.len() > 0
        invariant
            p@.len() > 0,
            out@ + remove_all(rest@, p@) == remove_all(s@, p@),
        decreases rest.len(),
    {
        match find_first(&rest, p) {
            Some(i) => {
                let head = slice_chars(&rest, 0, i);
                let tail = slice_chars(&rest, i + p.len(), rest.len());
                proof {
                    assert(head@ == rest@.take(i as int));
                    assert(tail@ == rest@.skip(i + p@.len()));
                    assert(out@ + remove_all(rest@, p@) == (out@ + head@) + remove_all(tail@, p@));
                }
                out = concat(&out, &head);
                rest = tail;
            },
            None => {
                proof {
                    assert(remove_all(rest@, p@) == rest@);
                }
                return concat(&out, &rest);
            },
        }
    }
    proof {
        assert(remove_all(rest@, p@) == rest@);
    }
    out
}


/// Appending characters that are not separators extends the last piece.
pub proof fn lemma_split_append_plain(a: Seq<char>, b: Seq<char>, sep: Separators)
    requires
        forall|i: int| 0 <= i < b.len() ==> !is_separator(sep, #[trigger] b[i]),
    ensures
        ({
            let p = split_pieces(a, sep);
            split_pieces(a + b, sep) == p.update(p.len() - 1, p.last() + b)
        }),
    decreases b.len(),
{
    lemma_split_pieces_len(a, sep);
    let p = split_pieces(a, sep);
    if b.len() == 0 {
        assert(a + b == a);
        assert(p.last() + b == p.last());
        assert(p.update(p.len() - 1, p.last()) == p);
    } else {
        let b0 = b.drop_last();
        assert forall|i: int| 0 <= i < b0.len() implies !is_separator(sep, #[trigger] b0[i]) by {
            assert(b0[i] == b[i]);
        }
        lemma_split_append_plain(a, b0, sep);
        assert((a + b).drop_last() == a + b0);
        assert((a + b).last() == b.last());
        let q = p.update(p.len() - 1, p.last() + b0);
        assert(split_pieces(a + b, sep) == q.update(q.len() - 1, q.last().push(b.last())));
        assert((p.last() + b0).push(b.last()) == p.last() + b);
    }
}

/// Lines that hold no separator, joined by newlines, split back into the
/// same lines.
pub proof fn lemma_split_joined_lines(lines: Seq<Seq<char>>)
    requires
        lines.len() >= 1,
        forall|k: int, i: int|
            0 <= k < lines.len() && 0 <= i < lines[k].len() ==> !is_separator(
                Separators::Line,
                #[trigger] lines[k][i],
            ),
    ensures
        split_pieces(join(lines, "\n"@), Separators::Line) == lines,
    decreases lines.len(),
{
    let sep = Separators::Line;
    reveal_strlit("\n");
    if lines.len() == 1 {
        assert(join(lines, "\n"@) == lines[0]);
        assert forall|i: int| 0 <= i < lines[0].len() implies !is_separator(sep, #[trigger] lines[0][i]) by {}
        lemma_split_append_plain(Seq::empty(), lines[0], sep);
        assert(Seq::<char>::empty() + lines[0] == lines[0]);
        assert(split_pieces(Seq::<char>::empty(), sep) == seq![Seq::<char>::empty()]);
        assert(lines =~= seq![Seq::<char>::empty() + lines[0]]);
    } else {
        let init = lines.drop_last();
        assert forall|k: int, i: int|
            0 <= k < init.len() && 0 <= i < init[k].len() implies !is_separator(sep, #[trigger] init[k][i]) by {
            assert(init[k] == lines[k]);
        }
        lemma_split_joined_lines(init);
        let a = join(init, "\n"@);
        let a1 = a + "\n"@;
        assert(a1 == a.push('\n'));
        assert(split_pieces(a1, sep) == split_pieces(a, sep).push(Seq::<char>::empty())) by {
            assert(a1.drop_last() == a);
        }
        let last = lines.last();
        assert forall|i: int| 0 <= i < last.len() implies !is_separator(sep, #[trigger] last[i]) by {
            assert(last[i] == lines[lines.len() - 1][i]);
        }
        lemma_split_append_plain(a1, last, sep);
        assert(join(lines, "\n"@) == a1 + last);
        let q = init.push(Seq::<char>::empty());
        assert(Seq::<char>::empty() + last == last);
        assert(q.update(q.len() - 1, q.last() + last) =~= lines);
    }
}

/// Removing trailing `c` leaves a prefix that does not end with `c`.
pub proof fn lemma_trim_end_char_last(s: Seq<char>, c: char)
    ensures
        trim_end_char(s, c).len() > 0 ==> trim_end_char(s, c).last() != c,
        trim_end_char(s, c) == s.take(trim_end_char(s, c).len() as int),
        trim_end_char(s, c).len() <= s.len(),
    decreases s.len(),
{
    if s.len() > 0 && s.last() == c {
        lemma_trim_end_char_last(s.drop_last(), c);
        let t = trim_end_char(s.drop_last(), c);
        assert(s.drop_last().take(t.len() as int) == s.take(t.len() as int));
    } else {
        assert(s.take(s.len() as int) == s);
    }
}

/// Trimming the start leaves a suffix that starts with a non-space.
pub proof fn lemma_trim_start_props(s: Seq<char>)
    ensures
        trim_start(s).len() > 0 ==> !is_white_space(trim_start(s)[0]),
        trim_start(s).len() <= s.len(),
        trim_start(s) == s.skip(s.len() - trim_start(s).len()),
    decreases s.len(),
{
    if s.len() > 0 && is_white_space(s[0]) {
        lemma_trim_start_props(s.drop_first());
        let t = trim_start(s.drop_first());
        assert(s.drop_first().skip(s.drop_first().len() - t.len()) == s.skip(s.len() - t.len()));
    } else {
        assert(s.skip(0) == s);
    }
}

/// Trimming the end leaves a prefix that ends with a non-space.
pub proof fn lemma_trim_end_props(s: Seq<char>)
    ensures
        trim_end(s).len() > 0 ==> !is_white_space(trim_end(s).last()),
        trim_end(s).len() <= s.len(),
        trim_end(s) == s.take(trim_end(s).len() as int),
    decreases s.len(),
{
    if s.len() > 0 && is_white_space(s.last()) {
        lemma_trim_end_props(s.drop_last());
        let t = trim_end(s.drop_last());
        assert(s.drop_last().take(t.len() as int) == s.take(t.len() as int));
    } else {
        assert(s.take(s.len() as int) == s);
    }
}

/// A trimmed string starts and ends with a character that is not white
/// space.
pub proof fn lemma_trim_ends(s: Seq<char>)
    ensures
        trim(s).len() > 0 ==> !is_white_space(trim(s)[0]) && !is_white_space(trim(s).last()),
{
    lemma_trim_start_props(s);
    lemma_trim_end_props(trim_start(s));
    let t = trim(s);
    if t.len() > 0 {
        assert(t[0] == trim_start(s)[0]);
    }
}

/// A string that neither starts nor ends with white space is its own trim.
pub proof fn lemma_trim_identity(s: Seq<char>)
    requires
        s.len() == 0 || (!is_white_space(s[0]) && !is_white_space(s.last())),
    ensures
        trim(s) == s,
{
    assert(trim_start(s) == s);
    assert(trim_end(s) == s);
}

} // verus!
