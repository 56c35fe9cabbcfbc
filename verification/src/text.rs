//! Text as a sequence of characters: whitespace, trimming, words and lines.
//!
//! Every function of this module works on a buffer of characters and a range
//! of it, so that slicing costs nothing and a slice of the buffer is a
//! `subrange` of its view.

use vstd::prelude::*;

verus! {

/// `String::push` appends one character at the end of the string.
pub assume_specification[ String::push ](s: &mut String, c: char)
    ensures
        final(s)@ == old(s)@.push(c),
;

/// `str::from_utf8` reads bytes as text; it succeeds on valid UTF-8 alone, and
/// the text then has those bytes.
#[verifier::external_body]
pub(crate) fn text_of_bytes(bytes: &[u8]) -> (r: Option<&str>)
    ensures
        r is Some <==> vstd::utf8::valid_utf8(bytes@),
        r matches Some(s) ==> s@ == vstd::utf8::decode_utf8(bytes@),
{
    std::str::from_utf8(bytes).ok()
}

/// The text that `String::from_utf8_lossy` makes of bytes.
pub uninterp spec fn lossy_text(bytes: Seq<u8>) -> Seq<char>;

/// `String::from_utf8_lossy` reads bytes as text, and puts a replacement
/// character in the place of what is no valid UTF-8. Valid UTF-8 is read as it
/// stands; of other bytes no more is claimed than that the text depends on them
/// alone.
#[verifier::external_body]
pub(crate) fn read_lossy(bytes: &[u8]) -> (r: String)
    ensures
        r@ == lossy_text(bytes@),
        vstd::utf8::valid_utf8(bytes@) ==> r@ == vstd::utf8::decode_utf8(bytes@),
{
    String::from_utf8_lossy(bytes).into_owned()
}

/// The characters with the Unicode property `White_Space`.
pub open spec fn is_space(c: char) -> bool {
    let p = c as u32;
    ||| 0x09 <= p <= 0x0d
    ||| p == 0x20
    ||| p == 0x85
    ||| p == 0xa0
    ||| p == 0x1680
    ||| 0x2000 <= p <= 0x200a
    ||| p == 0x2028
    ||| p == 0x2029
    ||| p == 0x202f
    ||| p == 0x205f
    ||| p == 0x3000
}

/// Whether `c` is white space.
pub fn is_whitespace(c: char) -> (r: bool)
    ensures
        r == is_space(c),
{
    let p: u32 = c as u32;
    (0x09 <= p && p <= 0x0d) || p == 0x20 || p == 0x85 || p == 0xa0 || p == 0x1680 || (0x2000 <= p && p
        <= 0x200a) || p == 0x2028 || p == 0x2029 || p == 0x202f || p == 0x205f || p == 0x3000
}

/// `s` without its leading white space.
pub open spec fn trim_start(s: Seq<char>) -> Seq<char>
    decreases s.len(),
{
    if s.len() > 0 && is_space(s[0]) {
        trim_start(s.skip(1))
    } else {
        s
    }
}

/// `s` without its trailing white space.
pub open spec fn trim_end(s: Seq<char>) -> Seq<char>
    decreases s.len(),
{
    if s.len() > 0 && is_space(s.last()) {
        trim_end(s.drop_last())
    } else {
        s
    }
}

/// `s` without white space at either end.
pub open spec fn trim(s: Seq<char>) -> Seq<char> {
    trim_end(trim_start(s))
}

/// No white space stands at either end of `s`.
pub open spec fn trimmed(s: Seq<char>) -> bool {
    s.len() > 0 ==> !is_space(s[0]) && !is_space(s.last())
}

/// The number of elements before the first `stop`, or all of them.
pub open spec fn span<T>(s: Seq<T>, stop: T) -> nat
    decreases s.len(),
{
    if s.len() == 0 || s[0] == stop {
        0
    } else {
        1 + span(s.skip(1), stop)
    }
}

/// The number of characters before the first white space, or all of them.
pub open spec fn word_len(s: Seq<char>) -> nat
    decreases s.len(),
{
    if s.len() == 0 || is_space(s[0]) {
        0
    } else {
        1 + word_len(s.skip(1))
    }
}

/// The maximal runs of characters that are not white space.
pub open spec fn words(s: Seq<char>) -> Seq<Seq<char>>
    decreases s.len(),
{
    if s.len() == 0 {
        Seq::empty()
    } else if is_space(s[0]) {
        words(s.skip(1))
    } else {
        proof {
            lemma_word_len(s);
        }
        seq![s.take(word_len(s) as int)] + words(s.skip(word_len(s) as int))
    }
}

/// `s` without one carriage return at its end.
pub open spec fn without_cr(s: Seq<char>) -> Seq<char> {
    if s.len() > 0 && s.last() == '\r' {
        s.drop_last()
    } else {
        s
    }
}

/// The lines of `s`: each ends at a line feed, or at a carriage return and a
/// line feed, neither of which belongs to it; the last may lack its end.
pub open spec fn lines(s: Seq<char>) -> Seq<Seq<char>>
    decreases s.len(),
{
    if s.len() == 0 {
        Seq::empty()
    } else if span(s, '\n') >= s.len() {
        seq![s]
    } else {
        seq![without_cr(s.take(span(s, '\n') as int))] + lines(s.skip(span(s, '\n') as int + 1))
    }
}

/// The parts in order, with `sep` between each and the next.
pub open spec fn joined(parts: Seq<Seq<char>>, sep: char) -> Seq<char>
    decreases parts.len(),
{
    if parts.len() == 0 {
        Seq::empty()
    } else if parts.len() == 1 {
        parts[0]
    } else {
        joined(parts.drop_last(), sep).push(sep) + parts.last()
    }
}

pub proof fn lemma_span<T>(s: Seq<T>, stop: T)
    ensures
        span(s, stop) <= s.len(),
        forall|i: int| 0 <= i < span(s, stop) ==> s[i] != stop,
        span(s, stop) < s.len() ==> s[span(s, stop) as int] == stop,
    decreases s.len(),
{
    if s.len() > 0 && s[0] != stop {
        lemma_span(s.skip(1), stop);
        assert forall|i: int| 0 <= i < span(s, stop) implies s[i] != stop by {
            if i > 0 {
                assert(s.skip(1)[i - 1] == s[i]);
            }
        }
    }
}

/// A count with the two properties of `span` is `span`.
pub proof fn lemma_span_is<T>(s: Seq<T>, stop: T, n: nat)
    requires
        n <= s.len(),
        forall|i: int| 0 <= i < n ==> s[i] != stop,
        n < s.len() ==> s[n as int] == stop,
    ensures
        span(s, stop) == n,
{
    lemma_span(s, stop);
}

pub proof fn lemma_word_len(s: Seq<char>)
    ensures
        word_len(s) <= s.len(),
        forall|i: int| 0 <= i < word_len(s) ==> !is_space(s[i]),
        word_len(s) < s.len() ==> is_space(s[word_len(s) as int]),
    decreases s.len(),
{
    if s.len() > 0 && !is_space(s[0]) {
        lemma_word_len(s.skip(1));
        assert forall|i: int| 0 <= i < word_len(s) implies !is_space(s[i]) by {
            if i > 0 {
                assert(s.skip(1)[i - 1] == s[i]);
            }
        }
    }
}

/// `trim_start` is a suffix that does not begin with white space.
pub proof fn lemma_trim_start(s: Seq<char>)
    ensures
        trim_start(s).len() <= s.len(),
        trim_start(s) == s.skip(s.len() - trim_start(s).len()),
        trim_start(s).len() > 0 ==> !is_space(trim_start(s)[0]),
        forall|i: int| 0 <= i < s.len() - trim_start(s).len() ==> is_space(s[i]),
    decreases s.len(),
{
    if s.len() > 0 && is_space(s[0]) {
        lemma_trim_start(s.skip(1));
        let t = trim_start(s);
        assert(s.skip(1).skip(s.len() - 1 - t.len()) =~= s.skip(s.len() - t.len()));
        assert forall|i: int| 0 <= i < s.len() - t.len() implies is_space(s[i]) by {
            if i > 0 {
                assert(s.skip(1)[i - 1] == s[i]);
            }
        }
    }
}

/// `trim_end` is a prefix that does not end with white space.
pub proof fn lemma_trim_end(s: Seq<char>)
    ensures
        trim_end(s).len() <= s.len(),
        trim_end(s) == s.take(trim_end(s).len() as int),
        trim_end(s).len() > 0 ==> !is_space(trim_end(s).last()),
        forall|i: int| trim_end(s).len() <= i < s.len() ==> is_space(s[i]),
    decreases s.len(),
{
    if s.len() > 0 && is_space(s.last()) {
        lemma_trim_end(s.drop_last());
        let t = trim_end(s);
        assert(s.drop_last().take(t.len() as int) =~= s.take(t.len() as int));
        assert forall|i: int| t.len() <= i < s.len() implies is_space(s[i]) by {
            if i < s.len() - 1 {
                assert(s.drop_last()[i] == s[i]);
            }
        }
    } else {
        assert(s.take(s.len() as int) =~= s);
    }
}

/// Trimming leaves a text with no white space at either end.
pub proof fn lemma_trim_trimmed(s: Seq<char>)
    ensures
        trimmed(trim(s)),
{
    lemma_trim_start(s);
    lemma_trim_end(trim_start(s));
}

/// The characters of `s`.
pub fn chars_of(s: &str) -> (v: Vec<char>)
    ensures
        v@ == s@,
{
    let mut v: Vec<char> = Vec::new();
    for c in it: s.chars()
        invariant
            v@.len() == it.index(),
            it.seq() == s@,
            forall|i: int| 0 <= i < v@.len() ==> v@[i] == it.seq()[i],
    {
        v.push(c);
    }
    v
}

/// The text made of the characters `v[lo..hi]`.
pub fn string_of(v: &Vec<char>, lo: usize, hi: usize) -> (s: String)
    requires
        lo <= hi <= v@.len(),
    ensures
        s@ == v@.subrange(lo as int, hi as int),
{
    let mut s = String::new();
    let mut i: usize = lo;
    while i < hi
        invariant
            lo <= i <= hi <= v@.len(),
            s@ == v@.subrange(lo as int, i as int),
        decreases hi - i,
    {
        s.push(v[i]);
        i += 1;
    }
    s
}

/// Where `v[lo..hi]` begins after its leading white space.
pub fn start_of_text(v: &Vec<char>, lo: usize, hi: usize) -> (r: usize)
    requires
        lo <= hi <= v@.len(),
    ensures
        lo <= r <= hi,
        v@.subrange(r as int, hi as int) == trim_start(v@.subrange(lo as int, hi as int)),
{
    let mut i: usize = lo;
    while i < hi && is_whitespace(v[i])
        invariant
            lo <= i <= hi <= v@.len(),
            trim_start(v@.subrange(lo as int, hi as int)) == trim_start(v@.subrange(i as int, hi as int)),
        decreases hi - i,
    {
        assert(v@.subrange(i as int, hi as int).skip(1) =~= v@.subrange(i + 1, hi as int));
        i += 1;
    }
    i
}

/// Where `v[lo..hi]` ends before its trailing white space.
pub fn end_of_text(v: &Vec<char>, lo: usize, hi: usize) -> (r: usize)
    requires
        lo <= hi <= v@.len(),
    ensures
        lo <= r <= hi,
        v@.subrange(lo as int, r as int) == trim_end(v@.subrange(lo as int, hi as int)),
{
    let mut i: usize = hi;
    while i > lo && is_whitespace(v[i - 1])
        invariant
            lo <= i <= hi <= v@.len(),
            trim_end(v@.subrange(lo as int, hi as int)) == trim_end(v@.subrange(lo as int, i as int)),
        decreases i,
    {
        assert(v@.subrange(lo as int, i as int).drop_last() =~= v@.subrange(lo as int, i - 1));
        i -= 1;
    }
    i
}

/// The range of `v[lo..hi]` without white space at either end.
pub fn text_range(v: &Vec<char>, lo: usize, hi: usize) -> (r: (usize, usize))
    requires
        lo <= hi <= v@.len(),
    ensures
        lo <= r.0 <= r.1 <= hi,
        v@.subrange(r.0 as int, r.1 as int) == trim(v@.subrange(lo as int, hi as int)),
{
    let a: usize = start_of_text(v, lo, hi);
    let b: usize = end_of_text(v, a, hi);
    (a, b)
}

/// Whether `v[lo..hi]` begins with `p`.
pub fn starts_with(v: &Vec<char>, lo: usize, hi: usize, p: &Vec<char>) -> (r: bool)
    requires
        lo <= hi <= v@.len(),
    ensures
        r == p@.is_prefix_of(v@.subrange(lo as int, hi as int)),
{
    if p.len() > hi - lo {
        return false;
    }
    let mut i: usize = 0;
    while i < p.len()
        invariant
            i <= p@.len() <= hi - lo,
            lo <= hi <= v@.len(),
            forall|j: int| 0 <= j < i ==> p@[j] == v@[lo + j],
        decreases p.len() - i,
    {
        if p[i] != v[lo + i] {
            assert(v@.subrange(lo as int, hi as int)[i as int] != p@[i as int]);
            return false;
        }
        i += 1;
    }
    assert(p@ =~= v@.subrange(lo as int, hi as int).subrange(0, p@.len() as int));
    true
}

/// Whether `v[lo..hi]` ends with `p`.
pub fn ends_with(v: &Vec<char>, lo: usize, hi: usize, p: &Vec<char>) -> (r: bool)
    requires
        lo <= hi <= v@.len(),
    ensures
        r == p@.is_suffix_of(v@.subrange(lo as int, hi as int)),
{
    if p.len() > hi - lo {
        return false;
    }
    let at: usize = hi - p.len();
    let whole = starts_with(v, at, hi, p);
    assert(v@.subrange(at as int, hi as int) =~= v@.subrange(lo as int, hi as int).subrange(
        hi - lo - p@.len(),
        hi - lo,
    ));
    assert(v@.subrange(at as int, hi as int).subrange(0, p@.len() as int) =~= v@.subrange(
        at as int,
        hi as int,
    ));
    whole
}

/// The position of the first `stop` in `v[lo..hi]`, or `hi`.
pub fn find_char(v: &Vec<char>, lo: usize, hi: usize, stop: char) -> (r: usize)
    requires
        lo <= hi <= v@.len(),
    ensures
        lo <= r <= hi,
        r - lo == span(v@.subrange(lo as int, hi as int), stop),
{
    let mut i: usize = lo;
    while i < hi && v[i] != stop
        invariant
            lo <= i <= hi <= v@.len(),
            forall|j: int| lo <= j < i ==> v@[j] != stop,
        decreases hi - i,
    {
        i += 1;
    }
    proof {
        lemma_span_is(v@.subrange(lo as int, hi as int), stop, (i - lo) as nat);
    }
    i
}

/// Each text by its characters.
pub open spec fn views(texts: Seq<String>) -> Seq<Seq<char>> {
    Seq::new(texts.len(), |i: int| texts[i]@)
}

/// The words of `s`.
pub fn words_of(s: &str) -> (r: Vec<String>)
    ensures
        views(r@) == words(s@),
{
    let v = chars_of(s);
    let n: usize = v.len();
    let mut out: Vec<String> = Vec::new();
    let mut i: usize = 0;
    assert(v@.subrange(0, n as int) =~= s@);
    assert(views(out@) + words(s@) =~= words(s@));
    while i < n
        invariant
            i <= n == v@.len(),
            v@ == s@,
            views(out@) + words(v@.subrange(i as int, n as int)) == words(s@),
        decreases n - i,
    {
        let ghost rest = v@.subrange(i as int, n as int);
        if is_whitespace(v[i]) {
            assert(rest.skip(1) =~= v@.subrange(i + 1, n as int));
            i += 1;
        } else {
            let mut j: usize = i;
            while j < n && !is_whitespace(v[j])
                invariant
                    i <= j <= n == v@.len(),
                    word_len(v@.subrange(i as int, n as int)) == (j - i) + word_len(
                        v@.subrange(j as int, n as int),
                    ),
                decreases n - j,
            {
                assert(v@.subrange(j as int, n as int).skip(1) =~= v@.subrange(j + 1, n as int));
                j += 1;
            }
            let word = string_of(&v, i, j);
            proof {
                assert(!is_space(rest[0]));
                assert(word_len(rest) == j - i);
                assert(rest.take(j - i) =~= v@.subrange(i as int, j as int));
                assert(rest.skip(j - i) =~= v@.subrange(j as int, n as int));
            }
            let ghost before = out@;
            out.push(word);
            proof {
                assert(views(out@) =~= views(before).push(word@));
                assert(views(before).push(word@) + words(rest.skip(j - i)) =~= views(before) + (seq![word@]
                    + words(rest.skip(j - i))));
            }
            i = j;
        }
    }
    assert(v@.subrange(n as int, n as int) =~= Seq::<char>::empty());
    assert(views(out@) + Seq::<Seq<char>>::empty() =~= views(out@));
    out
}

/// The parts in order, with `sep` between each and the next.
pub fn join(parts: &Vec<String>, sep: char) -> (r: String)
    ensures
        r@ == joined(views(parts@), sep),
{
    let mut r = String::new();
    let mut i: usize = 0;
    assert(views(parts@).take(0) =~= Seq::<Seq<char>>::empty());
    while i < parts.len()
        invariant
            i <= parts@.len(),
            r@ == joined(views(parts@).take(i as int), sep),
        decreases parts.len() - i,
    {
        if i > 0 {
            r.push(sep);
        }
        r.append(parts[i].as_str());
        proof {
            let next = views(parts@).take(i + 1);
            assert(next.drop_last() =~= views(parts@).take(i as int));
            assert(next.last() == parts@[i as int]@);
            if i == 0 {
                assert(views(parts@).take(0) =~= Seq::<Seq<char>>::empty());
            }
        }
        i += 1;
    }
    assert(views(parts@).take(parts@.len() as int) =~= views(parts@));
    r
}

/// `s` without white space at either end.
pub fn trim_text(s: &str) -> (r: String)
    ensures
        r@ == trim(s@),
{
    let v = chars_of(s);
    let (a, b): (usize, usize) = text_range(&v, 0, v.len());
    assert(v@.subrange(0, v@.len() as int) =~= s@);
    string_of(&v, a, b)
}

/// A copy of `s`.
pub fn copy_of(s: &str) -> (r: String)
    ensures
        r@ == s@,
{
    s.to_owned()
}

/// Whether two texts have the same characters.
pub fn same_text(a: &str, b: &str) -> (r: bool)
    ensures
        r == (a@ == b@),
{
    let v = chars_of(a);
    let w = chars_of(b);
    if v.len() != w.len() {
        return false;
    }
    assert(w@.subrange(0, w@.len() as int) =~= b@);
    assert(b@.subrange(0, b@.len() as int) =~= b@);
    starts_with(&w, 0, w.len(), &v)
}

/// Whether `s` is a word: not empty, and without white space.
pub open spec fn is_word(s: Seq<char>) -> bool {
    s.len() > 0 && forall|i: int| 0 <= i < s.len() ==> !is_space(#[trigger] s[i])
}

/// The words of a text are words.
pub proof fn lemma_words_are_words(s: Seq<char>)
    ensures
        forall|i: int| 0 <= i < words(s).len() ==> is_word(#[trigger] words(s)[i]),
    decreases s.len(),
{
    if s.len() > 0 {
        if is_space(s[0]) {
            lemma_words_are_words(s.skip(1));
            assert(words(s) == words(s.skip(1)));
        } else {
            let n = word_len(s) as int;
            lemma_word_len(s);
            assert(n > 0);
            let rest = words(s.skip(n));
            assert(words(s) == seq![s.take(n)] + rest);
            assert(is_word(s.take(n))) by {
                assert forall|i: int| 0 <= i < n implies !is_space(#[trigger] s.take(n)[i]) by {
                    assert(s.take(n)[i] == s[i]);
                }
            }
            lemma_words_are_words(s.skip(n));
            assert forall|i: int| 0 <= i < words(s).len() implies is_word(#[trigger] words(s)[i]) by {
                if i > 0 {
                    assert(words(s)[i] == rest[i - 1]);
                }
            }
        }
    }
}

/// The words of two texts with a space between them.
pub proof fn lemma_words_joined(a: Seq<char>, b: Seq<char>)
    ensures
        words(a.push(' ') + b) == words(a) + words(b),
    decreases a.len(),
{
    let whole = a.push(' ') + b;
    if a.len() == 0 {
        assert(whole[0] == ' ');
        assert(whole.skip(1) =~= b);
        assert(words(a) + words(b) =~= words(b));
    } else if is_space(a[0]) {
        assert(whole[0] == a[0]);
        assert(whole.skip(1) =~= a.skip(1).push(' ') + b);
        lemma_words_joined(a.skip(1), b);
    } else {
        let n = word_len(a) as int;
        lemma_word_len(a);
        lemma_word_len_is(whole, n as nat);
        assert(whole[0] == a[0]);
        assert(whole.take(n) =~= a.take(n));
        assert(whole.skip(n) =~= a.skip(n).push(' ') + b);
        lemma_words_joined(a.skip(n), b);
        assert(words(whole) =~= words(a) + words(b));
    }
}

/// A count with the two properties of `word_len` is `word_len`.
proof fn lemma_word_len_is(s: Seq<char>, n: nat)
    requires
        n <= s.len(),
        forall|i: int| 0 <= i < n ==> !is_space(#[trigger] s[i]),
        n < s.len() ==> is_space(s[n as int]),
    ensures
        word_len(s) == n,
{
    lemma_word_len(s);
}

/// A word has itself as its one word.
pub proof fn lemma_one_word(w: Seq<char>)
    requires
        is_word(w),
    ensures
        words(w) == seq![w],
{
    lemma_word_len_is(w, w.len());
    assert(w.take(w.len() as int) =~= w);
    assert(w.skip(w.len() as int) =~= Seq::<char>::empty());
    assert(words(Seq::<char>::empty()) =~= Seq::<Seq<char>>::empty());
    assert(words(w) =~= seq![w]);
}

/// Words with spaces between them are those words.
pub proof fn lemma_words_of_joined(ws: Seq<Seq<char>>)
    requires
        forall|i: int| 0 <= i < ws.len() ==> is_word(#[trigger] ws[i]),
    ensures
        words(joined(ws, ' ')) == ws,
    decreases ws.len(),
{
    if ws.len() == 0 {
        assert(words(Seq::<char>::empty()) =~= ws);
    } else {
        let front = ws.drop_last();
        assert(is_word(ws[ws.len() - 1]));
        lemma_one_word(ws.last());
        assert(front.push(ws.last()) =~= ws);
        if ws.len() > 1 {
            assert forall|i: int| 0 <= i < front.len() implies is_word(#[trigger] front[i]) by {
                assert(front[i] == ws[i]);
            }
            lemma_words_of_joined(front);
            lemma_words_joined(joined(front, ' '), ws.last());
            assert(front + seq![ws.last()] =~= ws);
        } else {
            assert(ws =~= seq![ws.last()]);
        }
    }
}

/// Whether words stand in `s` with one space between each and the next, and
/// nothing else.
pub open spec fn single_spaced(s: Seq<char>) -> bool {
    &&& trimmed(s)
    &&& forall|i: int| 0 <= i < s.len() && is_space(#[trigger] s[i]) ==> s[i] == ' '
    &&& forall|i: int, j: int|
        #![trigger s[i], s[j]]
        0 <= i && j == i + 1 && j < s.len() ==> !(is_space(s[i]) && is_space(s[j]))
}

/// Words with single spaces between them are single-spaced.
pub proof fn lemma_joined_single_spaced(ws: Seq<Seq<char>>)
    requires
        forall|i: int| 0 <= i < ws.len() ==> is_word(#[trigger] ws[i]),
    ensures
        single_spaced(joined(ws, ' ')),
        ws.len() > 0 ==> joined(ws, ' ').len() > 0,
    decreases ws.len(),
{
    if ws.len() > 0 {
        let front = ws.drop_last();
        let last = ws.last();
        assert(is_word(ws[ws.len() - 1]));
        if ws.len() > 1 {
            assert forall|i: int| 0 <= i < front.len() implies is_word(#[trigger] front[i]) by {
                assert(front[i] == ws[i]);
            }
            lemma_joined_single_spaced(front);
            let a = joined(front, ' ');
            let s = a.push(' ') + last;
            assert(s[0] == a[0]);
            assert(s.last() == last.last());
            assert(!is_space(last[last.len() - 1]));
            assert forall|i: int| 0 <= i < s.len() && is_space(#[trigger] s[i]) implies s[i] == ' ' by {
                if i < a.len() {
                    assert(s[i] == a[i]);
                } else if i > a.len() {
                    assert(s[i] == last[i - a.len() - 1]);
                }
            }
            assert forall|i: int, j: int| #![trigger s[i], s[j]]
                0 <= i && j == i + 1 && j < s.len() implies !(is_space(s[i]) && is_space(s[j])) by {
                if j < a.len() {
                    assert(s[i] == a[i] && s[j] == a[j]);
                } else if j == a.len() {
                    assert(s[i] == a.last());
                } else {
                    assert(s[j] == last[j - a.len() - 1]);
                }
            }
        } else {
            assert(joined(ws, ' ') == last);
            assert(!is_space(last[0]) && !is_space(last[last.len() - 1]));
        }
    }
}

pub proof fn lemma_joined_first(ws: Seq<Seq<char>>, sep: char)
    requires
        ws.len() > 1,
    ensures
        joined(ws, sep) == ws[0].push(sep) + joined(ws.skip(1), sep),
    decreases ws.len(),
{
    let front = ws.drop_last();
    if ws.len() == 2 {
        assert(front =~= seq![ws[0]]);
        assert(joined(front, sep) == ws[0]);
        assert(ws.skip(1) =~= seq![ws[1]]);
        assert(joined(ws.skip(1), sep) == ws[1]);
        assert(joined(ws, sep) == ws[0].push(sep) + ws.last());
    } else {
        lemma_joined_first(front, sep);
        assert(front.skip(1) =~= ws.skip(1).drop_last());
        assert(ws.skip(1).last() == ws.last());
        assert(joined(ws, sep) =~= ws[0].push(sep) + joined(ws.skip(1), sep));
    }
}

/// A single-spaced text is its words with single spaces between them.
pub proof fn lemma_single_spaced(s: Seq<char>)
    requires
        single_spaced(s),
    ensures
        joined(words(s), ' ') == s,
        s.len() > 0 ==> words(s).len() > 0,
    decreases s.len(),
{
    if s.len() > 0 {
        let n = word_len(s) as int;
        lemma_word_len(s);
        assert(n > 0);
        if n == s.len() {
            assert(is_word(s));
            lemma_one_word(s);
        } else {
            let rest = s.skip(n + 1);
            let ws = words(s);
            assert(s[n] == ' ');
            assert(n < s.len() - 1) by {
                assert(!is_space(s[s.len() - 1]));
            }
            assert(!(is_space(s[n]) && is_space(s[n + 1])));
            assert(rest[0] == s[n + 1]);
            assert(rest.last() == s.last());
            assert forall|i: int| 0 <= i < rest.len() && is_space(#[trigger] rest[i]) implies rest[i] == ' ' by {
                assert(rest[i] == s[n + 1 + i]);
            }
            assert forall|i: int, j: int| #![trigger rest[i], rest[j]]
                0 <= i && j == i + 1 && j < rest.len() implies !(is_space(rest[i]) && is_space(rest[j])) by {
                assert(rest[i] == s[n + 1 + i] && rest[j] == s[n + 1 + j]);
            }
            lemma_single_spaced(rest);
            assert(s.skip(n)[0] == s[n]);
            assert(s.skip(n).skip(1) =~= rest);
            assert(words(s.skip(n)) == words(s.skip(n).skip(1)));
            assert(ws =~= seq![s.take(n)] + words(rest));
            assert(ws.skip(1) =~= words(rest));
            lemma_joined_first(ws, ' ');
            assert(s =~= s.take(n).push(' ') + rest);
        }
    }
}

/// Whether `s` is white space throughout.
pub open spec fn all_space(s: Seq<char>) -> bool {
    forall|i: int| 0 <= i < s.len() ==> is_space(#[trigger] s[i])
}

/// Trimming takes off the white space around a text, and that alone.
pub proof fn trimming_takes_off_the_space_around(lead: Seq<char>, body: Seq<char>, tail: Seq<char>)
    requires
        all_space(lead),
        all_space(tail),
        body.len() > 0,
        !is_space(body[0]),
        !is_space(body[body.len() - 1]),
    ensures
        trim_start(lead + body + tail) == body + tail,
        trim_end(lead + body + tail) == lead + body,
        trim(lead + body + tail) == body,
{
    lemma_start_of_led(lead, body + tail);
    assert(lead + (body + tail) =~= lead + body + tail);
    lemma_end_of_tailed(lead + body, tail);
    lemma_end_of_tailed(body, tail);
}

pub proof fn lemma_start_of_led(lead: Seq<char>, s: Seq<char>)
    requires
        all_space(lead),
        s.len() > 0 ==> !is_space(s[0]),
    ensures
        trim_start(lead + s) == s,
    decreases lead.len(),
{
    if lead.len() == 0 {
        assert(lead + s =~= s);
    } else {
        assert(is_space(lead[0]));
        assert((lead + s).skip(1) =~= lead.skip(1) + s);
        assert forall|i: int| 0 <= i < lead.skip(1).len() implies is_space(#[trigger] lead.skip(1)[i]) by {
            assert(lead.skip(1)[i] == lead[i + 1]);
        }
        lemma_start_of_led(lead.skip(1), s);
    }
}

pub proof fn lemma_end_of_tailed(s: Seq<char>, tail: Seq<char>)
    requires
        all_space(tail),
        s.len() > 0 ==> !is_space(s.last()),
    ensures
        trim_end(s + tail) == s,
    decreases tail.len(),
{
    if tail.len() == 0 {
        assert(s + tail =~= s);
    } else {
        assert(is_space(tail[tail.len() - 1]));
        assert((s + tail).drop_last() =~= s + tail.drop_last());
        assert forall|i: int| 0 <= i < tail.drop_last().len() implies is_space(#[trigger] tail.drop_last()[i]) by {
            assert(tail.drop_last()[i] == tail[i]);
        }
        lemma_end_of_tailed(s, tail.drop_last());
    }
}

/// Of white space nothing is left.
pub proof fn trimmed_space_is_empty(s: Seq<char>)
    ensures
        trim(s).len() == 0 <==> all_space(s),
        all_space(s) ==> trim_start(s).len() == 0 && trim_end(s).len() == 0,
{
    lemma_trim_start(s);
    lemma_trim_end(s);
    let t = trim_start(s);
    lemma_trim_end(t);
    if all_space(s) {
        let empty = Seq::<char>::empty();
        assert(s + empty =~= s);
        lemma_start_of_led(s, empty);
        assert(empty + s =~= s);
        lemma_end_of_tailed(empty, s);
        assert(t =~= empty);
    }
    if trim(s).len() == 0 {
        assert forall|i: int| 0 <= i < s.len() implies is_space(#[trigger] s[i]) by {
            let n = s.len() - t.len();
            if i >= n {
                assert(t[i - n] == s[i]);
            }
        }
    }
}

/// White space of any kind parts words, and nothing else does: the words of two
/// texts with white space between them are the words of both, a text without
/// white space is one word, and in no text there is none.
pub proof fn words_are_parted_by_space(a: Seq<char>, c: char, b: Seq<char>)
    requires
        is_space(c),
    ensures
        words(a.push(c) + b) == words(a) + words(b),
        a.len() > 0 && (forall|i: int| 0 <= i < a.len() ==> !is_space(#[trigger] a[i])) ==> words(a) == seq![a],
        a.len() == 0 ==> words(a) == Seq::<Seq<char>>::empty(),
    decreases a.len(),
{
    let whole = a.push(c) + b;
    if a.len() == 0 {
        assert(whole[0] == c);
        assert(whole.skip(1) =~= b);
        assert(words(a) + words(b) =~= words(b));
    } else if is_space(a[0]) {
        assert(whole[0] == a[0]);
        assert(whole.skip(1) =~= a.skip(1).push(c) + b);
        words_are_parted_by_space(a.skip(1), c, b);
    } else {
        let n = word_len(a) as int;
        lemma_word_len(a);
        lemma_word_len_is(whole, n as nat);
        assert(whole[0] == a[0]);
        assert(whole.take(n) =~= a.take(n));
        assert(whole.skip(n) =~= a.skip(n).push(c) + b);
        words_are_parted_by_space(a.skip(n), c, b);
        assert(words(whole) =~= words(a) + words(b));
        if forall|i: int| 0 <= i < a.len() ==> !is_space(#[trigger] a[i]) {
            assert(is_word(a));
            lemma_one_word(a);
        }
    }
}

/// A line feed, with or without a carriage return before it, ends a line, and
/// nothing else does.
pub proof fn lines_end_at_line_feeds(line: Seq<char>, rest: Seq<char>)
    requires
        forall|i: int| 0 <= i < line.len() ==> #[trigger] line[i] != '\n',
    ensures
        lines(line.push('\n') + rest) == seq![
            if line.len() > 0 && line.last() == '\r' {
                line.drop_last()
            } else {
                line
            },
        ] + lines(rest),
        lines(line) == if line.len() == 0 {
            Seq::<Seq<char>>::empty()
        } else {
            seq![line]
        },
{
    let whole = line.push('\n') + rest;
    assert(whole[line.len() as int] == '\n');
    assert forall|i: int| 0 <= i < line.len() implies whole[i] != '\n' by {
        assert(whole[i] == line[i]);
    }
    lemma_span_is(whole, '\n', line.len());
    lemma_span_is(line, '\n', line.len());
    assert(whole.take(line.len() as int) =~= line);
    assert(whole.skip(line.len() as int + 1) =~= rest);
}

/// Joining puts the separator between each part and the next, and nothing else.
pub proof fn joining_puts_the_separator_between(parts: Seq<Seq<char>>, part: Seq<char>, sep: char)
    ensures
        joined(Seq::empty(), sep) == Seq::<char>::empty(),
        joined(parts.push(part), sep) == if parts.len() == 0 {
            part
        } else {
            joined(parts, sep).push(sep) + part
        },
{
    assert(parts.push(part).drop_last() =~= parts);
}

/// Texts are seen by their characters.
pub proof fn views_are_the_texts(texts: Seq<String>)
    ensures
        views(texts).len() == texts.len(),
        forall|i: int| 0 <= i < texts.len() ==> #[trigger] views(texts)[i] == texts[i]@,
{
}

/// White space is what Unicode calls so, and nothing else.
pub proof fn white_space_is_what_unicode_calls_so(c: char)
    ensures
        is_space(c) <==> c == '\t' || c == '\n' || c == '\u{b}' || c == '\u{c}' || c == '\r' || c == ' ' || c == '\u{85}'
            || c == '\u{a0}' || c == '\u{1680}' || '\u{2000}' <= c <= '\u{200a}' || c == '\u{2028}' || c == '\u{2029}'
            || c == '\u{202f}' || c == '\u{205f}' || c == '\u{3000}',
{
}

} // verus!
