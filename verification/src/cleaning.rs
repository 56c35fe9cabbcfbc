//! What cleaning a comment promises of every text: the delimiters go, the prose
//! stays, and no line of it is lost.

use vstd::prelude::*;

#[allow(unused_imports)]
use crate::extract::{
    cleaned, closers, is_block_marker, lemma_prose_without_cr, line_prose, openers, prose, prose_lines, without_closers,
    without_leading_blanks, without_opener, without_trailing_blanks,
};
#[allow(unused_imports)]
use crate::text::{
    all_space, is_space, joined, lemma_joined_first, lemma_trim_trimmed, lines, lines_end_at_line_feeds, trim, trim_end,
    trimming_takes_off_the_space_around, without_cr,
};

verus! {

/// Whether `d` opens a line of a comment.
pub open spec fn opens(d: Seq<char>) -> bool {
    ||| d == "/**"@
    ||| d == "/*!"@
    ||| d == "/*"@
    ||| d == "////"@
    ||| d == "//!"@
    ||| d == "///"@
    ||| d == "//"@
    ||| d == "<!--"@
    ||| d == "#!"@
    ||| d == "#="@
    ||| d == "#[["@
    ||| d == "#"@
    ||| d == "--[["@
    ||| d == "--"@
    ||| d == "=begin"@
    ||| d == ";"@
    ||| d == "%%"@
    ||| d == "%"@
    ||| d == "(**"@
    ||| d == "(*"@
    ||| d == "{-|"@
    ||| d == "{-"@
}

/// Whether `d` closes a line of a comment.
pub open spec fn closes(d: Seq<char>) -> bool {
    ||| d == "*/"@
    ||| d == "-->"@
    ||| d == "=end"@
    ||| d == "=#"@
    ||| d == "]]"@
    ||| d == "*)"@
    ||| d == "-}"@
}

/// Whether `t` is one line of prose: no white space and no delimiter at either
/// end, and no asterisk at its start.
pub open spec fn plain(t: Seq<char>) -> bool {
    &&& t.len() > 0
    &&& !is_space(t[0])
    &&& !is_space(t[t.len() - 1])
    &&& t[0] != '*'
    &&& forall|d: Seq<char>| #[trigger] opens(d) ==> !d.is_prefix_of(t)
    &&& forall|d: Seq<char>| #[trigger] closes(d) ==> !d.is_suffix_of(t)
}

/// Whether `core` is `t`, as it is or behind an asterisk or a delimiter and a
/// space.
pub open spec fn led(core: Seq<char>, t: Seq<char>) -> bool {
    ||| core == t
    ||| core == seq!['*', ' '] + t
    ||| exists|d: Seq<char>| #[trigger] opens(d) && core == d + seq![' '] + t
}

/// Whether `t` is what `x` says behind the longest opening delimiter that it
/// begins with, or else behind an asterisk, or else as a whole.
pub open spec fn bared(x: Seq<char>, t: Seq<char>) -> bool {
    ||| exists|d: Seq<char>|
        {
            &&& #[trigger] opens(d)
            &&& d.is_prefix_of(x)
            &&& forall|e: Seq<char>| #[trigger] opens(e) && e.is_prefix_of(x) ==> e.len() <= d.len()
            &&& t == trim(x.skip(d.len() as int))
        }
    ||| (forall|e: Seq<char>| #[trigger] opens(e) ==> !e.is_prefix_of(x)) && x[0] == '*' && t == trim(x.skip(1))
    ||| (forall|e: Seq<char>| #[trigger] opens(e) ==> !e.is_prefix_of(x)) && x[0] != '*' && t == x
}

/// Whether `core` is `x`, as it is or before one closing delimiter, `x` itself
/// ending in none, and `t` is what `x` says.
pub open spec fn shorn(core: Seq<char>, x: Seq<char>, space: Seq<char>, d: Seq<char>, t: Seq<char>) -> bool {
    &&& core == x + space + d
    &&& all_space(space)
    &&& closes(d) || space.len() == 0 && d.len() == 0
    &&& x.len() > 0 && !is_space(x[0]) && !is_space(x[x.len() - 1])
    &&& forall|e: Seq<char>| #[trigger] closes(e) ==> !e.is_suffix_of(x)
    &&& bared(x, t)
    &&& t != "=begin"@ && t != "=end"@
}

/// The closing delimiters in the order in which they are taken off.
pub open spec fn closing(i: int) -> Seq<char> {
    if i == 0 {
        "*/"@
    } else if i == 1 {
        "-->"@
    } else if i == 2 {
        "=end"@
    } else if i == 3 {
        "=#"@
    } else if i == 4 {
        "]]"@
    } else if i == 5 {
        "*)"@
    } else {
        "-}"@
    }
}

/// Whether `core` ends in two closing delimiters, the one that is taken off
/// first behind the other, and `t` is what stands before them.
pub open spec fn shorn_twice(
    core: Seq<char>,
    y: Seq<char>,
    x: Seq<char>,
    gap: Seq<char>,
    space: Seq<char>,
    i: int,
    j: int,
    t: Seq<char>,
) -> bool {
    &&& 0 <= i < j < 7
    &&& core == y + space + closing(i)
    &&& all_space(space)
    &&& shorn(y, x, gap, closing(j), t)
}

/// Whether `line` is a line of a comment that holds the prose `t`: the prose,
/// behind an asterisk or an opening delimiter or neither, before a closing
/// delimiter or none, with spaces between them or without; or, for no prose,
/// nothing, an asterisk or a delimiter alone.
pub open spec fn written(line: Seq<char>, t: Seq<char>) -> bool {
    let core = trim(line);
    if exists|x: Seq<char>, space: Seq<char>, d: Seq<char>| #[trigger] shorn(core, x, space, d, t) {
        true
    } else if exists|y: Seq<char>, x: Seq<char>, gap: Seq<char>, space: Seq<char>, i: int, j: int| #[trigger]
        shorn_twice(core, y, x, gap, space, i, j, t) {
        true
    } else if t.len() == 0 {
        core.len() == 0 || core == seq!['*'] || opens(core) || closes(core)
    } else {
        plain(t) && (led(core, t) || exists|x: Seq<char>, d: Seq<char>|
            #[trigger] led(x, t) && #[trigger] closes(d) && core == x + seq![' '] + d)
    }
}

proof fn lemma_prefix_chars(a: Seq<char>, b: Seq<char>)
    ensures
        a.is_prefix_of(b) <==> a.len() <= b.len() && forall|k: int| 0 <= k < a.len() ==> #[trigger] a[k] == b[k],
{
    if a.len() <= b.len() && forall|k: int| 0 <= k < a.len() ==> #[trigger] a[k] == b[k] {
        assert(a =~= b.subrange(0, a.len() as int));
    }
}

proof fn lemma_suffix_chars(a: Seq<char>, b: Seq<char>)
    ensures
        a.is_suffix_of(b) <==> a.len() <= b.len() && forall|k: int|
            0 <= k < a.len() ==> #[trigger] a[k] == b[b.len() - a.len() + k],
{
    if a.len() <= b.len() && forall|k: int| 0 <= k < a.len() ==> #[trigger] a[k] == b[b.len() - a.len() + k] {
        assert(a =~= b.subrange(b.len() - a.len(), b.len() as int));
    }
}

proof fn lemma_openers()
    ensures
        openers().len() == 22,
        forall|i: int| 0 <= i < 22 ==> opens(#[trigger] openers()[i]),
        forall|i: int| 0 <= i < 22 ==> (#[trigger] openers()[i]).len() > 0 && openers()[i][0] != '*',
        forall|i: int, k: int| 0 <= i < 22 && 0 <= k < openers()[i].len() ==> !is_space(#[trigger] openers()[i][k]),
{
    reveal_strlit("/**");
    reveal_strlit("/*!");
    reveal_strlit("/*");
    reveal_strlit("////");
    reveal_strlit("//!");
    reveal_strlit("///");
    reveal_strlit("//");
    reveal_strlit("<!--");
    reveal_strlit("#!");
    reveal_strlit("#=");
    reveal_strlit("#[[");
    reveal_strlit("#");
    reveal_strlit("--[[");
    reveal_strlit("--");
    reveal_strlit("=begin");
    reveal_strlit(";");
    reveal_strlit("%%");
    reveal_strlit("%");
    reveal_strlit("(**");
    reveal_strlit("(*");
    reveal_strlit("{-|");
    reveal_strlit("{-");
}

proof fn lemma_opener_order()
    ensures
        forall|j: int, i: int|
            0 <= j < i < 22 ==> !(#[trigger] openers()[j]).is_prefix_of(#[trigger] openers()[i]),
{
    reveal_strlit("/**");
    reveal_strlit("/*!");
    reveal_strlit("/*");
    reveal_strlit("////");
    reveal_strlit("//!");
    reveal_strlit("///");
    reveal_strlit("//");
    reveal_strlit("<!--");
    reveal_strlit("#!");
    reveal_strlit("#=");
    reveal_strlit("#[[");
    reveal_strlit("#");
    reveal_strlit("--[[");
    reveal_strlit("--");
    reveal_strlit("=begin");
    reveal_strlit(";");
    reveal_strlit("%%");
    reveal_strlit("%");
    reveal_strlit("(**");
    reveal_strlit("(*");
    reveal_strlit("{-|");
    reveal_strlit("{-");
    let os = openers();
    assert forall|j: int, i: int| 0 <= j < i < 22 implies !(#[trigger] os[j]).is_prefix_of(#[trigger] os[i]) by {
        if os[j].is_prefix_of(os[i]) {
            lemma_prefix_chars(os[j], os[i]);
            assert(os[j][0] == os[i][0]);
            if os[j].len() > 1 {
                assert(os[j][1] == os[i][1]);
            }
            if os[j].len() > 2 {
                assert(os[j][2] == os[i][2]);
            }
        }
    }
}

proof fn lemma_closers()
    ensures
        closers().len() == 7,
        forall|i: int| 0 <= i < 7 ==> closes(#[trigger] closers()[i]),
        forall|i: int| 0 <= i < 7 ==> 2 <= (#[trigger] closers()[i]).len(),
        forall|i: int, k: int| 0 <= i < 7 && 0 <= k < closers()[i].len() ==> !is_space(#[trigger] closers()[i][k]),
        forall|j: int, i: int|
            0 <= j < 7 && 0 <= i < 7 && i != j ==> !(#[trigger] closers()[j]).is_suffix_of(#[trigger] closers()[i]),
{
    reveal_strlit("*/");
    reveal_strlit("-->");
    reveal_strlit("=end");
    reveal_strlit("=#");
    reveal_strlit("]]");
    reveal_strlit("*)");
    reveal_strlit("-}");
    let cs = closers();
    assert forall|j: int, i: int| 0 <= j < 7 && 0 <= i < 7 && i != j implies !(#[trigger] cs[j]).is_suffix_of(
        #[trigger] cs[i],
    ) by {
        if cs[j].is_suffix_of(cs[i]) {
            lemma_suffix_chars(cs[j], cs[i]);
            let k = cs[j].len() - 1;
            assert(cs[j][k] == cs[i][cs[i].len() - 1]);
            assert(cs[j][k - 1] == cs[i][cs[i].len() - 2]);
        }
    }
}

/// The place of an opening delimiter among the others.
proof fn lemma_opener_index(d: Seq<char>) -> (i: int)
    requires
        opens(d),
    ensures
        0 <= i < 22,
        openers()[i] == d,
{
    let os = openers();
    assert(os[0] == "/**"@ && os[1] == "/*!"@ && os[2] == "/*"@ && os[3] == "////"@ && os[4] == "//!"@);
    assert(os[5] == "///"@ && os[6] == "//"@ && os[7] == "<!--"@ && os[8] == "#!"@ && os[9] == "#="@);
    assert(os[10] == "#[["@ && os[11] == "#"@ && os[12] == "--[["@ && os[13] == "--"@ && os[14] == "=begin"@);
    assert(os[15] == ";"@ && os[16] == "%%"@ && os[17] == "%"@ && os[18] == "(**"@ && os[19] == "(*"@);
    assert(os[20] == "{-|"@ && os[21] == "{-"@);
    assert(exists|i: int| 0 <= i < 22 && #[trigger] os[i] == d);
    choose|i: int| 0 <= i < 22 && #[trigger] os[i] == d
}

/// The place of a closing delimiter among the others.
proof fn lemma_closer_index(d: Seq<char>) -> (i: int)
    requires
        closes(d),
    ensures
        0 <= i < 7,
        closers()[i] == d,
{
    let cs = closers();
    assert(cs[0] == "*/"@ && cs[1] == "-->"@ && cs[2] == "=end"@ && cs[3] == "=#"@ && cs[4] == "]]"@);
    assert(cs[5] == "*)"@ && cs[6] == "-}"@);
    assert(exists|i: int| 0 <= i < 7 && #[trigger] cs[i] == d);
    choose|i: int| 0 <= i < 7 && #[trigger] cs[i] == d
}

/// No closing delimiter stands at the end of an opening one, or of an asterisk.
proof fn lemma_openers_do_not_close()
    ensures
        forall|j: int, i: int|
            0 <= j < 7 && 0 <= i < 22 ==> !(#[trigger] closers()[j]).is_suffix_of(#[trigger] openers()[i]),
{
    reveal_strlit("/**");
    reveal_strlit("/*!");
    reveal_strlit("/*");
    reveal_strlit("////");
    reveal_strlit("//!");
    reveal_strlit("///");
    reveal_strlit("//");
    reveal_strlit("<!--");
    reveal_strlit("#!");
    reveal_strlit("#=");
    reveal_strlit("#[[");
    reveal_strlit("#");
    reveal_strlit("--[[");
    reveal_strlit("--");
    reveal_strlit("=begin");
    reveal_strlit(";");
    reveal_strlit("%%");
    reveal_strlit("%");
    reveal_strlit("(**");
    reveal_strlit("(*");
    reveal_strlit("{-|");
    reveal_strlit("{-");
    reveal_strlit("*/");
    reveal_strlit("-->");
    reveal_strlit("=end");
    reveal_strlit("=#");
    reveal_strlit("]]");
    reveal_strlit("*)");
    reveal_strlit("-}");
    let cs = closers();
    let os = openers();
    assert forall|j: int, i: int| 0 <= j < 7 && 0 <= i < 22 implies !(#[trigger] cs[j]).is_suffix_of(
        #[trigger] os[i],
    ) by {
        if cs[j].is_suffix_of(os[i]) {
            lemma_suffix_chars(cs[j], os[i]);
            let k = cs[j].len() - 1;
            assert(cs[j][k] == os[i][os[i].len() - 1]);
            assert(cs[j][k - 1] == os[i][os[i].len() - 2]);
        }
    }
}

/// A text that ends in none of the delimiters keeps its end.
proof fn lemma_nothing_closes(s: Seq<char>, delimiters: Seq<Seq<char>>)
    requires
        forall|j: int| 0 <= j < delimiters.len() ==> !(#[trigger] delimiters[j]).is_suffix_of(s),
    ensures
        without_closers(s, delimiters) == s,
    decreases delimiters.len(),
{
    if delimiters.len() > 0 {
        let rest = delimiters.skip(1);
        assert(!delimiters[0].is_suffix_of(s));
        assert forall|j: int| 0 <= j < rest.len() implies !(#[trigger] rest[j]).is_suffix_of(s) by {
            assert(rest[j] == delimiters[j + 1]);
        }
        lemma_nothing_closes(s, rest);
    }
}

/// The one delimiter that a text ends in is taken off it.
proof fn lemma_one_closes(s: Seq<char>, x: Seq<char>, delimiters: Seq<Seq<char>>, i: int)
    requires
        0 <= i < delimiters.len(),
        delimiters[i].is_suffix_of(s),
        forall|j: int| 0 <= j < i ==> !(#[trigger] delimiters[j]).is_suffix_of(s),
        trim_end(s.take(s.len() - delimiters[i].len())) == x,
        forall|j: int| 0 <= j < delimiters.len() ==> !(#[trigger] delimiters[j]).is_suffix_of(x),
    ensures
        without_closers(s, delimiters) == x,
    decreases delimiters.len(),
{
    let rest = delimiters.skip(1);
    assert forall|j: int| 0 <= j < rest.len() implies !(#[trigger] rest[j]).is_suffix_of(x) by {
        assert(rest[j] == delimiters[j + 1]);
    }
    if i == 0 {
        lemma_nothing_closes(x, rest);
    } else {
        assert(!delimiters[0].is_suffix_of(s));
        assert forall|j: int| 0 <= j < i - 1 implies !(#[trigger] rest[j]).is_suffix_of(s) by {
            assert(rest[j] == delimiters[j + 1]);
        }
        assert(rest[i - 1] == delimiters[i]);
        lemma_one_closes(s, x, rest, i - 1);
    }
}

/// A text that begins with none of the delimiters loses an asterisk at most.
proof fn lemma_nothing_opens(s: Seq<char>, delimiters: Seq<Seq<char>>)
    requires
        forall|j: int| 0 <= j < delimiters.len() ==> !(#[trigger] delimiters[j]).is_prefix_of(s),
    ensures
        without_opener(s, delimiters) == if s.len() > 0 && s[0] == '*' {
            s.skip(1)
        } else {
            s
        },
    decreases delimiters.len(),
{
    if delimiters.len() > 0 {
        let rest = delimiters.skip(1);
        assert(!delimiters[0].is_prefix_of(s));
        assert forall|j: int| 0 <= j < rest.len() implies !(#[trigger] rest[j]).is_prefix_of(s) by {
            assert(rest[j] == delimiters[j + 1]);
        }
        lemma_nothing_opens(s, rest);
    }
}

/// The first delimiter that a text begins with is taken off it.
proof fn lemma_one_opens(s: Seq<char>, delimiters: Seq<Seq<char>>, i: int)
    requires
        0 <= i < delimiters.len(),
        delimiters[i].is_prefix_of(s),
        forall|j: int| 0 <= j < i ==> !(#[trigger] delimiters[j]).is_prefix_of(s),
    ensures
        without_opener(s, delimiters) == s.skip(delimiters[i].len() as int),
    decreases delimiters.len(),
{
    if i > 0 {
        let rest = delimiters.skip(1);
        assert(!delimiters[0].is_prefix_of(s));
        assert forall|j: int| 0 <= j < i - 1 implies !(#[trigger] rest[j]).is_prefix_of(s) by {
            assert(rest[j] == delimiters[j + 1]);
        }
        assert(rest[i - 1] == delimiters[i]);
        lemma_one_opens(s, rest, i - 1);
    }
}

/// The prose behind an asterisk or a delimiter ends as the prose does.
proof fn lemma_led_ends(x: Seq<char>, t: Seq<char>)
    requires
        plain(t),
        led(x, t),
    ensures
        x.len() > 0,
        !is_space(x[0]),
        x.last() == t.last(),
        forall|j: int| 0 <= j < closers().len() ==> !(#[trigger] closers()[j]).is_suffix_of(x),
{
    lemma_closers();
    lemma_openers();
    let cs = closers();
    if x == t {
        assert forall|j: int| 0 <= j < cs.len() implies !(#[trigger] cs[j]).is_suffix_of(x) by {
            assert(closes(cs[j]));
        }
    } else {
        let head = x.take(x.len() - t.len() - 1);
        if x == seq!['*', ' '] + t {
            assert(x =~= head + seq![' '] + t);
        } else {
            let d = choose|d: Seq<char>| #[trigger] opens(d) && x == d + seq![' '] + t;
            assert(head =~= d);
            let i = lemma_opener_index(d);
            assert(!is_space(openers()[i][0]));
        }
        assert forall|j: int| 0 <= j < cs.len() implies !(#[trigger] cs[j]).is_suffix_of(x) by {
            let c = cs[j];
            if c.is_suffix_of(x) {
                lemma_suffix_chars(c, x);
                if c.len() > t.len() {
                    let k = c.len() - t.len() - 1;
                    assert(c[k] == x[x.len() - c.len() + k]);
                    assert(x[x.len() - t.len() - 1] == ' ');
                    assert(!is_space(cs[j][k]));
                } else {
                    assert forall|k: int| 0 <= k < c.len() implies #[trigger] c[k] == t[t.len() - c.len() + k] by {
                        assert(c[k] == x[x.len() - c.len() + k]);
                    }
                    lemma_suffix_chars(c, t);
                    assert(closes(c));
                }
            }
        }
    }
}

/// What leads the prose is taken off it.
proof fn lemma_led_prose(x: Seq<char>, t: Seq<char>)
    requires
        plain(t),
        led(x, t),
    ensures
        trim(without_opener(x, openers())) == t,
{
    lemma_openers();
    let os = openers();
    let none = Seq::<char>::empty();
    let space = seq![' '];
    assert(none + t + none =~= t);
    assert(space + t + none =~= space + t);
    trimming_takes_off_the_space_around(none, t, none);
    trimming_takes_off_the_space_around(space, t, none);
    if x == t {
        assert forall|j: int| 0 <= j < os.len() implies !(#[trigger] os[j]).is_prefix_of(x) by {
            assert(opens(os[j]));
        }
        lemma_nothing_opens(x, os);
    } else if x == seq!['*', ' '] + t {
        assert forall|j: int| 0 <= j < os.len() implies !(#[trigger] os[j]).is_prefix_of(x) by {
            lemma_prefix_chars(os[j], x);
            if os[j].is_prefix_of(x) {
                assert(os[j][0] == x[0]);
            }
        }
        lemma_nothing_opens(x, os);
        assert(x.skip(1) =~= space + t);
    } else {
        let d = choose|d: Seq<char>| #[trigger] opens(d) && x == d + seq![' '] + t;
        let i = lemma_opener_index(d);
        lemma_first_opener(d, seq![' '] + t, i);
        assert(d + (seq![' '] + t) =~= x);
        assert(x.skip(d.len() as int) =~= space + t);
    }
}

/// Of what begins with a delimiter, and then white space or nothing, that
/// delimiter is taken off and no shorter one.
proof fn lemma_first_opener(d: Seq<char>, rest: Seq<char>, i: int)
    requires
        0 <= i < 22,
        openers()[i] == d,
        rest.len() > 0 ==> is_space(rest[0]),
    ensures
        without_opener(d + rest, openers()) == (d + rest).skip(d.len() as int),
{
    lemma_openers();
    lemma_opener_order();
    let os = openers();
    let x = d + rest;
    lemma_prefix_chars(d, x);
    assert forall|j: int| 0 <= j < i implies !(#[trigger] os[j]).is_prefix_of(x) by {
        lemma_prefix_chars(os[j], x);
        lemma_prefix_chars(os[j], d);
        if os[j].is_prefix_of(x) {
            if os[j].len() > d.len() {
                assert(os[j][d.len() as int] == x[d.len() as int]);
                assert(!is_space(os[j][d.len() as int]));
            } else {
                assert forall|k: int| 0 <= k < os[j].len() implies #[trigger] os[j][k] == d[k] by {
                    assert(os[j][k] == x[k]);
                }
            }
            assert(!os[j].is_prefix_of(os[i]));
        }
    }
    lemma_one_opens(x, os, i);
}

/// Before the one closing delimiter stands what the line says.
proof fn lemma_shorn_end(core: Seq<char>, x: Seq<char>, space: Seq<char>, d: Seq<char>, t: Seq<char>)
    requires
        shorn(core, x, space, d, t),
    ensures
        without_closers(core, closers()) == x,
{
    lemma_closers();
    let cs = closers();
    assert forall|j: int| 0 <= j < cs.len() implies !(#[trigger] cs[j]).is_suffix_of(x) by {
        assert(closes(cs[j]));
    }
    if !closes(d) {
        assert(core =~= x);
        lemma_nothing_closes(core, cs);
    } else {
        let i = lemma_closer_index(d);
        lemma_suffix_chars(d, core);
        lemma_one_closer(core, i);
        assert(core.take(core.len() - d.len()) =~= Seq::empty() + x + space);
        trimming_takes_off_the_space_around(Seq::empty(), x, space);
        assert(Seq::empty() + x =~= x);
        lemma_one_closes(core, x, cs, i);
    }
}

/// A closing delimiter is taken off, and the search goes on behind it in turn.
proof fn lemma_closing_goes_on(s: Seq<char>, delimiters: Seq<Seq<char>>, i: int)
    requires
        0 <= i < delimiters.len(),
        delimiters[i].is_suffix_of(s),
        forall|j: int| 0 <= j < i ==> !(#[trigger] delimiters[j]).is_suffix_of(s),
    ensures
        without_closers(s, delimiters) == without_closers(
            trim_end(s.take(s.len() - delimiters[i].len())),
            delimiters.skip(i + 1),
        ),
    decreases i,
{
    if i > 0 {
        let rest = delimiters.skip(1);
        assert(!delimiters[0].is_suffix_of(s));
        assert forall|j: int| 0 <= j < i - 1 implies !(#[trigger] rest[j]).is_suffix_of(s) by {
            assert(rest[j] == delimiters[j + 1]);
        }
        assert(rest[i - 1] == delimiters[i]);
        assert(rest.skip(i) =~= delimiters.skip(i + 1));
        lemma_closing_goes_on(s, rest, i - 1);
    }
}

/// No other closing delimiter stands where one does.
proof fn lemma_one_closer(core: Seq<char>, i: int)
    requires
        0 <= i < 7,
        closers()[i].is_suffix_of(core),
    ensures
        forall|j: int| 0 <= j < 7 && j != i ==> !(#[trigger] closers()[j]).is_suffix_of(core),
{
    lemma_closers();
    let cs = closers();
    let d = cs[i];
    lemma_suffix_chars(d, core);
    assert forall|j: int| 0 <= j < 7 && j != i implies !(#[trigger] cs[j]).is_suffix_of(core) by {
        let c = cs[j];
        lemma_suffix_chars(c, core);
        lemma_suffix_chars(c, d);
        lemma_suffix_chars(d, c);
        if c.is_suffix_of(core) {
            if c.len() > d.len() {
                assert forall|k: int| 0 <= k < d.len() implies #[trigger] d[k] == c[c.len() - d.len() + k] by {
                    assert(d[k] == core[core.len() - d.len() + k]);
                    let m = c.len() - d.len() + k;
                    assert(c[m] == core[core.len() - c.len() + m]);
                }
                assert(!cs[i].is_suffix_of(cs[j]));
            } else {
                assert forall|k: int| 0 <= k < c.len() implies #[trigger] c[k] == d[d.len() - c.len() + k] by {
                    assert(c[k] == core[core.len() - c.len() + k]);
                    let m = d.len() - c.len() + k;
                    assert(d[m] == core[core.len() - d.len() + m]);
                }
                assert(!cs[j].is_suffix_of(cs[i]));
            }
        }
    }
}

/// The last closing delimiter is taken off, and those behind it in turn are
/// still to come.
proof fn lemma_outer_closer(core: Seq<char>, y: Seq<char>, space: Seq<char>, i: int)
    requires
        0 <= i < 7,
        core == y + space + closers()[i],
        all_space(space),
        y.len() > 0,
        !is_space(y[0]),
        !is_space(y[y.len() - 1]),
    ensures
        without_closers(core, closers()) == without_closers(y, closers().skip(i + 1)),
{
    let d = closers()[i];
    let none = Seq::<char>::empty();
    lemma_suffix_chars(d, core);
    assert forall|k: int| 0 <= k < d.len() implies #[trigger] d[k] == core[core.len() - d.len() + k] by {}
    lemma_one_closer(core, i);
    assert(closers().len() == 7);
    lemma_closing_goes_on(core, closers(), i);
    assert(core.take(core.len() - d.len()) =~= none + y + space);
    trimming_takes_off_the_space_around(none, y, space);
    assert(none + y =~= y);
}

/// Of those that are still to come, the one that is there is taken off.
proof fn lemma_inner_closer(y: Seq<char>, x: Seq<char>, gap: Seq<char>, i: int, j: int)
    requires
        0 <= i < j < 7,
        y == x + gap + closers()[j],
        all_space(gap),
        x.len() > 0,
        !is_space(x[0]),
        !is_space(x[x.len() - 1]),
        forall|k: int| 0 <= k < 7 ==> !(#[trigger] closers()[k]).is_suffix_of(x),
    ensures
        without_closers(y, closers().skip(i + 1)) == x,
{
    let d = closers()[j];
    let none = Seq::<char>::empty();
    lemma_suffix_chars(d, y);
    assert forall|k: int| 0 <= k < d.len() implies #[trigger] d[k] == y[y.len() - d.len() + k] by {}
    lemma_one_closer(y, j);
    assert(closers().len() == 7);
    let rest = closers().skip(i + 1);
    assert forall|k: int| 0 <= k < rest.len() implies !(#[trigger] rest[k]).is_suffix_of(x) by {
        assert(rest[k] == closers()[k + i + 1]);
    }
    assert forall|k: int| 0 <= k < j - i - 1 implies !(#[trigger] rest[k]).is_suffix_of(y) by {
        assert(rest[k] == closers()[k + i + 1]);
    }
    assert(rest[j - i - 1] == d);
    assert(y.take(y.len() - d.len()) =~= none + x + gap);
    trimming_takes_off_the_space_around(none, x, gap);
    assert(none + x =~= x);
    lemma_one_closes(y, x, rest, j - i - 1);
}

/// Before two closing delimiters stands what the line says.
proof fn lemma_twice_shorn_end(
    core: Seq<char>,
    y: Seq<char>,
    x: Seq<char>,
    gap: Seq<char>,
    space: Seq<char>,
    i: int,
    j: int,
    t: Seq<char>,
)
    requires
        shorn_twice(core, y, x, gap, space, i, j, t),
    ensures
        without_closers(core, closers()) == x,
{
    lemma_closers();
    let d = closing(j);
    assert(closers()[i] == closing(i) && closers()[j] == d) by {
        lemma_closing(i);
        lemma_closing(j);
    }
    assert(y[0] == x[0]);
    assert(y[y.len() - 1] == d[d.len() - 1]);
    assert(!is_space(closers()[j][d.len() - 1]));
    assert forall|k: int| 0 <= k < 7 implies !(#[trigger] closers()[k]).is_suffix_of(x) by {
        assert(closes(closers()[k]));
    }
    lemma_outer_closer(core, y, space, i);
    lemma_inner_closer(y, x, gap, i, j);
}

proof fn lemma_closing(i: int)
    requires
        0 <= i < 7,
    ensures
        closers()[i] == closing(i),
{
}

/// What leads a line is taken off it.
proof fn lemma_bared_prose(x: Seq<char>, t: Seq<char>)
    requires
        bared(x, t),
        x.len() > 0,
        !is_space(x[0]),
        !is_space(x[x.len() - 1]),
    ensures
        trim(without_opener(x, openers())) == t,
{
    lemma_openers();
    let os = openers();
    if exists|d: Seq<char>| #[trigger] opens(d) && d.is_prefix_of(x) {
        let d = choose|d: Seq<char>|
            {
                &&& #[trigger] opens(d)
                &&& d.is_prefix_of(x)
                &&& forall|e: Seq<char>| #[trigger] opens(e) && e.is_prefix_of(x) ==> e.len() <= d.len()
                &&& t == trim(x.skip(d.len() as int))
            };
        let i = lemma_opener_index(d);
        lemma_opener_order();
        lemma_prefix_chars(d, x);
        assert forall|j: int| 0 <= j < i implies !(#[trigger] os[j]).is_prefix_of(x) by {
            lemma_prefix_chars(os[j], x);
            lemma_prefix_chars(os[j], d);
            assert(opens(os[j]));
            if os[j].is_prefix_of(x) {
                assert forall|k: int| 0 <= k < os[j].len() implies #[trigger] os[j][k] == d[k] by {
                    assert(os[j][k] == x[k]);
                    assert(d[k] == x[k]);
                }
                assert(!os[j].is_prefix_of(os[i]));
            }
        }
        lemma_one_opens(x, os, i);
    } else {
        assert forall|j: int| 0 <= j < os.len() implies !(#[trigger] os[j]).is_prefix_of(x) by {
            assert(opens(os[j]));
        }
        lemma_nothing_opens(x, os);
        let none = Seq::<char>::empty();
        assert(none + x + none =~= x);
        trimming_takes_off_the_space_around(none, x, none);
    }
}

/// The prose of a line is what is written on it.
proof fn lemma_written_prose(line: Seq<char>, t: Seq<char>)
    requires
        written(line, t),
    ensures
        line_prose(line) == t,
        !is_block_marker(line_prose(line)),
{
    let core = trim(line);
    let cs = closers();
    lemma_closers();
    if exists|x: Seq<char>, space: Seq<char>, d: Seq<char>| #[trigger] shorn(core, x, space, d, t) {
        let (x, space, d) = choose|x: Seq<char>, space: Seq<char>, d: Seq<char>|
            #[trigger] shorn(core, x, space, d, t);
        lemma_shorn_end(core, x, space, d, t);
        lemma_bared_prose(x, t);
    } else if exists|y: Seq<char>, x: Seq<char>, gap: Seq<char>, space: Seq<char>, i: int, j: int| #[trigger]
        shorn_twice(core, y, x, gap, space, i, j, t) {
        let (y, x, gap, space, i, j) = choose|
            y: Seq<char>,
            x: Seq<char>,
            gap: Seq<char>,
            space: Seq<char>,
            i: int,
            j: int,
        | #[trigger] shorn_twice(core, y, x, gap, space, i, j, t);
        lemma_twice_shorn_end(core, y, x, gap, space, i, j, t);
        lemma_bared_prose(x, t);
    } else if t.len() == 0 {
        lemma_blank_prose(line);
        assert(line_prose(line) =~= t);
        reveal_strlit("=end");
        reveal_strlit("=begin");
    } else {
        if led(core, t) {
            lemma_led_ends(core, t);
            lemma_nothing_closes(core, cs);
            lemma_led_prose(core, t);
        } else {
            let (x, d) = choose|x: Seq<char>, d: Seq<char>|
                #[trigger] led(x, t) && #[trigger] closes(d) && core == x + seq![' '] + d;
            lemma_led_ends(x, t);
            let i = lemma_closer_index(d);
            lemma_suffix_chars(d, core);
            assert forall|j: int| 0 <= j < i implies !(#[trigger] cs[j]).is_suffix_of(core) by {
                let c = cs[j];
                lemma_suffix_chars(c, core);
                lemma_suffix_chars(c, d);
                if c.is_suffix_of(core) {
                    if c.len() > d.len() {
                        let k = c.len() - d.len() - 1;
                        assert(c[k] == core[core.len() - c.len() + k]);
                        assert(!is_space(cs[j][k]));
                    } else {
                        assert forall|k: int| 0 <= k < c.len() implies #[trigger] c[k] == d[d.len() - c.len() + k] by {
                            assert(c[k] == core[core.len() - c.len() + k]);
                        }
                    }
                    assert(!cs[j].is_suffix_of(cs[i]));
                }
            }
            assert(core.take(core.len() - d.len()) =~= Seq::empty() + x + seq![' ']);
            trimming_takes_off_the_space_around(Seq::empty(), x, seq![' ']);
            assert(Seq::empty() + x =~= x);
            lemma_one_closes(core, x, cs, i);
            lemma_led_prose(x, t);
        }
        lemma_plain_is_no_marker(t);
    }
}

proof fn lemma_plain_is_no_marker(t: Seq<char>)
    requires
        plain(t),
    ensures
        !is_block_marker(t),
{
    assert(opens("=begin"@));
    assert(closes("=end"@));
    lemma_prefix_chars("=begin"@, "=begin"@);
    lemma_suffix_chars("=end"@, "=end"@);
}

/// A line with no more than a delimiter or an asterisk holds no prose.
proof fn lemma_blank_prose(line: Seq<char>)
    requires
        trim(line).len() == 0 || trim(line) == seq!['*'] || opens(trim(line)) || closes(trim(line)),
    ensures
        line_prose(line).len() == 0,
{
    lemma_closers();
    lemma_openers();
    let core = trim(line);
    let cs = closers();
    let os = openers();
    let none = Seq::<char>::empty();
    assert(trim(none) =~= none);
    assert(trim_end(none) =~= none);
    assert forall|j: int| 0 <= j < os.len() implies !(#[trigger] os[j]).is_prefix_of(none) by {
        lemma_prefix_chars(os[j], none);
    }
    assert forall|j: int| 0 <= j < cs.len() implies !(#[trigger] cs[j]).is_suffix_of(none) by {
        lemma_suffix_chars(cs[j], none);
    }
    lemma_nothing_opens(none, os);
    if core.len() == 0 {
        assert(core =~= none);
        lemma_nothing_closes(core, cs);
    } else if core == seq!['*'] {
        assert forall|j: int| 0 <= j < cs.len() implies !(#[trigger] cs[j]).is_suffix_of(core) by {
            lemma_suffix_chars(cs[j], core);
        }
        lemma_nothing_closes(core, cs);
        assert forall|j: int| 0 <= j < os.len() implies !(#[trigger] os[j]).is_prefix_of(core) by {
            lemma_prefix_chars(os[j], core);
            if os[j].is_prefix_of(core) {
                assert(os[j][0] == core[0]);
            }
        }
        lemma_nothing_opens(core, os);
        assert(core.skip(1) =~= none);
    } else if opens(core) {
        let i = lemma_opener_index(core);
        lemma_openers_do_not_close();
        lemma_nothing_closes(core, cs);
        lemma_first_opener(core, none, i);
        assert(core + none =~= core);
        assert(core.skip(core.len() as int) =~= none);
    } else {
        let i = lemma_closer_index(core);
        lemma_suffix_chars(core, core);
        assert forall|j: int| 0 <= j < i implies !(#[trigger] cs[j]).is_suffix_of(core) by {
            assert(!cs[j].is_suffix_of(cs[i]));
        }
        assert(core.take(0) =~= none);
        lemma_one_closes(core, none, cs, i);
    }
}

/// Whether `ls` are lines of a comment that hold the prose `ts`, line for line.
pub open spec fn all_written(ls: Seq<Seq<char>>, ts: Seq<Seq<char>>) -> bool {
    &&& ls.len() == ts.len()
    &&& forall|i: int| 0 <= i < ls.len() ==> written(#[trigger] ls[i], ts[i])
    &&& forall|i: int, k: int| 0 <= i < ls.len() && 0 <= k < ls[i].len() ==> #[trigger] ls[i][k] != '\n'
}

proof fn lemma_prose_of_written(ls: Seq<Seq<char>>, ts: Seq<Seq<char>>)
    requires
        ls.len() > 0,
        all_written(ls, ts),
    ensures
        prose_lines(lines(joined(ls, '\n'))) == ts || ts.last().len() == 0 && prose_lines(lines(joined(ls, '\n')))
            == ts.drop_last(),
    decreases ls.len(),
{
    let line = ls[0];
    let none = Seq::<Seq<char>>::empty();
    assert(written(ls[0], ts[0]));
    lemma_written_prose(line, ts[0]);
    lemma_prose_without_cr(line);
    assert forall|i: int| 0 <= i < line.len() implies #[trigger] line[i] != '\n' by {
        assert(ls[0][i] != '\n');
    }
    assert(prose_lines(none) =~= none);
    if ls.len() == 1 {
        assert(ls.drop_last() =~= none);
        assert(joined(ls, '\n') =~= line);
        lines_end_at_line_feeds(line, Seq::empty());
        if line.len() == 0 {
            lemma_nothing_written(line, ts[0]);
            assert(ts.drop_last() =~= none);
        } else {
            assert(seq![line].skip(1) =~= none);
            assert(prose_lines(seq![line]) =~= ts);
        }
    } else {
        let rest = ls.skip(1);
        let more = ts.skip(1);
        assert forall|i: int| 0 <= i < rest.len() implies written(#[trigger] rest[i], more[i]) by {
            assert(rest[i] == ls[i + 1]);
        }
        assert forall|i: int, k: int| 0 <= i < rest.len() && 0 <= k < rest[i].len() implies #[trigger] rest[i][k]
            != '\n' by {
            assert(ls[i + 1][k] != '\n');
        }
        lemma_prose_of_written(rest, more);
        lemma_joined_first(ls, '\n');
        lines_end_at_line_feeds(line, joined(rest, '\n'));
        let all = lines(joined(ls, '\n'));
        assert(all[0] == without_cr(line));
        assert(all.skip(1) =~= lines(joined(rest, '\n')));
        assert(ts =~= seq![ts[0]] + more);
        assert(ts.last() == more.last());
        assert(ts.drop_last() =~= seq![ts[0]] + more.drop_last());
    }
}

proof fn lemma_nothing_written(line: Seq<char>, t: Seq<char>)
    requires
        written(line, t),
        line.len() == 0,
    ensures
        t.len() == 0,
{
    assert(trim(line).len() == 0);
    if exists|x: Seq<char>, space: Seq<char>, d: Seq<char>| #[trigger] shorn(trim(line), x, space, d, t) {
        let (x, space, d) = choose|x: Seq<char>, space: Seq<char>, d: Seq<char>|
            #[trigger] shorn(trim(line), x, space, d, t);
        assert((x + space + d).len() > 0);
    } else if exists|y: Seq<char>, x: Seq<char>, gap: Seq<char>, space: Seq<char>, i: int, j: int| #[trigger]
        shorn_twice(trim(line), y, x, gap, space, i, j, t) {
        let (y, x, gap, space, i, j) = choose|
            y: Seq<char>,
            x: Seq<char>,
            gap: Seq<char>,
            space: Seq<char>,
            i: int,
            j: int,
        | #[trigger] shorn_twice(trim(line), y, x, gap, space, i, j, t);
        assert((x + gap + closing(j)).len() > 0);
        assert((y + space + closing(i)).len() > 0);
    }
}

proof fn lemma_without_blanks(ts: Seq<Seq<char>>, a: int, b: int)
    requires
        0 <= a < b <= ts.len(),
        ts[a].len() > 0,
        ts[b - 1].len() > 0,
        forall|i: int| 0 <= i < a || b <= i < ts.len() ==> (#[trigger] ts[i]).len() == 0,
    ensures
        without_trailing_blanks(without_leading_blanks(ts)) == ts.subrange(a, b),
    decreases ts.len(),
{
    if a > 0 {
        let rest = ts.skip(1);
        assert(ts[0].len() == 0);
        assert forall|i: int| 0 <= i < a - 1 || b - 1 <= i < rest.len() implies (#[trigger] rest[i]).len() == 0 by {
            assert(rest[i] == ts[i + 1]);
        }
        lemma_without_blanks(rest, a - 1, b - 1);
        assert(rest.subrange(a - 1, b - 1) =~= ts.subrange(a, b));
    } else {
        assert(without_leading_blanks(ts) == ts);
        if b < ts.len() {
            let outer = ts.drop_last();
            assert(ts[ts.len() - 1].len() == 0);
            assert forall|i: int| 0 <= i < a || b <= i < outer.len() implies (#[trigger] outer[i]).len() == 0 by {
                assert(outer[i] == ts[i]);
            }
            lemma_without_blanks(outer, a, b);
            assert(without_leading_blanks(outer) == outer);
            assert(outer.subrange(a, b) =~= ts.subrange(a, b));
        } else {
            assert(ts.subrange(a, b) =~= ts);
        }
    }
}

/// No line of prose is lost, and nothing is added: a comment whose lines hold
/// prose behind asterisks and delimiters, before delimiters or without any,
/// cleans to that prose, line for line. Lines without prose stay as empty lines
/// between the first and the last with prose, and are dropped before and behind.
pub proof fn prose_of_every_line_is_kept(ls: Seq<Seq<char>>, ts: Seq<Seq<char>>, a: int, b: int)
    requires
        all_written(ls, ts),
        0 <= a < b <= ts.len(),
        ts[a].len() > 0,
        ts[b - 1].len() > 0,
        forall|i: int| 0 <= i < a || b <= i < ts.len() ==> (#[trigger] ts[i]).len() == 0,
    ensures
        cleaned(joined(ls, '\n')) == joined(ts.subrange(a, b), '\n'),
{
    lemma_prose_of_written(ls, ts);
    let kept = prose_lines(lines(joined(ls, '\n')));
    if kept == ts {
        lemma_without_blanks(ts, a, b);
    } else {
        let outer = ts.drop_last();
        assert(ts[ts.len() - 1].len() == 0);
        assert(b < ts.len());
        assert forall|i: int| 0 <= i < a || b <= i < outer.len() implies (#[trigger] outer[i]).len() == 0 by {
            assert(outer[i] == ts[i]);
        }
        lemma_without_blanks(outer, a, b);
        assert(outer.subrange(a, b) =~= ts.subrange(a, b));
    }
}

/// Of a comment without prose nothing is left.
pub proof fn nothing_is_left_without_prose(ls: Seq<Seq<char>>, ts: Seq<Seq<char>>)
    requires
        all_written(ls, ts),
        ls.len() > 0,
        forall|i: int| 0 <= i < ts.len() ==> (#[trigger] ts[i]).len() == 0,
    ensures
        cleaned(joined(ls, '\n')).len() == 0,
{
    lemma_prose_of_written(ls, ts);
    let kept = prose_lines(lines(joined(ls, '\n')));
    assert forall|i: int| 0 <= i < kept.len() implies (#[trigger] kept[i]).len() == 0 by {
        assert(kept[i] == ts[i]);
    }
    lemma_all_blank(kept);
}

proof fn lemma_all_blank(ts: Seq<Seq<char>>)
    requires
        forall|i: int| 0 <= i < ts.len() ==> (#[trigger] ts[i]).len() == 0,
    ensures
        without_leading_blanks(ts).len() == 0,
    decreases ts.len(),
{
    if ts.len() > 0 {
        assert(ts[0].len() == 0);
        assert forall|i: int| 0 <= i < ts.skip(1).len() implies (#[trigger] ts.skip(1)[i]).len() == 0 by {
            assert(ts.skip(1)[i] == ts[i + 1]);
        }
        lemma_all_blank(ts.skip(1));
    }
}

/// A line of prose that begins with no delimiter and no asterisk and ends with
/// no delimiter is cleaned to itself, whatever else it begins with, once the
/// white space around it is off.
pub proof fn plain_line_is_kept(lead: Seq<char>, t: Seq<char>, tail: Seq<char>)
    requires
        plain(t),
        all_space(lead),
        all_space(tail),
        forall|i: int| 0 <= i < (lead + t + tail).len() ==> #[trigger] (lead + t + tail)[i] != '\n',
    ensures
        cleaned(lead + t + tail) == t,
{
    let line = lead + t + tail;
    let ls = seq![line];
    let ts = seq![t];
    trimming_takes_off_the_space_around(lead, t, tail);
    assert(led(trim(line), t));
    assert(ls.drop_last() =~= Seq::<Seq<char>>::empty());
    assert(ts.drop_last() =~= Seq::<Seq<char>>::empty());
    assert(joined(ls, '\n') =~= line);
    assert(joined(ts, '\n') =~= t);
    assert forall|i: int, k: int| 0 <= i < ls.len() && 0 <= k < ls[i].len() implies #[trigger] ls[i][k] != '\n' by {
        assert(ls[i] == line);
        assert(line[k] != '\n');
    }
    prose_of_every_line_is_kept(ls, ts, 0, 1);
    assert(ts.subrange(0, 1) =~= ts);
}

/// A line that says no more than that a block begins says nothing, behind a
/// delimiter or an asterisk too.
pub proof fn block_marker_is_no_prose(line: Seq<char>)
    requires
        trim(line).len() > 0,
        bared(trim(line), "=begin"@),
        forall|e: Seq<char>| #[trigger] closes(e) ==> !e.is_suffix_of(trim(line)),
        forall|i: int| 0 <= i < line.len() ==> #[trigger] line[i] != '\n',
    ensures
        cleaned(line).len() == 0,
{
    let core = trim(line);
    let cs = closers();
    let none = Seq::<Seq<char>>::empty();
    lemma_trim_trimmed(line);
    lemma_closers();
    assert forall|j: int| 0 <= j < cs.len() implies !(#[trigger] cs[j]).is_suffix_of(core) by {
        assert(closes(cs[j]));
    }
    lemma_nothing_closes(core, cs);
    lemma_bared_prose(core, "=begin"@);
    lines_end_at_line_feeds(line, Seq::empty());
    if line.len() == 0 {
        assert(core.len() == 0);
    }
    assert(seq![line].skip(1) =~= none);
    assert(prose_lines(none) =~= none);
    assert(prose_lines(seq![line]) =~= none);
    assert(without_leading_blanks(none) =~= none);
}

} // verus!
