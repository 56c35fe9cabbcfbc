//! Paths by their bytes: the parts they are made of, the order they are put
//! into, and the directories they lead to.
//!
//! A path is a run of pieces with slashes between them. Two paths that have
//! the same parts are the same path, however they are written.

use vstd::prelude::*;

use crate::order::bytes_precede;

#[allow(unused_imports)]
use crate::order::{
    byte_lt, bytes_before, lemma_lex_connected, lemma_lex_irreflexive, lemma_lex_transitive, lex_before,
    strict_total,
};
#[allow(unused_imports)]
use crate::text::{lemma_span, lemma_span_is, span};

verus! {

/// The separator of the pieces of a path.
pub const SLASH: u8 = 0x2f;

/// The byte that the pieces `.` and `..` are made of.
pub const DOT: u8 = 0x2e;

/// One part of a path.
#[derive(Debug)]
pub enum PathPart {
    /// The slash that an absolute path begins with.
    Root,
    /// The `.` that a relative path may begin with.
    Cur,
    /// A piece `..`.
    Parent,
    /// Any other piece.
    Name(Vec<u8>),
}

/// What a [`PathPart`] says.
pub enum Part {
    Root,
    Cur,
    Parent,
    Name(Seq<u8>),
}

impl View for PathPart {
    type V = Part;

    open spec fn view(&self) -> Part {
        match self {
            PathPart::Root => Part::Root,
            PathPart::Cur => Part::Cur,
            PathPart::Parent => Part::Parent,
            PathPart::Name(name) => Part::Name(name@),
        }
    }
}

/// Each part by what it says.
pub open spec fn part_views(parts: Seq<PathPart>) -> Seq<Part> {
    Seq::new(parts.len(), |i: int| parts[i]@)
}

/// The part that a piece stands for; an empty piece and `.` stand for none.
pub open spec fn part_of(piece: Seq<u8>) -> Option<Part> {
    if piece.len() == 0 || piece == seq![DOT] {
        None
    } else if piece == seq![DOT, DOT] {
        Some(Part::Parent)
    } else {
        Some(Part::Name(piece))
    }
}

/// The part that a piece stands for, if any, as a sequence.
pub open spec fn parts_of_piece(piece: Seq<u8>) -> Seq<Part> {
    match part_of(piece) {
        Some(part) => seq![part],
        None => Seq::empty(),
    }
}

/// The parts of the pieces of `p`.
pub open spec fn body_parts(p: Seq<u8>) -> Seq<Part>
    decreases p.len(),
{
    let n = span(p, SLASH) as int;
    if n >= p.len() {
        parts_of_piece(p)
    } else {
        parts_of_piece(p.take(n)) + body_parts(p.skip(n + 1))
    }
}

/// Whether a path is absolute.
pub open spec fn rooted(p: Seq<u8>) -> bool {
    p.len() > 0 && p[0] == SLASH
}

/// Whether a path begins with the piece `.`.
pub open spec fn dotted(p: Seq<u8>) -> bool {
    p.len() > 0 && p[0] == DOT && (p.len() == 1 || p[1] == SLASH)
}

/// The parts of a path.
pub open spec fn parts(p: Seq<u8>) -> Seq<Part> {
    if rooted(p) {
        seq![Part::Root] + body_parts(p.skip(1))
    } else if dotted(p) {
        seq![Part::Cur] + body_parts(p.skip(1))
    } else {
        body_parts(p)
    }
}

/// `p` without the pieces at its start that stand for no part.
pub open spec fn left_trimmed(p: Seq<u8>) -> Seq<u8>
    decreases p.len(),
{
    let n = span(p, SLASH) as int;
    if n >= p.len() {
        if part_of(p) is Some {
            p
        } else {
            Seq::empty()
        }
    } else if part_of(p.take(n)) is Some {
        p
    } else {
        left_trimmed(p.skip(n + 1))
    }
}

/// The number of bytes behind the last slash, or of all.
pub open spec fn tail_len(p: Seq<u8>) -> nat
    decreases p.len(),
{
    if p.len() == 0 || p.last() == SLASH {
        0
    } else {
        1 + tail_len(p.drop_last())
    }
}

/// `p` without the pieces at its end that stand for no part.
pub open spec fn right_trimmed(p: Seq<u8>) -> Seq<u8>
    decreases p.len(),
{
    let n = p.len() - tail_len(p);
    if n <= 0 {
        if part_of(p) is Some {
            p
        } else {
            Seq::empty()
        }
    } else if part_of(p.skip(n)) is Some {
        p
    } else {
        right_trimmed(p.take(n - 1))
    }
}

/// `p` without its first pieces, up to the one that stands for the `k`-th part.
pub open spec fn after_parts(p: Seq<u8>, k: nat) -> Seq<u8>
    decreases p.len(),
{
    let n = span(p, SLASH) as int;
    if k == 0 {
        p
    } else if n >= p.len() {
        Seq::empty()
    } else if part_of(p.take(n)) is Some {
        after_parts(p.skip(n + 1), (k - 1) as nat)
    } else {
        after_parts(p.skip(n + 1), k)
    }
}

/// What is left of `p` behind its first `k` parts, `k` being at least one.
pub open spec fn behind(p: Seq<u8>, k: nat) -> Seq<u8> {
    if rooted(p) || dotted(p) {
        right_trimmed(left_trimmed(after_parts(p.skip(1), (k - 1) as nat)))
    } else {
        right_trimmed(left_trimmed(after_parts(p, k)))
    }
}

/// What is left of `p` behind `prefix`, where `p` begins with its parts.
pub open spec fn stripped(p: Seq<u8>, prefix: Seq<u8>) -> Option<Seq<u8>> {
    if parts(prefix).is_prefix_of(parts(p)) {
        Some(behind(p, parts(prefix).len()))
    } else {
        None
    }
}

/// `p` without a leading `./`.
pub open spec fn normalized(p: Seq<u8>) -> Seq<u8> {
    if dotted(p) {
        behind(p, 1)
    } else {
        p
    }
}

pub proof fn lemma_tail_len(p: Seq<u8>)
    ensures
        tail_len(p) <= p.len(),
        forall|i: int| p.len() - tail_len(p) <= i < p.len() ==> p[i] != SLASH,
        tail_len(p) < p.len() ==> p[p.len() - tail_len(p) - 1] == SLASH,
    decreases p.len(),
{
    if p.len() > 0 && p.last() != SLASH {
        let q = p.drop_last();
        lemma_tail_len(q);
        assert forall|i: int| p.len() - tail_len(p) <= i < p.len() implies p[i] != SLASH by {
            if i < p.len() - 1 {
                assert(q[i] == p[i]);
            }
        }
    }
}

/// The parts of two runs of pieces with a slash between them.
proof fn lemma_body_parts_joined(a: Seq<u8>, b: Seq<u8>)
    ensures
        body_parts(a.push(SLASH) + b) == body_parts(a) + body_parts(b),
    decreases a.len(),
{
    let whole = a.push(SLASH) + b;
    let n = span(a, SLASH) as int;
    lemma_span(a, SLASH);
    assert forall|i: int| 0 <= i < n implies whole[i] != SLASH by {
        assert(whole[i] == a[i]);
    }
    assert(whole[n] == SLASH);
    lemma_span_is(whole, SLASH, n as nat);
    assert(whole.take(n) =~= a.take(n));
    if n >= a.len() {
        assert(a.take(n) =~= a);
        assert(whole.skip(n + 1) =~= b);
    } else {
        let rest = a.skip(n + 1);
        assert(whole.skip(n + 1) =~= rest.push(SLASH) + b);
        lemma_body_parts_joined(rest, b);
        assert(body_parts(whole) =~= body_parts(a) + body_parts(b));
    }
}

proof fn lemma_left_trimmed(p: Seq<u8>)
    ensures
        body_parts(left_trimmed(p)) == body_parts(p),
        !rooted(left_trimmed(p)) && !dotted(left_trimmed(p)),
    decreases p.len(),
{
    let n = span(p, SLASH) as int;
    lemma_span(p, SLASH);
    if n >= p.len() {
        if part_of(p) is Some {
            assert(p[0] != SLASH);
            if dotted(p) {
                assert(p =~= seq![DOT]);
            }
        } else {
            assert(span(Seq::<u8>::empty(), SLASH) == 0);
            assert(body_parts(p) =~= body_parts(Seq::empty()));
        }
    } else if part_of(p.take(n)) is Some {
        if rooted(p) {
            assert(n == 0);
        }
        if dotted(p) {
            assert(p[1] == SLASH);
            assert(n == 1);
            assert(p.take(n) =~= seq![DOT]);
        }
    } else {
        lemma_left_trimmed(p.skip(n + 1));
        assert(body_parts(p) =~= body_parts(p.skip(n + 1)));
    }
}

proof fn lemma_right_trimmed(p: Seq<u8>)
    ensures
        body_parts(right_trimmed(p)) == body_parts(p),
        right_trimmed(p).is_prefix_of(p),
        0 < right_trimmed(p).len() < p.len() ==> p[right_trimmed(p).len() as int] == SLASH,
    decreases p.len(),
{
    let n = p.len() - tail_len(p);
    lemma_tail_len(p);
    if n <= 0 {
        lemma_span_is(p, SLASH, p.len());
        if part_of(p) is None {
            assert(body_parts(p) =~= body_parts(Seq::empty()));
        }
    } else if part_of(p.skip(n)) is None {
        let tail = p.skip(n);
        assert(p =~= p.take(n - 1).push(SLASH) + tail);
        lemma_body_parts_joined(p.take(n - 1), tail);
        lemma_span_is(tail, SLASH, tail.len());
        assert(body_parts(tail) =~= Seq::empty());
        lemma_right_trimmed(p.take(n - 1));
        assert(body_parts(p) =~= body_parts(p.take(n - 1)));
    }
}

proof fn lemma_after_parts(p: Seq<u8>, k: nat)
    requires
        k <= body_parts(p).len(),
    ensures
        body_parts(after_parts(p, k)) == body_parts(p).skip(k as int),
    decreases p.len(),
{
    let n = span(p, SLASH) as int;
    lemma_span(p, SLASH);
    if k == 0 {
        assert(body_parts(p).skip(0) =~= body_parts(p));
    } else if n >= p.len() {
        assert(body_parts(Seq::<u8>::empty()) =~= body_parts(p).skip(k as int));
    } else if part_of(p.take(n)) is Some {
        lemma_after_parts(p.skip(n + 1), (k - 1) as nat);
        assert(body_parts(p).skip(k as int) =~= body_parts(p.skip(n + 1)).skip(k - 1));
    } else {
        assert(body_parts(p) =~= body_parts(p.skip(n + 1)));
        lemma_after_parts(p.skip(n + 1), k);
    }
}

/// A path that is not empty has a part.
pub proof fn lemma_has_parts(p: Seq<u8>)
    requires
        p.len() > 0,
    ensures
        parts(p).len() > 0,
{
    let n = span(p, SLASH) as int;
    lemma_span(p, SLASH);
    if !rooted(p) && !dotted(p) {
        let piece = if n >= p.len() {
            p
        } else {
            p.take(n)
        };
        assert(piece.len() > 0 && piece[0] == p[0]);
        if piece == seq![DOT] {
            assert(p[0] == DOT);
            assert(p.len() == 1 || p[1] == SLASH);
        }
        assert(part_of(piece) is Some);
    }
}

/// To take a prefix off a path takes the parts of the prefix off its parts.
pub proof fn stripped_path_has_the_other_parts(p: Seq<u8>, prefix: Seq<u8>)
    requires
        prefix.len() > 0,
        parts(prefix).is_prefix_of(parts(p)),
    ensures
        stripped(p, prefix) is Some,
        parts(p) == parts(prefix) + parts(stripped(p, prefix)->0),
{
    let k = parts(prefix).len();
    lemma_has_parts(prefix);
    lemma_behind(p, k);
    assert(parts(p) =~= parts(prefix) + parts(p).skip(k as int));
}

proof fn lemma_behind(p: Seq<u8>, k: nat)
    requires
        1 <= k <= parts(p).len(),
    ensures
        parts(behind(p, k)) == parts(p).skip(k as int),
        !rooted(behind(p, k)) && !dotted(behind(p, k)),
{
    let rest = if rooted(p) || dotted(p) {
        after_parts(p.skip(1), (k - 1) as nat)
    } else {
        after_parts(p, k)
    };
    if rooted(p) || dotted(p) {
        lemma_after_parts(p.skip(1), (k - 1) as nat);
        assert(parts(p).skip(k as int) =~= body_parts(p.skip(1)).skip(k - 1));
    } else {
        lemma_after_parts(p, k);
    }
    let left = left_trimmed(rest);
    lemma_left_trimmed(rest);
    lemma_right_trimmed(left);
    let r = right_trimmed(left);
    assert(r =~= left.take(r.len() as int));
    if rooted(r) {
        assert(left[0] == r[0]);
    }
    if dotted(r) {
        assert(left[0] == r[0]);
        if r.len() > 1 {
            assert(left[1] == r[1]);
        }
    }
}

/// A normalized path has no leading `.`, and is otherwise the same path.
pub proof fn normalized_path_has_no_leading_dot(p: Seq<u8>)
    ensures
        !dotted(normalized(p)),
        normalized(normalized(p)) == normalized(p),
        parts(p) == if dotted(p) {
            seq![Part::Cur] + parts(normalized(p))
        } else {
            parts(normalized(p))
        },
{
    if dotted(p) {
        lemma_behind(p, 1);
        assert(parts(p) =~= seq![Part::Cur] + parts(p).skip(1));
    }
}

/// The place of the first `stop` in `p` from `lo` on, or the end of `p`.
fn find_byte(p: &[u8], lo: usize, stop: u8) -> (r: usize)
    requires
        lo <= p@.len(),
    ensures
        lo <= r <= p@.len(),
        r - lo == span(p@.skip(lo as int), stop),
{
    let mut i: usize = lo;
    while i < p.len() && p[i] != stop
        invariant
            lo <= i <= p@.len(),
            forall|j: int| lo <= j < i ==> p@[j] != stop,
        decreases p.len() - i,
    {
        i += 1;
    }
    proof {
        lemma_span_is(p@.skip(lo as int), stop, (i - lo) as nat);
    }
    i
}

/// The bytes `p[lo..hi]`.
pub(crate) fn bytes_in(p: &[u8], lo: usize, hi: usize) -> (r: Vec<u8>)
    requires
        lo <= hi <= p@.len(),
    ensures
        r@ == p@.subrange(lo as int, hi as int),
{
    let mut r: Vec<u8> = Vec::new();
    let mut i: usize = lo;
    while i < hi
        invariant
            lo <= i <= hi <= p@.len(),
            r@ == p@.subrange(lo as int, i as int),
        decreases hi - i,
    {
        r.push(p[i]);
        i += 1;
    }
    r
}

/// Whether two runs of bytes are the same.
pub(crate) fn same_bytes(a: &[u8], b: &[u8]) -> (r: bool)
    ensures
        r == (a@ == b@),
{
    if a.len() != b.len() {
        return false;
    }
    let mut i: usize = 0;
    while i < a.len()
        invariant
            i <= a@.len() == b@.len(),
            forall|j: int| 0 <= j < i ==> a@[j] == b@[j],
        decreases a.len() - i,
    {
        if a[i] != b[i] {
            return false;
        }
        i += 1;
    }
    assert(a@ =~= b@);
    true
}

/// Whether the piece `p[lo..hi]` stands for a part.
fn piece_counts(p: &[u8], lo: usize, hi: usize) -> (r: bool)
    requires
        lo <= hi <= p@.len(),
    ensures
        r == (part_of(p@.subrange(lo as int, hi as int)) is Some),
{
    let ghost piece = p@.subrange(lo as int, hi as int);
    proof {
        assert(piece.len() == hi - lo);
        if piece == seq![DOT] {
            assert(piece.len() == 1 && piece[0] == DOT);
        }
        if piece.len() == 1 && p@[lo as int] == DOT {
            assert(piece =~= seq![DOT]);
        }
    }
    hi > lo && !(hi - lo == 1 && p[lo] == DOT)
}

/// The part that the piece `p[lo..hi]` stands for.
fn read_piece(p: &[u8], lo: usize, hi: usize) -> (r: PathPart)
    requires
        lo <= hi <= p@.len(),
        part_of(p@.subrange(lo as int, hi as int)) is Some,
    ensures
        part_of(p@.subrange(lo as int, hi as int)) == Some(r@),
{
    let ghost piece = p@.subrange(lo as int, hi as int);
    if hi - lo == 2 && p[lo] == DOT && p[lo + 1] == DOT {
        assert(piece =~= seq![DOT, DOT]);
        PathPart::Parent
    } else {
        proof {
            if piece == seq![DOT, DOT] {
                assert(piece[0] == DOT && piece[1] == DOT);
            }
        }
        PathPart::Name(bytes_in(p, lo, hi))
    }
}

/// The parts of the pieces of `p` from `lo` on, behind those in `out`.
fn push_parts(p: &[u8], lo: usize, out: &mut Vec<PathPart>)
    requires
        lo <= p@.len(),
    ensures
        part_views(final(out)@) == part_views(old(out)@) + body_parts(p@.skip(lo as int)),
    decreases p@.len() - lo,
{
    let end: usize = find_byte(p, lo, SLASH);
    let ghost rest = p@.skip(lo as int);
    let ghost n = end - lo;
    let ghost before = part_views(out@);
    proof {
        assert(rest.take(n) =~= p@.subrange(lo as int, end as int));
        if n >= rest.len() {
            assert(rest.take(n) =~= rest);
        }
    }
    if piece_counts(p, lo, end) {
        let part = read_piece(p, lo, end);
        out.push(part);
        assert(part_views(out@) =~= before + parts_of_piece(rest.take(n)));
    } else {
        assert(part_views(out@) =~= before + parts_of_piece(rest.take(n)));
    }
    if end < p.len() {
        push_parts(p, end + 1, out);
        proof {
            assert(rest.skip(n + 1) =~= p@.skip(end + 1));
            assert(before + parts_of_piece(rest.take(n)) + body_parts(rest.skip(n + 1)) =~= before + body_parts(rest));
        }
    }
}

/// The parts of a path.
pub fn parts_of(p: &[u8]) -> (r: Vec<PathPart>)
    ensures
        part_views(r@) == parts(p@),
{
    let mut r: Vec<PathPart> = Vec::new();
    assert(part_views(r@) =~= Seq::<Part>::empty());
    if p.len() > 0 && p[0] == SLASH {
        r.push(PathPart::Root);
        assert(part_views(r@) =~= seq![Part::Root]);
        push_parts(p, 1, &mut r);
    } else if p.len() > 0 && p[0] == DOT && (p.len() == 1 || p[1] == SLASH) {
        r.push(PathPart::Cur);
        assert(part_views(r@) =~= seq![Part::Cur]);
        push_parts(p, 1, &mut r);
    } else {
        assert(p@.skip(0) =~= p@);
        push_parts(p, 0, &mut r);
        assert(Seq::<Part>::empty() + body_parts(p@) =~= body_parts(p@));
    }
    r
}

/// Where `p` begins, from `lo` on, behind `k` parts and the pieces after them
/// that stand for none.
fn start_behind(p: &[u8], lo: usize, k: usize) -> (r: usize)
    requires
        lo <= p@.len(),
    ensures
        lo <= r <= p@.len(),
        p@.skip(r as int) == left_trimmed(after_parts(p@.skip(lo as int), k as nat)),
    decreases p@.len() - lo,
{
    let end: usize = find_byte(p, lo, SLASH);
    let ghost rest = p@.skip(lo as int);
    let ghost n = end - lo;
    proof {
        assert(rest.take(n) =~= p@.subrange(lo as int, end as int));
        if n >= rest.len() {
            assert(rest.take(n) =~= rest);
            assert(p@.skip(p@.len() as int) =~= Seq::<u8>::empty());
        } else {
            assert(rest.skip(n + 1) =~= p@.skip(end + 1));
        }
    }
    let counts = piece_counts(p, lo, end);
    if k == 0 && counts {
        return lo;
    }
    if end >= p.len() {
        return p.len();
    }
    if counts {
        start_behind(p, end + 1, k - 1)
    } else {
        start_behind(p, end + 1, k)
    }
}

/// Where `p[lo..hi]` ends without the pieces at its end that stand for no part.
fn end_of_parts(p: &[u8], lo: usize, hi: usize) -> (r: usize)
    requires
        lo <= hi <= p@.len(),
    ensures
        lo <= r <= hi,
        p@.subrange(lo as int, r as int) == right_trimmed(p@.subrange(lo as int, hi as int)),
    decreases hi - lo,
{
    let ghost whole = p@.subrange(lo as int, hi as int);
    let mut at: usize = hi;
    while at > lo && p[at - 1] != SLASH
        invariant
            lo <= at <= hi <= p@.len(),
            tail_len(p@.subrange(lo as int, hi as int)) == (hi - at) + tail_len(p@.subrange(lo as int, at as int)),
        decreases at,
    {
        assert(p@.subrange(lo as int, at as int).drop_last() =~= p@.subrange(lo as int, at - 1));
        at -= 1;
    }
    proof {
        lemma_tail_len(p@.subrange(lo as int, at as int));
        assert(whole.skip(at - lo) =~= p@.subrange(at as int, hi as int));
    }
    if piece_counts(p, at, hi) {
        assert(at == lo ==> whole.skip(0) =~= whole);
        return hi;
    }
    if at == lo {
        assert(whole.skip(0) =~= whole);
        assert(p@.subrange(lo as int, lo as int) =~= Seq::<u8>::empty());
        return lo;
    }
    assert(whole.take(at - lo - 1) =~= p@.subrange(lo as int, at - 1));
    end_of_parts(p, lo, at - 1)
}

/// What is left of `p` behind its first `k` parts.
fn path_behind(p: &[u8], k: usize) -> (r: Vec<u8>)
    requires
        k > 0,
    ensures
        r@ == behind(p@, k as nat),
{
    let start: usize = if p.len() > 0 && (p[0] == SLASH || (p[0] == DOT && (p.len() == 1 || p[1] == SLASH))) {
        start_behind(p, 1, k - 1)
    } else {
        assert(p@.skip(0) =~= p@);
        start_behind(p, 0, k)
    };
    assert(p@.subrange(start as int, p@.len() as int) =~= p@.skip(start as int));
    let end: usize = end_of_parts(p, start, p.len());
    bytes_in(p, start, end)
}

/// Whether two parts are the same.
fn same_part(a: &PathPart, b: &PathPart) -> (r: bool)
    ensures
        r == (a@ == b@),
{
    match (a, b) {
        (PathPart::Root, PathPart::Root) => true,
        (PathPart::Cur, PathPart::Cur) => true,
        (PathPart::Parent, PathPart::Parent) => true,
        (PathPart::Name(x), PathPart::Name(y)) => same_bytes(x.as_slice(), y.as_slice()),
        _ => false,
    }
}

/// Whether `a` begins with the parts of `b`.
fn begins_with(a: &Vec<PathPart>, b: &Vec<PathPart>) -> (r: bool)
    ensures
        r == part_views(b@).is_prefix_of(part_views(a@)),
{
    if b.len() > a.len() {
        return false;
    }
    let mut i: usize = 0;
    while i < b.len()
        invariant
            i <= b@.len() <= a@.len(),
            forall|j: int| 0 <= j < i ==> part_views(a@)[j] == part_views(b@)[j],
        decreases b.len() - i,
    {
        if !same_part(&a[i], &b[i]) {
            assert(part_views(a@)[i as int] != part_views(b@)[i as int]);
            return false;
        }
        i += 1;
    }
    assert(part_views(b@) =~= part_views(a@).subrange(0, b@.len() as int));
    true
}

/// What is left of `p` behind `prefix`; none where `p` does not begin with it.
pub fn strip_prefix(p: &[u8], prefix: &[u8]) -> (r: Option<Vec<u8>>)
    requires
        prefix@.len() > 0,
    ensures
        match r {
            Some(rest) => stripped(p@, prefix@) == Some(rest@),
            None => stripped(p@, prefix@) is None,
        },
{
    let whole = parts_of(p);
    let first = parts_of(prefix);
    proof {
        lemma_has_parts(prefix@);
    }
    if begins_with(&whole, &first) {
        Some(path_behind(p, first.len()))
    } else {
        None
    }
}

/// `p` without a leading `./`, so that paths from different sources compare
/// equal.
pub fn normalize(p: &[u8]) -> (r: Vec<u8>)
    ensures
        r@ == normalized(p@),
{
    if p.len() > 0 && p[0] == DOT && (p.len() == 1 || p[1] == SLASH) {
        path_behind(p, 1)
    } else {
        let r = bytes_in(p, 0, p.len());
        assert(r@ =~= p@);
        r
    }
}

/// The kinds of parts in their order.
pub open spec fn part_rank(part: Part) -> int {
    match part {
        Part::Root => 0,
        Part::Cur => 1,
        Part::Parent => 2,
        Part::Name(_) => 3,
    }
}

/// The order of parts: by their kinds, and names by their bytes.
pub open spec fn part_lt() -> spec_fn(Part, Part) -> bool {
    |x: Part, y: Part|
        match (x, y) {
            (Part::Name(a), Part::Name(b)) => bytes_before(a, b),
            _ => part_rank(x) < part_rank(y),
        }
}

/// Whether the path `a` comes before the path `b`: the first parts in which
/// they differ decide.
pub open spec fn path_before(a: Seq<u8>, b: Seq<u8>) -> bool {
    lex_before(parts(a), parts(b), part_lt())
}

/// Whether two texts are the same path.
pub open spec fn same_parts(a: Seq<u8>, b: Seq<u8>) -> bool {
    parts(a) == parts(b)
}

proof fn lemma_part_order()
    ensures
        strict_total(part_lt()),
{
    let lt = part_lt();
    assert forall|x: Part| !#[trigger] lt(x, x) by {
        if let Part::Name(a) = x {
            lemma_lex_irreflexive(a, byte_lt());
        }
    }
    assert forall|x: Part, y: Part| #![trigger lt(x, y)] x != y implies lt(x, y) || lt(y, x) by {
        if let (Part::Name(a), Part::Name(b)) = (x, y) {
            lemma_lex_connected(a, b, byte_lt());
        }
    }
    assert forall|x: Part, y: Part, z: Part| #![trigger lt(x, y), lt(y, z)] lt(x, y) && lt(y, z) implies lt(x, z) by {
        if let (Part::Name(a), Part::Name(c)) = (x, z) {
            if let Part::Name(b) = y {
                lemma_lex_transitive(a, b, c, byte_lt());
            }
        }
    }
}

/// Paths have one order: none is before itself, of two different ones exactly
/// one is before the other, and the order carries over.
pub proof fn path_order(a: Seq<u8>, b: Seq<u8>, c: Seq<u8>)
    ensures
        !path_before(a, a),
        same_parts(a, b) ==> !path_before(a, b),
        !same_parts(a, b) ==> path_before(a, b) || path_before(b, a),
        !(path_before(a, b) && path_before(b, a)),
        path_before(a, b) && path_before(b, c) ==> path_before(a, c),
{
    lemma_part_order();
    lemma_lex_irreflexive(parts(a), part_lt());
    if !same_parts(a, b) {
        lemma_lex_connected(parts(a), parts(b), part_lt());
    }
    if path_before(a, b) && path_before(b, a) {
        lemma_lex_transitive(parts(a), parts(b), parts(a), part_lt());
    }
    if path_before(a, b) && path_before(b, c) {
        lemma_lex_transitive(parts(a), parts(b), parts(c), part_lt());
    }
}

/// Whether one part comes before another that differs from it.
fn part_precedes(a: &PathPart, b: &PathPart) -> (r: bool)
    ensures
        r == part_lt()(a@, b@),
{
    match (a, b) {
        (PathPart::Name(x), PathPart::Name(y)) => bytes_precede(x.as_slice(), y.as_slice()),
        (PathPart::Name(_), _) => false,
        (_, PathPart::Name(_)) => true,
        (PathPart::Root, PathPart::Root) => false,
        (PathPart::Root, _) => true,
        (PathPart::Cur, PathPart::Parent) => true,
        _ => false,
    }
}

/// Whether the path `a` comes before the path `b`.
pub fn path_precedes(a: &[u8], b: &[u8]) -> (r: bool)
    ensures
        r == path_before(a@, b@),
{
    let x = parts_of(a);
    let y = parts_of(b);
    let ghost u = part_views(x@);
    let ghost v = part_views(y@);
    let mut i: usize = 0;
    assert(u.skip(0) =~= u);
    assert(v.skip(0) =~= v);
    while i < x.len() && i < y.len() && same_part(&x[i], &y[i])
        invariant
            i <= x@.len(),
            i <= y@.len(),
            u == part_views(x@),
            v == part_views(y@),
            lex_before(u, v, part_lt()) == lex_before(u.skip(i as int), v.skip(i as int), part_lt()),
        decreases x.len() - i,
    {
        assert(u.skip(i as int).skip(1) =~= u.skip(i + 1));
        assert(v.skip(i as int).skip(1) =~= v.skip(i + 1));
        i += 1;
    }
    if i == y.len() {
        false
    } else if i == x.len() {
        true
    } else {
        part_precedes(&x[i], &y[i])
    }
}

/// Whether two texts are the same path.
pub fn same_path(a: &[u8], b: &[u8]) -> (r: bool)
    ensures
        r == same_parts(a@, b@),
{
    let x = parts_of(a);
    let y = parts_of(b);
    if x.len() != y.len() {
        assert(part_views(x@).len() != part_views(y@).len());
        return false;
    }
    let r = begins_with(&x, &y);
    assert(part_views(x@).subrange(0, y@.len() as int) =~= part_views(x@));
    r
}

/// The names on the way from the root to a directory.
pub open spec fn name_views(names: Seq<Vec<u8>>) -> Seq<Seq<u8>> {
    Seq::new(names.len(), |i: int| names[i]@)
}

/// Where a path leads from the directory `base`, without a look at what is
/// there: a name leads one directory down, `..` one up (the root has none above
/// it), and the root leads to the root.
pub open spec fn located(base: Seq<Seq<u8>>, path: Seq<Part>) -> Seq<Seq<u8>>
    decreases path.len(),
{
    if path.len() == 0 {
        base
    } else {
        let before = located(base, path.drop_last());
        match path.last() {
            Part::Root => Seq::empty(),
            Part::Cur => before,
            Part::Parent => if before.len() > 0 {
                before.drop_last()
            } else {
                before
            },
            Part::Name(name) => before.push(name),
        }
    }
}

/// The directory that an absolute path leads to.
pub open spec fn absolute_names(p: Seq<u8>) -> Seq<Seq<u8>> {
    located(Seq::empty(), parts(p))
}

/// The way to a directory as text, with a slash before each name.
pub open spec fn with_slashes(names: Seq<Seq<u8>>) -> Seq<u8>
    decreases names.len(),
{
    if names.len() == 0 {
        Seq::empty()
    } else {
        with_slashes(names.drop_last()).push(SLASH) + names.last()
    }
}

/// The text of the absolute path to a directory.
pub open spec fn rendered(names: Seq<Seq<u8>>) -> Seq<u8> {
    if names.len() == 0 {
        seq![SLASH]
    } else {
        with_slashes(names)
    }
}

/// Whether a piece is a name.
pub open spec fn is_name(piece: Seq<u8>) -> bool {
    &&& part_of(piece) == Some(Part::Name(piece))
    &&& span(piece, SLASH) == piece.len()
}

/// Whether each piece is a name.
pub open spec fn all_names(pieces: Seq<Seq<u8>>) -> bool {
    forall|i: int| 0 <= i < pieces.len() ==> is_name(#[trigger] pieces[i])
}

proof fn lemma_body_part_names(p: Seq<u8>)
    ensures
        forall|i: int|
            0 <= i < body_parts(p).len() ==> ((#[trigger] body_parts(p)[i]) matches Part::Name(name) ==> is_name(name)),
        forall|i: int|
            0 <= i < body_parts(p).len() ==> (#[trigger] body_parts(p)[i]) is Parent || body_parts(p)[i] is Name,
    decreases p.len(),
{
    let n = span(p, SLASH) as int;
    lemma_span(p, SLASH);
    if n < p.len() {
        lemma_body_part_names(p.skip(n + 1));
        let head = p.take(n);
        lemma_span_is(head, SLASH, head.len());
        let first = parts_of_piece(head);
        let rest = body_parts(p.skip(n + 1));
        assert forall|i: int| 0 <= i < body_parts(p).len() implies ((#[trigger] body_parts(p)[i]) matches Part::Name(
            name,
        ) ==> is_name(name)) && (body_parts(p)[i] is Parent || body_parts(p)[i] is Name) by {
            if i >= first.len() {
                assert(body_parts(p)[i] == rest[i - first.len()]);
            }
        }
    }
}

proof fn lemma_part_names(p: Seq<u8>)
    ensures
        forall|i: int| 0 <= i < parts(p).len() ==> ((#[trigger] parts(p)[i]) matches Part::Name(name) ==> is_name(name)),
{
    lemma_body_part_names(p);
    if p.len() > 0 {
        lemma_body_part_names(p.skip(1));
    }
    assert forall|i: int| 0 <= i < parts(p).len() implies ((#[trigger] parts(p)[i]) matches Part::Name(name) ==> is_name(
        name,
    )) by {
        if (rooted(p) || dotted(p)) && i > 0 {
            assert(parts(p)[i] == body_parts(p.skip(1))[i - 1]);
        }
    }
}

/// Where a path leads there are names alone: no `.` and no `..` is left.
pub proof fn located_names_are_names(base: Seq<Seq<u8>>, p: Seq<u8>)
    requires
        all_names(base),
    ensures
        all_names(located(base, parts(p))),
{
    lemma_part_names(p);
    lemma_located_names(base, parts(p));
}

proof fn lemma_located_names(base: Seq<Seq<u8>>, path: Seq<Part>)
    requires
        all_names(base),
        forall|i: int| 0 <= i < path.len() ==> ((#[trigger] path[i]) matches Part::Name(name) ==> is_name(name)),
    ensures
        all_names(located(base, path)),
    decreases path.len(),
{
    if path.len() > 0 {
        let outer = path.drop_last();
        assert forall|i: int| 0 <= i < outer.len() implies ((#[trigger] outer[i]) matches Part::Name(name) ==> is_name(
            name,
        )) by {
            assert(outer[i] == path[i]);
        }
        lemma_located_names(base, outer);
        assert(path[path.len() - 1] == path.last());
    }
}

/// The parts of a directory's way: its names.
pub open spec fn as_parts(names: Seq<Seq<u8>>) -> Seq<Part> {
    Seq::new(names.len(), |i: int| Part::Name(names[i]))
}

proof fn lemma_with_slashes(names: Seq<Seq<u8>>)
    requires
        all_names(names),
        names.len() > 0,
    ensures
        rooted(with_slashes(names)),
        body_parts(with_slashes(names).skip(1)) == as_parts(names),
    decreases names.len(),
{
    let outer = names.drop_last();
    let last = names.last();
    assert(is_name(names[names.len() - 1]));
    assert(body_parts(last) =~= seq![Part::Name(last)]);
    assert forall|i: int| 0 <= i < outer.len() implies is_name(#[trigger] outer[i]) by {
        assert(outer[i] == names[i]);
    }
    if outer.len() > 0 {
        lemma_with_slashes(outer);
        let text = with_slashes(outer);
        assert(with_slashes(names).skip(1) =~= text.skip(1).push(SLASH) + last);
        lemma_body_parts_joined(text.skip(1), last);
        assert(as_parts(names) =~= as_parts(outer) + seq![Part::Name(last)]);
    } else {
        assert(with_slashes(outer) =~= Seq::<u8>::empty());
        assert(with_slashes(names) =~= seq![SLASH] + last);
        assert(with_slashes(names).skip(1) =~= last);
        assert(as_parts(names) =~= seq![Part::Name(last)]);
    }
}

proof fn lemma_located_as_parts(base: Seq<Seq<u8>>, names: Seq<Seq<u8>>)
    ensures
        located(base, as_parts(names)) == base + names,
    decreases names.len(),
{
    if names.len() == 0 {
        assert(base + names =~= base);
        assert(as_parts(names).len() == 0);
    } else {
        lemma_located_as_parts(base, names.drop_last());
        assert(as_parts(names).drop_last() =~= as_parts(names.drop_last()));
        assert((base + names.drop_last()).push(names.last()) =~= base + names);
    }
}

proof fn lemma_located_from_root(base: Seq<Seq<u8>>, path: Seq<Part>)
    ensures
        located(base, seq![Part::Root] + path) == located(Seq::empty(), path),
    decreases path.len(),
{
    let whole = seq![Part::Root] + path;
    if path.len() == 0 {
        assert(whole.last() is Root);
    } else {
        assert(whole.drop_last() =~= seq![Part::Root] + path.drop_last());
        assert(whole.last() == path.last());
        lemma_located_from_root(base, path.drop_last());
    }
}

proof fn lemma_rendered_parts(names: Seq<Seq<u8>>)
    requires
        all_names(names),
    ensures
        rooted(rendered(names)),
        parts(rendered(names)) == seq![Part::Root] + as_parts(names),
{
    if names.len() > 0 {
        lemma_with_slashes(names);
    } else {
        assert(rendered(names).skip(1) =~= Seq::<u8>::empty());
        assert(as_parts(names) =~= Seq::<Part>::empty());
        assert(body_parts(Seq::<u8>::empty()) =~= Seq::<Part>::empty());
    }
}

/// The text of the way to a directory leads to that directory, from wherever it
/// is read.
pub proof fn rendered_path_leads_back(base: Seq<Seq<u8>>, names: Seq<Seq<u8>>)
    requires
        all_names(names),
    ensures
        rooted(rendered(names)),
        located(base, parts(rendered(names))) == names,
{
    lemma_rendered_parts(names);
    lemma_located_from_root(base, as_parts(names));
    lemma_located_as_parts(Seq::empty(), names);
    assert(Seq::<Seq<u8>>::empty() + names =~= names);
}

/// A copy of the names on a way.
pub(crate) fn copy_names(names: &Vec<Vec<u8>>) -> (r: Vec<Vec<u8>>)
    ensures
        name_views(r@) == name_views(names@),
{
    let mut r: Vec<Vec<u8>> = Vec::new();
    let mut i: usize = 0;
    while i < names.len()
        invariant
            i <= names@.len(),
            r@.len() == i,
            forall|j: int| 0 <= j < i ==> (#[trigger] r@[j])@ == names@[j]@,
        decreases names.len() - i,
    {
        let name = bytes_in(names[i].as_slice(), 0, names[i].len());
        assert(name@ =~= names@[i as int]@);
        r.push(name);
        i += 1;
    }
    assert(name_views(r@) =~= name_views(names@));
    r
}

/// Whether `a` begins with the names `b`.
pub(crate) fn names_begin_with(a: &Vec<Vec<u8>>, b: &Vec<Vec<u8>>) -> (r: bool)
    ensures
        r == name_views(b@).is_prefix_of(name_views(a@)),
{
    if b.len() > a.len() {
        return false;
    }
    let mut i: usize = 0;
    while i < b.len()
        invariant
            i <= b@.len() <= a@.len(),
            forall|j: int| 0 <= j < i ==> name_views(a@)[j] == name_views(b@)[j],
        decreases b.len() - i,
    {
        if !same_bytes(a[i].as_slice(), b[i].as_slice()) {
            assert(name_views(a@)[i as int] != name_views(b@)[i as int]);
            return false;
        }
        i += 1;
    }
    assert(name_views(b@) =~= name_views(a@).subrange(0, b@.len() as int));
    true
}

/// Whether two ways are the same.
pub(crate) fn same_names(a: &Vec<Vec<u8>>, b: &Vec<Vec<u8>>) -> (r: bool)
    ensures
        r == (name_views(a@) == name_views(b@)),
{
    if a.len() != b.len() {
        assert(name_views(a@).len() != name_views(b@).len());
        return false;
    }
    let r = names_begin_with(a, b);
    assert(name_views(a@).subrange(0, b@.len() as int) =~= name_views(a@));
    r
}

/// Where the first `n` parts of a path lead from `base`.
pub(crate) fn locate(base: &Vec<Vec<u8>>, path: &Vec<PathPart>, n: usize) -> (r: Vec<Vec<u8>>)
    requires
        n <= path@.len(),
    ensures
        name_views(r@) == located(name_views(base@), part_views(path@).take(n as int)),
{
    let mut r = copy_names(base);
    let ghost all = part_views(path@);
    let mut i: usize = 0;
    while i < n
        invariant
            i <= n <= path@.len(),
            all == part_views(path@),
            name_views(r@) == located(name_views(base@), all.take(i as int)),
        decreases n - i,
    {
        let ghost before = name_views(r@);
        proof {
            let next = all.take(i + 1);
            assert(next.drop_last() =~= all.take(i as int));
            assert(next.last() == path@[i as int]@);
        }
        match &path[i] {
            PathPart::Root => {
                r = Vec::new();
                assert(name_views(r@) =~= Seq::<Seq<u8>>::empty());
            },
            PathPart::Cur => {},
            PathPart::Parent => {
                let _ = r.pop();
                assert(name_views(r@) =~= if before.len() > 0 {
                    before.drop_last()
                } else {
                    before
                });
            },
            PathPart::Name(name) => {
                let piece = bytes_in(name.as_slice(), 0, name.len());
                assert(piece@ =~= name@);
                r.push(piece);
                assert(name_views(r@) =~= before.push(name@));
            },
        }
        i += 1;
    }
    r
}

/// The directory that an absolute path leads to.
pub fn absolute(p: &[u8]) -> (r: Vec<Vec<u8>>)
    requires
        rooted(p@),
    ensures
        name_views(r@) == absolute_names(p@),
{
    let path = parts_of(p);
    let base: Vec<Vec<u8>> = Vec::new();
    assert(name_views(base@) =~= Seq::<Seq<u8>>::empty());
    assert(part_views(path@).take(path@.len() as int) =~= part_views(path@));
    locate(&base, &path, path.len())
}

/// Appends bytes.
pub(crate) fn push_bytes(out: &mut Vec<u8>, bytes: &[u8])
    ensures
        final(out)@ == old(out)@ + bytes@,
{
    let mut i: usize = 0;
    assert(out@ =~= old(out)@ + bytes@.take(0));
    while i < bytes.len()
        invariant
            i <= bytes@.len(),
            out@ == old(out)@ + bytes@.take(i as int),
        decreases bytes.len() - i,
    {
        out.push(bytes[i]);
        assert(out@ =~= old(out)@ + bytes@.take(i + 1));
        i += 1;
    }
    assert(bytes@.take(bytes@.len() as int) =~= bytes@);
}

/// The text of the absolute path to a directory.
pub fn render(names: &Vec<Vec<u8>>) -> (r: Vec<u8>)
    ensures
        r@ == rendered(name_views(names@)),
{
    let mut r: Vec<u8> = Vec::new();
    if names.len() == 0 {
        r.push(SLASH);
        assert(r@ =~= seq![SLASH]);
        return r;
    }
    let ghost all = name_views(names@);
    let mut i: usize = 0;
    while i < names.len()
        invariant
            i <= names@.len(),
            all == name_views(names@),
            r@ == with_slashes(all.take(i as int)),
        decreases names.len() - i,
    {
        r.push(SLASH);
        push_bytes(&mut r, names[i].as_slice());
        proof {
            let next = all.take(i + 1);
            assert(next.drop_last() =~= all.take(i as int));
            assert(next.last() == names@[i as int]@);
        }
        i += 1;
    }
    assert(all.take(names@.len() as int) =~= all);
    r
}

/// The path to the relative path `name` in the directory `base`.
pub open spec fn path_joined(base: Seq<u8>, name: Seq<u8>) -> Seq<u8> {
    if base.len() == 0 || base.last() == SLASH {
        base + name
    } else {
        base.push(SLASH) + name
    }
}

/// The path to `name` in the directory `base`.
pub(crate) fn join_path(base: &[u8], name: &str) -> (r: Vec<u8>)
    ensures
        r@ == path_joined(base@, vstd::utf8::encode_utf8(name@)),
{
    let mut r = bytes_in(base, 0, base.len());
    assert(r@ =~= base@);
    if base.len() > 0 && base[base.len() - 1] != SLASH {
        r.push(SLASH);
    }
    push_bytes(&mut r, name.as_bytes());
    r
}

/// The parts of a path with a trailing slash are those without it.
proof fn lemma_trailing_slash(p: Seq<u8>)
    requires
        p.len() > 0,
    ensures
        parts(p.push(SLASH)) == parts(p),
{
    let long = p.push(SLASH);
    let none = Seq::<u8>::empty();
    assert(body_parts(none) =~= Seq::<Part>::empty());
    if rooted(p) || dotted(p) {
        lemma_body_parts_joined(p.skip(1), none);
        assert(long.skip(1) =~= p.skip(1).push(SLASH) + none);
        assert(body_parts(p.skip(1)) + Seq::<Part>::empty() =~= body_parts(p.skip(1)));
    } else {
        lemma_body_parts_joined(p, none);
        assert(long =~= p.push(SLASH) + none);
        assert(body_parts(p) + Seq::<Part>::empty() =~= body_parts(p));
    }
}

/// The parts of the path to a piece in a directory are those of the directory,
/// and that of the piece where it stands for one.
proof fn lemma_joined_piece(dir: Seq<u8>, piece: Seq<u8>)
    requires
        dir.len() > 0,
        span(piece, SLASH) == piece.len(),
    ensures
        parts(path_joined(dir, piece)) == parts(dir) + parts_of_piece(piece),
{
    let stem = if dir.last() == SLASH {
        dir.drop_last()
    } else {
        dir
    };
    let whole = path_joined(dir, piece);
    assert(whole =~= stem.push(SLASH) + piece);
    assert(body_parts(piece) == parts_of_piece(piece));
    if stem.len() == 0 {
        assert(dir =~= seq![SLASH]);
        assert(whole.skip(1) =~= piece);
        assert(dir.skip(1) =~= Seq::<u8>::empty());
        assert(body_parts(dir.skip(1)) =~= Seq::<Part>::empty());
        assert(parts(whole) =~= parts(dir) + parts_of_piece(piece));
    } else {
        if dir.last() == SLASH {
            assert(dir =~= stem.push(SLASH));
            lemma_trailing_slash(stem);
        }
        assert(whole[0] == stem[0]);
        if stem.len() > 1 {
            assert(whole[1] == stem[1]);
        }
        if rooted(stem) || dotted(stem) {
            lemma_body_parts_joined(stem.skip(1), piece);
            assert(whole.skip(1) =~= stem.skip(1).push(SLASH) + piece);
        } else {
            lemma_body_parts_joined(stem, piece);
        }
        assert(parts(whole) =~= parts(stem) + parts_of_piece(piece));
    }
}

/// The parts of the path to a file are those of its directory, and its name.
pub proof fn joined_path_has_the_name_last(dir: Seq<u8>, name: Seq<u8>)
    requires
        dir.len() > 0,
        is_name(name),
    ensures
        parts(path_joined(dir, name)) == parts(dir).push(Part::Name(name)),
{
    lemma_joined_piece(dir, name);
    assert(parts(dir) + seq![Part::Name(name)] =~= parts(dir).push(Part::Name(name)));
}

/// A further `.`, or a name and `..` behind it, leads to the same place.
pub proof fn detours_lead_to_the_same_place(base: Seq<Seq<u8>>, p: Seq<u8>, name: Seq<u8>)
    requires
        p.len() > 0,
        is_name(name),
    ensures
        located(base, parts(path_joined(p, seq![DOT]))) == located(base, parts(p)),
        located(base, parts(path_joined(p, name.push(SLASH) + seq![DOT, DOT]))) == located(base, parts(p)),
{
    let dot = seq![DOT];
    let up = seq![DOT, DOT];
    lemma_span_is(dot, SLASH, 1);
    lemma_span_is(up, SLASH, 2);
    lemma_joined_piece(p, dot);
    assert(parts(p) + Seq::<Part>::empty() =~= parts(p));

    let inner = path_joined(p, name);
    joined_path_has_the_name_last(p, name);
    lemma_span(name, SLASH);
    assert(inner.last() == name.last());
    assert(name[name.len() - 1] != SLASH);
    lemma_joined_piece(inner, up);
    assert(up.len() == 2 && dot.len() == 1);
    assert(part_of(up) == Some(Part::Parent));
    assert(path_joined(p, name.push(SLASH) + up) =~= path_joined(inner, up));
    let down = parts(p).push(Part::Name(name));
    let back = down + seq![Part::Parent];
    assert(back.drop_last() =~= down);
    assert(back.last() == Part::Parent);
    assert(down.drop_last() =~= parts(p));
    assert(located(base, down) == located(base, parts(p)).push(name));
    assert(located(base, parts(p)).push(name).drop_last() =~= located(base, parts(p)));
}

/// An absolute path with its dots taken out is absolute, holds names alone, and
/// stays as it is when it is taken for such a path again.
pub proof fn absolute_path_is_settled(p: Seq<u8>)
    ensures
        rooted(rendered(absolute_names(p))),
        all_names(absolute_names(p)),
        parts(rendered(absolute_names(p))) == seq![Part::Root] + as_parts(absolute_names(p)),
        absolute_names(rendered(absolute_names(p))) == absolute_names(p),
{
    located_names_are_names(Seq::empty(), p);
    rendered_path_leads_back(Seq::empty(), absolute_names(p));
    lemma_rendered_parts(absolute_names(p));
}

/// A slash parts a path, and nothing else does: of what stands behind it
/// nothing and `.` add no part, `..` leads up, and anything else is a name.
pub proof fn slashes_part_a_path(p: Seq<u8>, piece: Seq<u8>)
    requires
        p.len() > 0,
        forall|i: int| 0 <= i < piece.len() ==> #[trigger] piece[i] != 0x2f,
    ensures
        parts(p.push(0x2f) + piece) == parts(p) + (if piece.len() == 0 || piece == seq![0x2eu8] {
            Seq::empty()
        } else if piece == seq![0x2eu8, 0x2eu8] {
            seq![Part::Parent]
        } else {
            seq![Part::Name(piece)]
        }),
        parts(seq![0x2fu8] + piece) == seq![Part::Root] + (if piece.len() == 0 || piece == seq![0x2eu8] {
            Seq::empty()
        } else if piece == seq![0x2eu8, 0x2eu8] {
            seq![Part::Parent]
        } else {
            seq![Part::Name(piece)]
        }),
        parts(piece) == if piece.len() == 0 {
            Seq::<Part>::empty()
        } else if piece == seq![0x2eu8] {
            seq![Part::Cur]
        } else if piece == seq![0x2eu8, 0x2eu8] {
            seq![Part::Parent]
        } else {
            seq![Part::Name(piece)]
        },
{
    lemma_span_is(piece, SLASH, piece.len());
    assert(body_parts(piece) == parts_of_piece(piece));
    let whole = p.push(SLASH) + piece;
    assert(whole[0] == p[0]);
    if p.len() > 1 {
        assert(whole[1] == p[1]);
    } else {
        assert(whole[1] == SLASH);
    }
    if rooted(p) || dotted(p) {
        lemma_body_parts_joined(p.skip(1), piece);
        assert(whole.skip(1) =~= p.skip(1).push(SLASH) + piece);
    } else {
        lemma_body_parts_joined(p, piece);
    }
    assert(parts(whole) =~= parts(p) + parts_of_piece(piece));
    assert((seq![SLASH] + piece).skip(1) =~= piece);
    if dotted(piece) {
        assert(piece.len() == 1);
        assert(piece =~= seq![DOT]);
        lemma_span_is(piece.skip(1), SLASH, 0);
        assert(parts(piece) =~= seq![Part::Cur]);
    }
}

/// Whether the first piece of `p` and the last one stand for parts that are no
/// root and no leading `.`.
pub open spec fn clean_ends(p: Seq<u8>) -> bool {
    p.len() > 0 ==> {
        &&& p[0] != 0x2f
        &&& !(p[0] == 0x2e && (p.len() == 1 || p[1] == 0x2f))
        &&& p[p.len() - 1] != 0x2f
        &&& !(p[p.len() - 1] == 0x2e && p.len() >= 2 && p[p.len() - 2] == 0x2f)
    }
}

/// What stands behind a directory in a path is what is left when the directory
/// is taken off, with its slash or without.
pub proof fn stripping_gives_back_what_stands_behind(dir: Seq<u8>, rest: Seq<u8>)
    requires
        dir.len() > 0,
        clean_ends(rest),
    ensures
        stripped(dir.push(0x2f) + rest, dir) == Some(rest),
        stripped(dir.push(0x2f) + rest, dir.push(0x2f)) == Some(rest),
{
    let whole = dir.push(SLASH) + rest;
    lemma_trailing_slash(dir);
    lemma_has_parts(dir);
    lemma_clean_ends(rest);
    let k = parts(dir).len();
    assert(whole[0] == dir[0]);
    if dir.len() > 1 {
        assert(whole[1] == dir[1]);
    } else {
        assert(whole[1] == SLASH);
    }
    if rooted(dir) || dotted(dir) {
        let inner = dir.skip(1);
        assert(whole.skip(1) =~= inner.push(SLASH) + rest);
        lemma_body_parts_joined(inner, rest);
        lemma_after_joined(inner, rest);
        assert(parts(whole) =~= parts(dir) + body_parts(rest));
    } else {
        lemma_body_parts_joined(dir, rest);
        lemma_after_joined(dir, rest);
        assert(parts(whole) =~= parts(dir) + body_parts(rest));
    }
    assert(parts(whole).take(k as int) =~= parts(dir));
}

proof fn lemma_clean_ends(rest: Seq<u8>)
    requires
        clean_ends(rest),
    ensures
        left_trimmed(rest) == rest,
        right_trimmed(rest) == rest,
{
    let n = span(rest, SLASH) as int;
    lemma_span(rest, SLASH);
    lemma_tail_len(rest);
    if rest.len() == 0 {
        assert(rest =~= Seq::empty());
    } else {
        let piece = if n >= rest.len() {
            rest
        } else {
            rest.take(n)
        };
        assert(piece.len() > 0 && piece[0] == rest[0]);
        if piece == seq![DOT] {
            assert(rest[0] == DOT);
            assert(rest.len() == 1 || rest[1] == SLASH);
        }
        assert(part_of(piece) is Some);
        let m = rest.len() - tail_len(rest);
        let tail = rest.skip(m);
        assert(tail_len(rest) > 0);
        assert(tail.len() > 0 && tail.last() == rest.last());
        if tail == seq![DOT] {
            assert(tail.last() == DOT);
            assert(m == rest.len() - 1);
        }
        assert(part_of(tail) is Some);
        if m <= 0 {
            assert(tail =~= rest);
        }
    }
}

/// Behind the parts of `a` stands what begins with the parts of `b`.
proof fn lemma_after_joined(a: Seq<u8>, b: Seq<u8>)
    ensures
        left_trimmed(after_parts(a.push(SLASH) + b, body_parts(a).len())) == left_trimmed(b),
    decreases a.len(),
{
    let whole = a.push(SLASH) + b;
    let n = span(a, SLASH) as int;
    lemma_span(a, SLASH);
    assert forall|i: int| 0 <= i < n implies whole[i] != SLASH by {
        assert(whole[i] == a[i]);
    }
    assert(whole[n] == SLASH);
    lemma_span_is(whole, SLASH, n as nat);
    assert(whole.take(n) =~= a.take(n));
    if n >= a.len() {
        assert(a.take(n) =~= a);
        assert(whole.skip(n + 1) =~= b);
        assert(after_parts(b, 0) == b);
    } else {
        let rest = a.skip(n + 1);
        assert(whole.skip(n + 1) =~= rest.push(SLASH) + b);
        lemma_after_joined(rest, b);
        let k = body_parts(rest).len();
        if part_of(a.take(n)) is Some {
            assert(body_parts(a).len() == k + 1);
        } else {
            assert(body_parts(a).len() == k);
            if k == 0 {
                assert(after_parts(rest.push(SLASH) + b, 0) == rest.push(SLASH) + b);
                assert(after_parts(whole, 0) == whole);
            }
        }
    }
}

/// A leading `./` is taken off, and a path without one stays as it is.
pub proof fn normalizing_takes_off_the_dot_alone(p: Seq<u8>)
    ensures
        !(p.len() > 0 && p[0] == 0x2e && (p.len() == 1 || p[1] == 0x2f)) ==> normalized(p) == p,
        clean_ends(p) ==> normalized(seq![0x2eu8, 0x2fu8] + p) == p,
{
    if clean_ends(p) {
        let dot = seq![DOT];
        assert(seq![DOT, SLASH] + p =~= dot.push(SLASH) + p);
        stripping_gives_back_what_stands_behind(dot, p);
        assert(dot.skip(1) =~= Seq::<u8>::empty());
        assert(body_parts(Seq::<u8>::empty()) =~= Seq::<Part>::empty());
        assert(parts(dot) =~= seq![Part::Cur]);
    }
}

/// Paths go by their parts: an absolute path comes first, then one that begins
/// with `.`, then one that leads up, then names by their bytes.
pub proof fn paths_go_by_their_parts(a: Seq<u8>, b: Seq<u8>, x: Seq<u8>, y: Seq<u8>)
    ensures
        path_before(a, b) == lex_before(parts(a), parts(b), part_lt()),
        same_parts(a, b) <==> parts(a) == parts(b),
        part_lt()(Part::Root, Part::Cur),
        part_lt()(Part::Cur, Part::Parent),
        part_lt()(Part::Parent, Part::Name(x)),
        part_lt()(Part::Name(x), Part::Name(y)) == bytes_before(x, y),
{
}

/// Each part leads one step on: a name one directory down, `..` one up, `.`
/// nowhere, and the root to the root.
pub proof fn each_part_leads_one_step_on(base: Seq<Seq<u8>>, path: Seq<Part>, name: Seq<u8>, dir: Seq<u8>)
    ensures
        located(base, Seq::empty()) == base,
        located(base, path.push(Part::Name(name))) == located(base, path).push(name),
        located(base, path.push(Part::Cur)) == located(base, path),
        located(base, path.push(Part::Root)) == Seq::<Seq<u8>>::empty(),
        located(base, path).len() > 0 ==> located(base, path.push(Part::Parent)) == located(base, path).drop_last(),
        located(base, path).len() == 0 ==> located(base, path.push(Part::Parent)) == located(base, path),
        absolute_names(dir) == located(Seq::empty(), parts(dir)),
{
    assert(path.push(Part::Name(name)).drop_last() =~= path);
    assert(path.push(Part::Cur).drop_last() =~= path);
    assert(path.push(Part::Root).drop_last() =~= path);
    assert(path.push(Part::Parent).drop_last() =~= path);
}

/// Names are all pieces but the empty one, `.`, `..` and those with a slash.
pub proof fn all_other_pieces_are_names(piece: Seq<u8>)
    ensures
        is_name(piece) <==> {
            &&& piece.len() > 0
            &&& piece != seq![0x2eu8]
            &&& piece != seq![0x2eu8, 0x2eu8]
            &&& forall|i: int| 0 <= i < piece.len() ==> #[trigger] piece[i] != 0x2f
        },
{
    lemma_span(piece, SLASH);
    if forall|i: int| 0 <= i < piece.len() ==> #[trigger] piece[i] != 0x2f {
        lemma_span_is(piece, SLASH, piece.len());
    }
}

/// The way to a directory is written with a slash before each name, and the
/// root as a slash.
pub proof fn way_is_written_with_slashes(names: Seq<Seq<u8>>, name: Seq<u8>)
    ensures
        rendered(Seq::empty()) == seq![0x2fu8],
        rendered(seq![name]) == seq![0x2fu8] + name,
        names.len() > 0 ==> rendered(names.push(name)) == rendered(names).push(0x2f) + name,
{
    assert(names.push(name).drop_last() =~= names);
    assert(seq![name].drop_last() =~= Seq::<Seq<u8>>::empty());
    assert(with_slashes(Seq::empty()) =~= Seq::<u8>::empty());
    assert(seq![name].last() == name);
    assert(rendered(seq![name]) =~= seq![SLASH] + name);
}

/// One slash stands between a directory and what is in it, and none where there
/// is no directory.
pub proof fn one_slash_joins(base: Seq<u8>, name: Seq<u8>)
    ensures
        base.len() > 0 && base[base.len() - 1] != 0x2f ==> path_joined(base, name) == base.push(0x2f) + name,
        base.len() > 0 && base[base.len() - 1] == 0x2f ==> path_joined(base, name) == base + name,
        base.len() == 0 ==> path_joined(base, name) == name,
{
    if base.len() == 0 {
        assert(base + name =~= name);
    }
}

/// Names and parts are seen by what they hold.
pub proof fn views_are_the_names(names: Seq<Vec<u8>>, ps: Seq<PathPart>)
    ensures
        name_views(names).len() == names.len(),
        forall|i: int| 0 <= i < names.len() ==> #[trigger] name_views(names)[i] == names[i]@,
        part_views(ps).len() == ps.len(),
        forall|i: int| 0 <= i < ps.len() && ps[i] is Name ==> #[trigger] part_views(ps)[i] == Part::Name(ps[i]->0@),
        forall|i: int| 0 <= i < ps.len() && ps[i] is Root ==> #[trigger] part_views(ps)[i] == Part::Root,
        forall|i: int| 0 <= i < ps.len() && ps[i] is Cur ==> #[trigger] part_views(ps)[i] == Part::Cur,
        forall|i: int| 0 <= i < ps.len() && ps[i] is Parent ==> #[trigger] part_views(ps)[i] == Part::Parent,
{
}

} // verus!
