//! Lexicographic order, as texts and paths are put into.

use vstd::prelude::*;

verus! {

/// `lt` puts any two different values into one order.
pub open spec fn strict_total<T>(lt: spec_fn(T, T) -> bool) -> bool {
    &&& forall|x: T| !#[trigger] lt(x, x)
    &&& forall|x: T, y: T| #![trigger lt(x, y)] x != y ==> lt(x, y) || lt(y, x)
    &&& forall|x: T, y: T, z: T| #![trigger lt(x, y), lt(y, z)] lt(x, y) && lt(y, z) ==> lt(x, z)
}

/// Whether `a` comes before `b` when the first difference decides, and the
/// shorter of the two where there is none.
pub open spec fn lex_before<T>(a: Seq<T>, b: Seq<T>, lt: spec_fn(T, T) -> bool) -> bool
    decreases a.len(),
{
    if b.len() == 0 {
        false
    } else if a.len() == 0 {
        true
    } else if a[0] != b[0] {
        lt(a[0], b[0])
    } else {
        lex_before(a.skip(1), b.skip(1), lt)
    }
}

/// The order of bytes by their values.
pub open spec fn byte_lt() -> spec_fn(u8, u8) -> bool {
    |x: u8, y: u8| x < y
}

/// Whether `a` comes before `b` in the order of their bytes.
pub open spec fn bytes_before(a: Seq<u8>, b: Seq<u8>) -> bool {
    lex_before(a, b, byte_lt())
}

/// Whether `a` comes before `b` in the order of their UTF-8 bytes, which is
/// the order of texts.
pub open spec fn text_before(a: Seq<char>, b: Seq<char>) -> bool {
    bytes_before(vstd::utf8::encode_utf8(a), vstd::utf8::encode_utf8(b))
}

pub proof fn lemma_lex_irreflexive<T>(a: Seq<T>, lt: spec_fn(T, T) -> bool)
    ensures
        !lex_before(a, a, lt),
    decreases a.len(),
{
    if a.len() > 0 {
        lemma_lex_irreflexive(a.skip(1), lt);
    }
}

pub proof fn lemma_lex_connected<T>(a: Seq<T>, b: Seq<T>, lt: spec_fn(T, T) -> bool)
    requires
        strict_total(lt),
        a != b,
    ensures
        lex_before(a, b, lt) || lex_before(b, a, lt),
    decreases a.len(),
{
    if a.len() > 0 && b.len() > 0 {
        if a[0] != b[0] {
            assert(lt(a[0], b[0]) || lt(b[0], a[0]));
        } else {
            if a.skip(1) == b.skip(1) {
                assert(a =~= seq![a[0]] + a.skip(1));
                assert(b =~= seq![b[0]] + b.skip(1));
            }
            lemma_lex_connected(a.skip(1), b.skip(1), lt);
        }
    } else {
        assert(a.len() == 0 && b.len() == 0 ==> a =~= b);
    }
}

pub proof fn lemma_lex_transitive<T>(a: Seq<T>, b: Seq<T>, c: Seq<T>, lt: spec_fn(T, T) -> bool)
    requires
        strict_total(lt),
        lex_before(a, b, lt),
        lex_before(b, c, lt),
    ensures
        lex_before(a, c, lt),
    decreases a.len(),
{
    if a.len() > 0 {
        if a[0] == b[0] && b[0] == c[0] {
            lemma_lex_transitive(a.skip(1), b.skip(1), c.skip(1), lt);
        } else if a[0] != b[0] && b[0] != c[0] {
            assert(lt(a[0], b[0]) && lt(b[0], c[0]));
            assert(lt(a[0], c[0]));
            if a[0] == c[0] {
                assert(!lt(a[0], a[0]));
            }
        }
    }
}

/// The order of texts: none is before itself, of two different ones exactly
/// one is before the other, and the order carries over.
pub proof fn lemma_text_order(a: Seq<char>, b: Seq<char>, c: Seq<char>)
    ensures
        !text_before(a, a),
        a != b ==> text_before(a, b) || text_before(b, a),
        !(text_before(a, b) && text_before(b, a)),
        text_before(a, b) && text_before(b, c) ==> text_before(a, c),
{
    let x = vstd::utf8::encode_utf8(a);
    let y = vstd::utf8::encode_utf8(b);
    let z = vstd::utf8::encode_utf8(c);
    vstd::utf8::encode_utf8_decode_utf8(a);
    vstd::utf8::encode_utf8_decode_utf8(b);
    lemma_lex_irreflexive(x, byte_lt());
    if a != b {
        lemma_lex_connected(x, y, byte_lt());
    }
    if text_before(a, b) && text_before(b, a) {
        lemma_lex_transitive(x, y, x, byte_lt());
    }
    if text_before(a, b) && text_before(b, c) {
        lemma_lex_transitive(x, y, z, byte_lt());
    }
}

/// Whether `a` comes before `b` in the order of their bytes.
pub fn bytes_precede(a: &[u8], b: &[u8]) -> (r: bool)
    ensures
        r == bytes_before(a@, b@),
{
    let mut i: usize = 0;
    assert(a@.skip(0) =~= a@);
    assert(b@.skip(0) =~= b@);
    while i < a.len() && i < b.len() && a[i] == b[i]
        invariant
            i <= a@.len(),
            i <= b@.len(),
            bytes_before(a@, b@) == bytes_before(a@.skip(i as int), b@.skip(i as int)),
        decreases a.len() - i,
    {
        assert(a@.skip(i as int).skip(1) =~= a@.skip(i + 1));
        assert(b@.skip(i as int).skip(1) =~= b@.skip(i + 1));
        i += 1;
    }
    if i == b.len() {
        false
    } else if i == a.len() {
        true
    } else {
        a[i] < b[i]
    }
}

/// Whether `a` comes before `b` in the order of texts.
pub fn text_precedes(a: &str, b: &str) -> (r: bool)
    ensures
        r == text_before(a@, b@),
{
    bytes_precede(a.as_bytes(), b.as_bytes())
}

/// The first difference decides, and where there is none the shorter comes
/// first.
pub proof fn first_difference_decides<T>(
    p: Seq<T>,
    x: T,
    y: T,
    a: Seq<T>,
    b: Seq<T>,
    lt: spec_fn(T, T) -> bool,
)
    requires
        x != y,
    ensures
        lex_before(p.push(x) + a, p.push(y) + b, lt) == lt(x, y),
        lex_before(p, p.push(x) + a, lt),
        !lex_before(p.push(x) + a, p, lt),
    decreases p.len(),
{
    let l = p.push(x) + a;
    let r = p.push(y) + b;
    if p.len() == 0 {
        assert(l[0] == x && r[0] == y);
    } else {
        let q = p.skip(1);
        assert(l[0] == p[0] && r[0] == p[0]);
        assert(l.skip(1) =~= q.push(x) + a);
        assert(r.skip(1) =~= q.push(y) + b);
        first_difference_decides(q, x, y, a, b, lt);
    }
}

/// Bytes are ordered by the first in which they differ, and texts as their UTF-8
/// bytes are.
pub proof fn texts_are_ordered_by_bytes(a: Seq<char>, b: Seq<char>, p: Seq<u8>, x: u8, y: u8, u: Seq<u8>, v: Seq<u8>)
    requires
        x < y,
    ensures
        bytes_before(p.push(x) + u, p.push(y) + v),
        bytes_before(p, p.push(x) + u),
        text_before(a, b) == bytes_before(vstd::utf8::encode_utf8(a), vstd::utf8::encode_utf8(b)),
{
    first_difference_decides(p, x, y, u, v, byte_lt());
}

} // verus!
