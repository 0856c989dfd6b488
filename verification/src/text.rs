//! Comparing texts: equality, and the byte-wise order that Rust's `String`
//! ordering uses.

use vstd::prelude::*;
use vstd::utf8::encode_utf8;

verus! {

/// Byte-wise lexicographic order: `a` is a proper prefix of `b`, or at the
/// first difference `a` has the smaller byte.
pub open spec fn bytes_lt(a: Seq<u8>, b: Seq<u8>) -> bool
    decreases a.len(),
{
    if a.len() == 0 {
        b.len() > 0
    } else if b.len() == 0 {
        false
    } else if a[0] != b[0] {
        a[0] < b[0]
    } else {
        bytes_lt(a.drop_first(), b.drop_first())
    }
}

/// Text order: the byte-wise order of the UTF-8 encodings, as `String`'s
/// `Ord` compares.
pub open spec fn text_lt(a: Seq<char>, b: Seq<char>) -> bool {
    bytes_lt(encode_utf8(a), encode_utf8(b))
}

/// No byte string is below itself.
pub proof fn lemma_bytes_lt_irreflexive(a: Seq<u8>)
    ensures
        !bytes_lt(a, a),
    decreases a.len(),
{
    if a.len() > 0 {
        lemma_bytes_lt_irreflexive(a.drop_first());
    }
}

/// Byte-string order is transitive.
pub proof fn lemma_bytes_lt_transitive(a: Seq<u8>, b: Seq<u8>, c: Seq<u8>)
    requires
        bytes_lt(a, b),
        bytes_lt(b, c),
    ensures
        bytes_lt(a, c),
    decreases a.len(),
{
    if a.len() > 0 && b.len() > 0 && c.len() > 0 && a[0] == b[0] && b[0] == c[0] {
        lemma_bytes_lt_transitive(a.drop_first(), b.drop_first(), c.drop_first());
    }
}

/// Of two different byte strings, one is below the other.
pub proof fn lemma_bytes_lt_total(a: Seq<u8>, b: Seq<u8>)
    ensures
        a == b || bytes_lt(a, b) || bytes_lt(b, a),
    decreases a.len(),
{
    if a.len() > 0 && b.len() > 0 && a[0] == b[0] {
        lemma_bytes_lt_total(a.drop_first(), b.drop_first());
        if a.drop_first() == b.drop_first() {
            assert(a =~= seq![a[0]] + a.drop_first());
            assert(b =~= seq![b[0]] + b.drop_first());
        }
    } else if a.len() == 0 && b.len() == 0 {
        assert(a =~= b);
    }
}

/// Two byte strings are never each below the other.
pub proof fn lemma_bytes_lt_asymmetric(a: Seq<u8>, b: Seq<u8>)
    requires
        bytes_lt(a, b),
    ensures
        !bytes_lt(b, a),
{
    if bytes_lt(b, a) {
        lemma_bytes_lt_transitive(a, b, a);
        lemma_bytes_lt_irreflexive(a);
    }
}

/// Texts are ordered by `text_lt` strictly and totally.
pub proof fn lemma_text_order(a: Seq<char>, b: Seq<char>, c: Seq<char>)
    ensures
        !text_lt(a, a),
        text_lt(a, b) ==> !text_lt(b, a),
        text_lt(a, b) && text_lt(b, c) ==> text_lt(a, c),
        a == b || text_lt(a, b) || text_lt(b, a),
{
    lemma_bytes_lt_irreflexive(encode_utf8(a));
    if text_lt(a, b) {
        lemma_bytes_lt_asymmetric(encode_utf8(a), encode_utf8(b));
    }
    if text_lt(a, b) && text_lt(b, c) {
        lemma_bytes_lt_transitive(encode_utf8(a), encode_utf8(b), encode_utf8(c));
    }
    lemma_bytes_lt_total(encode_utf8(a), encode_utf8(b));
    if encode_utf8(a) == encode_utf8(b) {
        vstd::utf8::encode_utf8_decode_utf8(a);
        vstd::utf8::encode_utf8_decode_utf8(b);
    }
}

/// The ordering of two texts: less, equal or greater.
pub enum TextOrder {
    Less,
    Equal,
    Greater,
}

/// Compares two texts as `String`'s ordering does.
pub fn compare_text(a: &str, b: &str) -> (res: TextOrder)
    ensures
        match res {
            TextOrder::Less => text_lt(a@, b@),
            TextOrder::Equal => a@ == b@,
            TextOrder::Greater => text_lt(b@, a@),
        },
{
    let x = a.as_bytes();
    let y = b.as_bytes();
    let ghost xs = x@;
    let ghost ys = y@;
    let mut i: usize = 0;
    assert(xs.subrange(0, xs.len() as int) =~= xs);
    assert(ys.subrange(0, ys.len() as int) =~= ys);
    assert(xs.subrange(0, 0) =~= ys.subrange(0, 0));
    while i < x.len() && i < y.len() && x[i] == y[i]
        invariant
            i <= x@.len(),
            i <= y@.len(),
            x@ == encode_utf8(a@),
            y@ == encode_utf8(b@),
            xs == x@,
            ys == y@,
            xs.subrange(0, i as int) == ys.subrange(0, i as int),
            bytes_lt(xs, ys) == bytes_lt(xs.subrange(i as int, xs.len() as int), ys.subrange(
                i as int,
                ys.len() as int,
            )),
            bytes_lt(ys, xs) == bytes_lt(ys.subrange(i as int, ys.len() as int), xs.subrange(
                i as int,
                xs.len() as int,
            )),
        decreases x@.len() - i,
    {
        let ghost xr = xs.subrange(i as int, xs.len() as int);
        let ghost yr = ys.subrange(i as int, ys.len() as int);
        assert(xr.drop_first() =~= xs.subrange(i + 1, xs.len() as int));
        assert(yr.drop_first() =~= ys.subrange(i + 1, ys.len() as int));
        assert(xs.subrange(0, i + 1) =~= xs.subrange(0, i as int).push(xs[i as int]));
        assert(ys.subrange(0, i + 1) =~= ys.subrange(0, i as int).push(ys[i as int]));
        i += 1;
    }
    let ghost xr = xs.subrange(i as int, xs.len() as int);
    let ghost yr = ys.subrange(i as int, ys.len() as int);
    if i == x.len() && i == y.len() {
        assert(xs =~= xs.subrange(0, i as int));
        assert(ys =~= ys.subrange(0, i as int));
        proof {
            vstd::utf8::encode_utf8_decode_utf8(a@);
            vstd::utf8::encode_utf8_decode_utf8(b@);
        }
        TextOrder::Equal
    } else if i == x.len() {
        assert(xr.len() == 0 && yr.len() > 0);
        TextOrder::Less
    } else if i == y.len() {
        assert(yr.len() == 0 && xr.len() > 0);
        TextOrder::Greater
    } else if x[i] < y[i] {
        assert(xr[0] == xs[i as int] && yr[0] == ys[i as int]);
        TextOrder::Less
    } else {
        assert(xr[0] == xs[i as int] && yr[0] == ys[i as int]);
        TextOrder::Greater
    }
}

/// Whether two texts are the same.
pub fn same_text(a: &str, b: &str) -> (res: bool)
    ensures
        res == (a@ == b@),
{
    proof {
        lemma_text_order(a@, b@, b@);
    }
    match compare_text(a, b) {
        TextOrder::Equal => true,
        _ => false,
    }
}

} // verus!
