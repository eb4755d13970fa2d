//! The order of string keys: byte-wise lexicographic order of their UTF-8
//! encodings (the order of Rust's `str`).
use vstd::prelude::*;
use vstd::utf8::encode_utf8;

verus! {

/// `a` comes before `b` byte-wise lexicographically.
pub open spec fn bytes_lt(a: Seq<u8>, b: Seq<u8>) -> bool
    decreases a.len(),
{
    if a.len() == 0 {
        b.len() > 0
    } else if b.len() == 0 {
        false
    } else if a[0] != b[0] {
        a[0] < b[0]
    } else {
        bytes_lt(a.drop_first(), b.drop_first())
    }
}

/// Key `a` comes before key `b`.
pub open spec fn key_lt(a: Seq<char>, b: Seq<char>) -> bool {
    bytes_lt(encode_utf8(a), encode_utf8(b))
}

/// No byte string comes before itself.
pub proof fn lemma_bytes_lt_irreflexive(a: Seq<u8>)
    ensures
        !bytes_lt(a, a),
    decreases a.len(),
{
    if a.len() > 0 {
        lemma_bytes_lt_irreflexive(a.drop_first());
    }
}

/// The byte order is transitive.
pub proof fn lemma_bytes_lt_transitive(a: Seq<u8>, b: Seq<u8>, c: Seq<u8>)
    requires
        bytes_lt(a, b),
        bytes_lt(b, c),
    ensures
        bytes_lt(a, c),
    decreases a.len(),
{
    if a.len() > 0 && b.len() > 0 && c.len() > 0 && a[0] == b[0] && b[0] == c[0] {
        lemma_bytes_lt_transitive(a.drop_first(), b.drop_first(), c.drop_first());
    }
}

/// Two different byte strings are ordered one way or the other.
pub proof fn lemma_bytes_lt_total(a: Seq<u8>, b: Seq<u8>)
    requires
        a != b,
    ensures
        bytes_lt(a, b) || bytes_lt(b, a),
    decreases a.len(),
{
    if a.len() > 0 && b.len() > 0 && a[0] == b[0] {
        if a.drop_first() == b.drop_first() {
            assert(a =~= seq![a[0]] + a.drop_first());
            assert(b =~= seq![b[0]] + b.drop_first());
        }
        lemma_bytes_lt_total(a.drop_first(), b.drop_first());
    } else if a.len() == 0 && b.len() == 0 {
        assert(a =~= b);
    }
}

/// The key order is a strict total order.
pub proof fn lemma_key_order()
    ensures
        forall|a: Seq<char>| !#[trigger] key_lt(a, a),
        forall|a: Seq<char>, b: Seq<char>, c: Seq<char>|
            #[trigger] key_lt(a, b) && #[trigger] key_lt(b, c) ==> key_lt(a, c),
        forall|a: Seq<char>, b: Seq<char>|
            a != b ==> #[trigger] key_lt(a, b) || #[trigger] key_lt(b, a),
{
    assert forall|a: Seq<char>| !#[trigger] key_lt(a, a) by {
        lemma_bytes_lt_irreflexive(encode_utf8(a));
    }
    assert forall|a: Seq<char>, b: Seq<char>, c: Seq<char>|
        #[trigger] key_lt(a, b) && #[trigger] key_lt(b, c) implies key_lt(a, c) by {
        lemma_bytes_lt_transitive(encode_utf8(a), encode_utf8(b), encode_utf8(c));
    }
    assert forall|a: Seq<char>, b: Seq<char>| a != b implies #[trigger] key_lt(a, b)
        || #[trigger] key_lt(b, a) by {
        vstd::utf8::encode_utf8_decode_utf8(a);
        vstd::utf8::encode_utf8_decode_utf8(b);
        lemma_bytes_lt_total(encode_utf8(a), encode_utf8(b));
    }
}

/// How two keys compare.
#[derive(Debug, Clone, Copy, PartialEq, Eq, Structural)]
pub enum KeyOrder {
    Before,
    Same,
    After,
}

/// Compares two keys in the key order.
pub fn compare_keys(a: &str, b: &str) -> (r: KeyOrder)
    ensures
        (r == KeyOrder::Before) == key_lt(a@, b@),
        (r == KeyOrder::Same) == (a@ == b@),
        (r == KeyOrder::After) == key_lt(b@, a@),
{
    proof {
        vstd::utf8::encode_utf8_decode_utf8(a@);
        vstd::utf8::encode_utf8_decode_utf8(b@);
    }
    let x = a.as_bytes();
    let y = b.as_bytes();
    let ghost xs = x@;
    let ghost ys = y@;
    assert(xs == encode_utf8(a@));
    assert(ys == encode_utf8(b@));
    assert(xs.subrange(0, xs.len() as int) =~= xs);
    assert(ys.subrange(0, ys.len() as int) =~= ys);
    let mut i: usize = 0;
    while i < x.len() && i < y.len()
        invariant
            xs == x@,
            ys == y@,
            xs == encode_utf8(a@),
            ys == encode_utf8(b@),
            (a@ == b@) == (xs == ys),
            i <= xs.len(),
            i <= ys.len(),
            bytes_lt(xs, ys) == bytes_lt(xs.subrange(i as int, xs.len() as int), ys.subrange(i as int, ys.len() as int)),
            bytes_lt(ys, xs) == bytes_lt(ys.subrange(i as int, ys.len() as int), xs.subrange(i as int, xs.len() as int)),
            (xs == ys) == (xs.subrange(i as int, xs.len() as int) == ys.subrange(i as int, ys.len() as int)),
        decreases xs.len() - i,
    {
        let ghost xr = xs.subrange(i as int, xs.len() as int);
        let ghost yr = ys.subrange(i as int, ys.len() as int);
        if x[i] < y[i] {
            assert(xr[0] == x@[i as int] && yr[0] == y@[i as int]);
            assert(xr != yr);
            return KeyOrder::Before;
        }
        if x[i] > y[i] {
            assert(xr[0] == x@[i as int] && yr[0] == y@[i as int]);
            assert(xr != yr);
            return KeyOrder::After;
        }
        proof {
            assert(xr.drop_first() =~= xs.subrange(i + 1, xs.len() as int));
            assert(yr.drop_first() =~= ys.subrange(i + 1, ys.len() as int));
            assert(xr =~= seq![xr[0]] + xr.drop_first());
            assert(yr =~= seq![yr[0]] + yr.drop_first());
        }
        i = i + 1;
    }
    let ghost xr = xs.subrange(i as int, xs.len() as int);
    let ghost yr = ys.subrange(i as int, ys.len() as int);
    if x.len() < y.len() {
        assert(xr.len() == 0 && yr.len() > 0);
        KeyOrder::Before
    } else if x.len() > y.len() {
        assert(yr.len() == 0 && xr.len() > 0);
        KeyOrder::After
    } else {
        assert(xr =~= yr);
        KeyOrder::Same
    }
}

} // verus!
