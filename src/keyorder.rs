//! The fixed order on names that breaks ties between equal counts.
//!
//! Names are compared byte by byte on their UTF-8 encoding, which is the same
//! as comparing them character by character on code points.
use vstd::prelude::*;
use vstd::utf8::{encode_utf8, encode_utf8_decode_utf8};

verus! {

/// Strict lexicographic order on byte strings: a proper prefix comes first.
pub open spec fn bytes_before(x: Seq<u8>, y: Seq<u8>) -> bool
    decreases x.len(),
{
    if y.len() == 0 {
        false
    } else if x.len() == 0 {
        true
    } else if x[0] != y[0] {
        x[0] < y[0]
    } else {
        bytes_before(x.skip(1), y.skip(1))
    }
}

/// `a` comes strictly before `b` in the tie-break order on names.
pub open spec fn key_before(a: Seq<char>, b: Seq<char>) -> bool {
    bytes_before(encode_utf8(a), encode_utf8(b))
}

pub proof fn lemma_bytes_before_irreflexive(x: Seq<u8>)
    ensures
        !bytes_before(x, x),
    decreases x.len(),
{
    if x.len() > 0 {
        lemma_bytes_before_irreflexive(x.skip(1));
    }
}

pub proof fn lemma_bytes_before_transitive(x: Seq<u8>, y: Seq<u8>, z: Seq<u8>)
    requires
        bytes_before(x, y),
        bytes_before(y, z),
    ensures
        bytes_before(x, z),
    decreases x.len(),
{
    if x.len() > 0 && x[0] == y[0] && y[0] == z[0] {
        lemma_bytes_before_transitive(x.skip(1), y.skip(1), z.skip(1));
    }
}

pub proof fn lemma_bytes_before_total(x: Seq<u8>, y: Seq<u8>)
    requires
        x != y,
    ensures
        bytes_before(x, y) || bytes_before(y, x),
    decreases x.len(),
{
    if x.len() > 0 && y.len() > 0 && x[0] == y[0] {
        if x.skip(1) == y.skip(1) {
            assert(x =~= seq![x[0]] + x.skip(1));
            assert(y =~= seq![y[0]] + y.skip(1));
        }
        lemma_bytes_before_total(x.skip(1), y.skip(1));
    } else if x.len() == 0 && y.len() == 0 {
        assert(x =~= y);
    }
}

pub proof fn lemma_bytes_before_asymmetric(x: Seq<u8>, y: Seq<u8>)
    requires
        bytes_before(x, y),
    ensures
        !bytes_before(y, x),
{
    if bytes_before(y, x) {
        lemma_bytes_before_transitive(x, y, x);
        lemma_bytes_before_irreflexive(x);
    }
}

/// The tie-break order on names is a strict total order.
pub proof fn lemma_key_order(a: Seq<char>, b: Seq<char>, c: Seq<char>)
    ensures
        !key_before(a, a),
        key_before(a, b) ==> !key_before(b, a),
        key_before(a, b) && key_before(b, c) ==> key_before(a, c),
        a != b ==> key_before(a, b) || key_before(b, a),
{
    lemma_bytes_before_irreflexive(encode_utf8(a));
    if key_before(a, b) {
        lemma_bytes_before_asymmetric(encode_utf8(a), encode_utf8(b));
        if key_before(b, c) {
            lemma_bytes_before_transitive(encode_utf8(a), encode_utf8(b), encode_utf8(c));
        }
    }
    if a != b {
        encode_utf8_decode_utf8(a);
        encode_utf8_decode_utf8(b);
        lemma_bytes_before_total(encode_utf8(a), encode_utf8(b));
    }
}

/// Three-way comparison of byte strings: negative, zero or positive.
fn compare_bytes(x: &[u8], y: &[u8]) -> (r: i8)
    ensures
        r < 0 <==> bytes_before(x@, y@),
        r == 0 <==> x@ == y@,
        r > 0 <==> bytes_before(y@, x@),
{
    let mut i: usize = 0;
    assert(x@.skip(0) =~= x@);
    assert(y@.skip(0) =~= y@);
    while i < x.len() && i < y.len()
        invariant
            i <= x@.len(),
            i <= y@.len(),
            x@.subrange(0, i as int) == y@.subrange(0, i as int),
            bytes_before(x@, y@) == bytes_before(x@.skip(i as int), y@.skip(i as int)),
            bytes_before(y@, x@) == bytes_before(y@.skip(i as int), x@.skip(i as int)),
        decreases x@.len() - i,
    {
        let ghost xs = x@.skip(i as int);
        let ghost ys = y@.skip(i as int);
        assert(xs[0] == x@[i as int]);
        assert(ys[0] == y@[i as int]);
        if x[i] < y[i] {
            return -1;
        }
        if x[i] > y[i] {
            return 1;
        }
        assert(xs.skip(1) =~= x@.skip(i + 1));
        assert(ys.skip(1) =~= y@.skip(i + 1));
        assert(x@.subrange(0, i + 1) =~= x@.subrange(0, i as int).push(x@[i as int]));
        assert(y@.subrange(0, i + 1) =~= y@.subrange(0, i as int).push(y@[i as int]));
        i = i + 1;
    }
    if i < y.len() {
        assert(x@.skip(i as int).len() == 0);
        assert(x@.len() != y@.len());
        -1
    } else if i < x.len() {
        assert(y@.skip(i as int).len() == 0);
        assert(x@.len() != y@.len());
        1
    } else {
        assert(x@ =~= x@.subrange(0, i as int));
        assert(y@ =~= y@.subrange(0, i as int));
        proof {
            lemma_bytes_before_irreflexive(x@);
        }
        0
    }
}

/// Whether two names are the same.
pub fn same_key(a: &str, b: &str) -> (r: bool)
    ensures
        r == (a@ == b@),
{
    let c = compare_bytes(a.as_bytes(), b.as_bytes());
    proof {
        if encode_utf8(a@) == encode_utf8(b@) {
            encode_utf8_decode_utf8(a@);
            encode_utf8_decode_utf8(b@);
        }
    }
    c == 0
}

/// Whether `a` comes strictly before `b` in the tie-break order on names.
pub fn precedes(a: &str, b: &str) -> (r: bool)
    ensures
        r == key_before(a@, b@),
{
    compare_bytes(a.as_bytes(), b.as_bytes()) < 0
}

} // verus!
