//! The order in which labels are listed: that of their bytes in UTF-8,
//! which is the order of strings.

use vstd::prelude::*;
use vstd::utf8::{decode_utf8, encode_utf8, encode_utf8_decode_utf8};

verus! {

/// Whether `a` comes before `b`, given that they agree before index `k`: at
/// the first index at which they differ `a` has the smaller byte, or `a`
/// ends first.
pub open spec fn bytes_before(a: Seq<u8>, b: Seq<u8>, k: int) -> bool
    decreases a.len() - k,
{
    if k >= b.len() {
        false
    } else if k >= a.len() {
        true
    } else if a[k] != b[k] {
        a[k] < b[k]
    } else {
        bytes_before(a, b, k + 1)
    }
}

/// Whether the label `x` comes before the label `y`.
pub open spec fn before(x: Seq<char>, y: Seq<char>) -> bool {
    bytes_before(encode_utf8(x), encode_utf8(y), 0)
}

/// Whether the labels stand in order, each before all that follow it.
pub open spec fn ordered(labels: Seq<Seq<char>>) -> bool {
    forall|i: int, j: int| 0 <= i < j < labels.len() ==> before(labels[i], labels[j])
}

/// The members of a set of labels, in order.
pub open spec fn in_order(set: Set<Seq<char>>) -> Seq<Seq<char>> {
    choose|labels: Seq<Seq<char>>| ordered(labels) && labels.to_set() == set
}

proof fn lemma_bytes_not_both(a: Seq<u8>, b: Seq<u8>, k: int)
    requires
        0 <= k,
    ensures
        !(bytes_before(a, b, k) && bytes_before(b, a, k)),
    decreases a.len() - k,
{
    if k < a.len() && k < b.len() && a[k] == b[k] {
        lemma_bytes_not_both(a, b, k + 1);
    }
}

proof fn lemma_bytes_one_of(a: Seq<u8>, b: Seq<u8>, k: int)
    requires
        0 <= k <= a.len(),
        k <= b.len(),
        forall|i: int| 0 <= i < k ==> a[i] == b[i],
    ensures
        bytes_before(a, b, k) || bytes_before(b, a, k) || a == b,
    decreases a.len() - k,
{
    if k < a.len() && k < b.len() {
        if a[k] == b[k] {
            lemma_bytes_one_of(a, b, k + 1);
        }
    } else if k == a.len() && k == b.len() {
        assert(a =~= b);
    }
}

proof fn lemma_bytes_chain(a: Seq<u8>, b: Seq<u8>, c: Seq<u8>, k: int)
    requires
        0 <= k,
        bytes_before(a, b, k),
        bytes_before(b, c, k),
    ensures
        bytes_before(a, c, k),
    decreases a.len() - k,
{
    if k < a.len() && k < b.len() && k < c.len() && a[k] == b[k] && b[k] == c[k] {
        lemma_bytes_chain(a, b, c, k + 1);
    }
}

/// No label comes before itself, and of two labels not both come before
/// the other.
pub proof fn lemma_not_both(x: Seq<char>, y: Seq<char>)
    ensures
        !(before(x, y) && before(y, x)),
        !before(x, x),
{
    lemma_bytes_not_both(encode_utf8(x), encode_utf8(y), 0);
    lemma_bytes_not_both(encode_utf8(x), encode_utf8(x), 0);
}

/// Of two different labels one comes before the other.
pub proof fn lemma_one_of(x: Seq<char>, y: Seq<char>)
    ensures
        before(x, y) || before(y, x) || x == y,
{
    lemma_bytes_one_of(encode_utf8(x), encode_utf8(y), 0);
    if encode_utf8(x) == encode_utf8(y) {
        encode_utf8_decode_utf8(x);
        encode_utf8_decode_utf8(y);
    }
}

/// What comes before a label comes before all that the label comes before.
pub proof fn lemma_chain(x: Seq<char>, y: Seq<char>, z: Seq<char>)
    requires
        before(x, y),
        before(y, z),
    ensures
        before(x, z),
{
    lemma_bytes_chain(encode_utf8(x), encode_utf8(y), encode_utf8(z), 0);
}

/// A set of labels has one order only: two lists in order that hold the
/// same labels are the same list.
pub proof fn lemma_one_order(a: Seq<Seq<char>>, b: Seq<Seq<char>>)
    requires
        ordered(a),
        ordered(b),
        a.to_set() == b.to_set(),
    ensures
        a == b,
    decreases a.len(),
{
    if a.len() == 0 {
        if b.len() > 0 {
            assert(b.to_set().contains(b[0]));
            assert(a.to_set().contains(b[0]));
        }
        assert(a =~= b);
    } else {
        assert(a.to_set().contains(a[0]));
        assert(b.to_set().contains(a[0]));
        let j = choose|j: int| 0 <= j < b.len() && b[j] == a[0];
        assert(b.to_set().contains(b[0]));
        assert(a.to_set().contains(b[0]));
        let i = choose|i: int| 0 <= i < a.len() && a[i] == b[0];
        lemma_not_both(a[0], b[0]);
        if i > 0 && j > 0 {
            assert(before(a[0], a[i]));
            assert(before(b[0], b[j]));
        }
        assert(a[0] == b[0]);
        let ta = a.drop_first();
        let tb = b.drop_first();
        assert forall|p: int, q: int| 0 <= p < q < ta.len() implies before(ta[p], ta[q]) by {
            assert(before(a[p + 1], a[q + 1]));
        }
        assert forall|p: int, q: int| 0 <= p < q < tb.len() implies before(tb[p], tb[q]) by {
            assert(before(b[p + 1], b[q + 1]));
        }
        assert forall|e: Seq<char>| ta.to_set().contains(e) <==> tb.to_set().contains(e) by {
            if ta.to_set().contains(e) {
                let p = choose|p: int| 0 <= p < ta.len() && ta[p] == e;
                assert(before(a[0], a[p + 1]));
                lemma_not_both(a[0], e);
                assert(a.to_set().contains(a[p + 1]));
                assert(b.to_set().contains(e));
                let q = choose|q: int| 0 <= q < b.len() && b[q] == e;
                assert(q > 0);
                assert(tb[q - 1] == e);
            }
            if tb.to_set().contains(e) {
                let p = choose|p: int| 0 <= p < tb.len() && tb[p] == e;
                assert(before(b[0], b[p + 1]));
                lemma_not_both(b[0], e);
                assert(b.to_set().contains(b[p + 1]));
                assert(a.to_set().contains(e));
                let q = choose|q: int| 0 <= q < a.len() && a[q] == e;
                assert(q > 0);
                assert(ta[q - 1] == e);
            }
        }
        assert(ta.to_set() =~= tb.to_set());
        lemma_one_order(ta, tb);
        assert(a =~= seq![a[0]] + ta);
        assert(b =~= seq![b[0]] + tb);
    }
}

/// Whether the string `a` comes before the string `b`.
pub fn comes_before(a: &String, b: &String) -> (r: bool)
    ensures
        r == before(a@, b@),
{
    let x = a.as_str().as_bytes();
    let y = b.as_str().as_bytes();
    let mut k: usize = 0;
    loop
        invariant
            k <= x@.len(),
            k <= y@.len(),
            x@ == encode_utf8(a@),
            y@ == encode_utf8(b@),
            bytes_before(x@, y@, 0) == bytes_before(x@, y@, k as int),
        decreases x@.len() - k,
    {
        if k >= y.len() {
            return false;
        }
        if k >= x.len() {
            return true;
        }
        if x[k] != y[k] {
            return x[k] < y[k];
        }
        k += 1;
    }
}

} // verus!
