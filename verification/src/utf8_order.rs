//! The order of keys, read off the bytes of their UTF-8 encoding.

use crate::key_order::key_lt;
use vstd::prelude::*;
use vstd::utf8::{
    char_is_scalar, encode_scalar, encode_utf8, has_width_1_encoding, has_width_2_encoding,
    has_width_3_encoding, is_scalar, last_continuation_byte, leading_byte_width_1,
    leading_byte_width_2, leading_byte_width_3, leading_byte_width_4,
    second_last_continuation_byte, third_last_continuation_byte,
};

verus! {

/// `x` comes strictly before `y` in lexicographic order: at the first place
/// where they differ `x` has the smaller byte, or `x` ends there and `y` does
/// not.
pub open spec fn bytes_lt(x: Seq<u8>, y: Seq<u8>) -> bool
    decreases x.len(),
{
    if y.len() == 0 {
        false
    } else if x.len() == 0 {
        true
    } else if x[0] != y[0] {
        x[0] < y[0]
    } else {
        bytes_lt(x.drop_first(), y.drop_first())
    }
}

/// No byte sequence comes before itself.
proof fn lemma_bytes_lt_irreflexive(x: Seq<u8>)
    ensures
        !bytes_lt(x, x),
    decreases x.len(),
{
    if x.len() > 0 {
        lemma_bytes_lt_irreflexive(x.drop_first());
    }
}

/// The order on byte sequences is transitive.
proof fn lemma_bytes_lt_transitive(x: Seq<u8>, y: Seq<u8>, z: Seq<u8>)
    requires
        bytes_lt(x, y),
        bytes_lt(y, z),
    ensures
        bytes_lt(x, z),
    decreases x.len(),
{
    if x.len() > 0 && x[0] == y[0] && y[0] == z[0] {
        lemma_bytes_lt_transitive(x.drop_first(), y.drop_first(), z.drop_first());
    }
}

/// Dropping a common beginning of equal bytes does not change the order.
proof fn lemma_bytes_lt_skip(x: Seq<u8>, y: Seq<u8>, n: int)
    requires
        0 <= n <= x.len(),
        n <= y.len(),
        forall|i: int| 0 <= i < n ==> x[i] == y[i],
    ensures
        bytes_lt(x, y) == bytes_lt(x.skip(n), y.skip(n)),
    decreases n,
{
    if n == 0 {
        assert(x.skip(0) =~= x);
        assert(y.skip(0) =~= y);
    } else {
        lemma_bytes_lt_skip(x, y, n - 1);
        let xs = x.skip(n - 1);
        let ys = y.skip(n - 1);
        assert(xs[0] == ys[0]);
        assert(xs.drop_first() =~= x.skip(n));
        assert(ys.drop_first() =~= y.skip(n));
    }
}

/// At place `i` the byte of `x` is smaller than that of `y`, and before it
/// the two hold the same bytes.
pub open spec fn differ_first_at(x: Seq<u8>, y: Seq<u8>, i: int) -> bool {
    &&& 0 <= i < x.len()
    &&& i < y.len()
    &&& x[i] < y[i]
    &&& forall|j: int| 0 <= j < i ==> x[j] == y[j]
}

/// The encoding of the smaller of two scalar values has the smaller byte at
/// the first place where the two encodings differ, and neither encoding
/// ends before that place.
pub proof fn lemma_scalar_order(c: u32, d: u32)
    requires
        is_scalar(c),
        is_scalar(d),
        c < d,
    ensures
        exists|i: int| differ_first_at(encode_scalar(c), encode_scalar(d), i),
{
    let x = encode_scalar(c);
    let y = encode_scalar(d);
    if has_width_1_encoding(c) {
        assert(leading_byte_width_1(c) < 0x80) by (bit_vector);
        if has_width_1_encoding(d) {
            assert(leading_byte_width_1(c) < leading_byte_width_1(d)) by (bit_vector)
                requires
                    c < d,
                    d <= 0x7F,
            ;
        } else if has_width_2_encoding(d) {
            assert(leading_byte_width_2(d) >= 0xC0) by (bit_vector);
        } else if has_width_3_encoding(d) {
            assert(leading_byte_width_3(d) >= 0xE0) by (bit_vector);
        } else {
            assert(leading_byte_width_4(d) >= 0xF0) by (bit_vector);
        }
        assert(differ_first_at(x, y, 0));
    } else if has_width_2_encoding(c) {
        assert(leading_byte_width_2(c) < 0xE0) by (bit_vector);
        if has_width_2_encoding(d) {
            assert(leading_byte_width_2(c) < leading_byte_width_2(d) || (leading_byte_width_2(c)
                == leading_byte_width_2(d) && last_continuation_byte(c) < last_continuation_byte(
                d,
            ))) by (bit_vector)
                requires
                    0x80 <= c,
                    c < d,
                    d <= 0x7FF,
            ;
            if leading_byte_width_2(c) < leading_byte_width_2(d) {
                assert(differ_first_at(x, y, 0));
            } else {
                assert(differ_first_at(x, y, 1));
            }
        } else {
            if has_width_3_encoding(d) {
                assert(leading_byte_width_3(d) >= 0xE0) by (bit_vector);
            } else {
                assert(leading_byte_width_4(d) >= 0xF0) by (bit_vector);
            }
            assert(differ_first_at(x, y, 0));
        }
    } else if has_width_3_encoding(c) {
        assert(leading_byte_width_3(c) < 0xF0) by (bit_vector);
        if has_width_3_encoding(d) {
            assert(leading_byte_width_3(c) < leading_byte_width_3(d) || (leading_byte_width_3(c)
                == leading_byte_width_3(d) && (second_last_continuation_byte(c)
                < second_last_continuation_byte(d) || (second_last_continuation_byte(c)
                == second_last_continuation_byte(d) && last_continuation_byte(c)
                < last_continuation_byte(d))))) by (bit_vector)
                requires
                    0x800 <= c,
                    c < d,
                    d <= 0xFFFF,
            ;
            if leading_byte_width_3(c) < leading_byte_width_3(d) {
                assert(differ_first_at(x, y, 0));
            } else if second_last_continuation_byte(c) < second_last_continuation_byte(d) {
                assert(differ_first_at(x, y, 1));
            } else {
                assert(differ_first_at(x, y, 2));
            }
        } else {
            assert(leading_byte_width_4(d) >= 0xF0) by (bit_vector);
            assert(differ_first_at(x, y, 0));
        }
    } else {
        assert(leading_byte_width_4(c) < leading_byte_width_4(d) || (leading_byte_width_4(c)
            == leading_byte_width_4(d) && (third_last_continuation_byte(c)
            < third_last_continuation_byte(d) || (third_last_continuation_byte(c)
            == third_last_continuation_byte(d) && (second_last_continuation_byte(c)
            < second_last_continuation_byte(d) || (second_last_continuation_byte(c)
            == second_last_continuation_byte(d) && last_continuation_byte(c)
            < last_continuation_byte(d))))))) by (bit_vector)
            requires
                0x10000 <= c,
                c < d,
                d <= 0x10FFFF,
        ;
        if leading_byte_width_4(c) < leading_byte_width_4(d) {
            assert(differ_first_at(x, y, 0));
        } else if third_last_continuation_byte(c) < third_last_continuation_byte(d) {
            assert(differ_first_at(x, y, 1));
        } else if second_last_continuation_byte(c) < second_last_continuation_byte(d) {
            assert(differ_first_at(x, y, 2));
        } else {
            assert(differ_first_at(x, y, 3));
        }
    }
}

/// Of two byte sequences, the one with the smaller byte at the first place
/// where they differ comes first.
proof fn lemma_bytes_lt_at_difference(x: Seq<u8>, y: Seq<u8>, i: int)
    requires
        differ_first_at(x, y, i),
    ensures
        bytes_lt(x, y),
        !bytes_lt(y, x),
{
    lemma_bytes_lt_skip(x, y, i);
    assert(x.skip(i)[0] == x[i]);
    assert(y.skip(i)[0] == y[i]);
    if bytes_lt(y, x) {
        lemma_bytes_lt_transitive(x, y, x);
        lemma_bytes_lt_irreflexive(x);
    }
}

/// Characters are ordered as their scalar values are.
proof fn lemma_char_order(p: char, q: char)
    ensures
        p < q <==> (p as u32) < (q as u32),
        is_scalar(p as u32),
        is_scalar(q as u32),
{
    char_is_scalar(p);
    char_is_scalar(q);
}

/// The order of two keys is the lexicographic order of the bytes of their
/// UTF-8 encodings.
pub proof fn lemma_utf8_keeps_order(a: Seq<char>, b: Seq<char>)
    ensures
        key_lt(a, b) == bytes_lt(encode_utf8(a), encode_utf8(b)),
    decreases a.len(),
{
    let x = encode_utf8(a);
    let y = encode_utf8(b);
    if b.len() == 0 {
    } else if a.len() == 0 {
        lemma_char_order(b[0], b[0]);
        assert(encode_scalar(b[0] as u32).len() > 0);
    } else {
        let c = a[0] as u32;
        let d = b[0] as u32;
        lemma_char_order(a[0], b[0]);
        lemma_char_order(b[0], a[0]);
        let head_a = encode_scalar(c);
        let head_b = encode_scalar(d);
        let rest_a = encode_utf8(a.drop_first());
        let rest_b = encode_utf8(b.drop_first());
        assert(x == head_a + rest_a);
        assert(y == head_b + rest_b);
        if a[0] == b[0] {
            lemma_utf8_keeps_order(a.drop_first(), b.drop_first());
            lemma_bytes_lt_skip(x, y, head_a.len() as int);
            assert(x.skip(head_a.len() as int) =~= rest_a);
            assert(y.skip(head_a.len() as int) =~= rest_b);
        } else if a[0] < b[0] {
            lemma_scalar_order(c, d);
            let i = choose|i: int| differ_first_at(head_a, head_b, i);
            assert(differ_first_at(x, y, i));
            lemma_bytes_lt_at_difference(x, y, i);
        } else {
            lemma_scalar_order(d, c);
            let i = choose|i: int| differ_first_at(head_b, head_a, i);
            assert(differ_first_at(y, x, i));
            lemma_bytes_lt_at_difference(y, x, i);
        }
    }
}

/// Whether the key `a` comes strictly before the key `b`.
pub fn key_precedes(a: &str, b: &str) -> (r: bool)
    ensures
        r == key_lt(a@, b@),
{
    let x = a.as_bytes();
    let y = b.as_bytes();
    proof {
        lemma_utf8_keeps_order(a@, b@);
    }
    let mut i: usize = 0;
    while i < x.len() && i < y.len()
        invariant
            key_lt(a@, b@) == bytes_lt(x@, y@),
            i <= x.len(),
            i <= y.len(),
            forall|j: int| 0 <= j < i ==> x@[j] == y@[j],
        decreases x.len() - i,
    {
        if x[i] != y[i] {
            proof {
                lemma_bytes_lt_skip(x@, y@, i as int);
                assert(x@.skip(i as int)[0] == x@[i as int]);
                assert(y@.skip(i as int)[0] == y@[i as int]);
            }
            return x[i] < y[i];
        }
        i += 1;
    }
    proof {
        lemma_bytes_lt_skip(x@, y@, i as int);
    }
    x.len() < y.len()
}

} // verus!
