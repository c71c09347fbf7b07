//! Embedding vectors and their similarity metric.
//!
//! An embedding is a fixed-dimension vector of signed 32-bit
//! components. Similarity between two embeddings of equal dimension is
//! their dot product; a larger product means a closer match.

use vstd::prelude::*;

verus! {

/// Dot product of the first `n` components of `a` and `b`.
pub open spec fn dot_prefix(a: Seq<i32>, b: Seq<i32>, n: int) -> int
    decreases n,
{
    if n <= 0 {
        0
    } else {
        dot_prefix(a, b, n - 1) + a[n - 1] * b[n - 1]
    }
}

/// Dot product of two equal-length embedding vectors.
pub open spec fn dot_spec(a: Seq<i32>, b: Seq<i32>) -> int {
    dot_prefix(a, b, a.len() as int)
}

/// The product of two `i32` values lies within `±2^62`.
proof fn lemma_product_bound(x: i32, y: i32)
    ensures
        -0x4000_0000_0000_0000 <= x * y <= 0x4000_0000_0000_0000,
{
    assert(-0x4000_0000_0000_0000 <= x * y <= 0x4000_0000_0000_0000) by (nonlinear_arith)
        requires
            -0x8000_0000 <= x <= 0x7fff_ffff,
            -0x8000_0000 <= y <= 0x7fff_ffff,
    ;
}

/// Dot product of two equal-length vectors, accumulated exactly in a
/// 128-bit integer; the true value always fits.
pub fn dot(a: &Vec<i32>, b: &Vec<i32>) -> (r: i128)
    requires
        a@.len() == b@.len(),
    ensures
        r == dot_spec(a@, b@),
{
    let mut acc: i128 = 0;
    let mut i: usize = 0;
    while i < a.len()
        invariant
            a@.len() == b@.len(),
            i <= a@.len(),
            acc == dot_prefix(a@, b@, i as int),
            -(i as int) * 0x4000_0000_0000_0000 <= acc <= (i as int) * 0x4000_0000_0000_0000,
        decreases a@.len() - i,
    {
        proof {
            lemma_product_bound(a@[i as int], b@[i as int]);
        }
        acc = acc + (a[i] as i128) * (b[i] as i128);
        i = i + 1;
    }
    acc
}

/// Dot-product symmetry: the order of the two vectors does not matter.
pub proof fn lemma_dot_symmetric(a: Seq<i32>, b: Seq<i32>)
    requires
        a.len() == b.len(),
    ensures
        dot_spec(a, b) == dot_spec(b, a),
{
    lemma_dot_prefix_symmetric(a, b, a.len() as int);
}

proof fn lemma_dot_prefix_symmetric(a: Seq<i32>, b: Seq<i32>, n: int)
    ensures
        dot_prefix(a, b, n) == dot_prefix(b, a, n),
    decreases n,
{
    if n > 0 {
        lemma_dot_prefix_symmetric(a, b, n - 1);
        assert(a[n - 1] * b[n - 1] == b[n - 1] * a[n - 1]) by (nonlinear_arith);
    }
}

/// A vector's dot product with itself is never negative.
pub proof fn lemma_dot_self_nonneg(a: Seq<i32>)
    ensures
        dot_spec(a, a) >= 0,
{
    lemma_dot_prefix_self_nonneg(a, a.len() as int);
}

proof fn lemma_dot_prefix_self_nonneg(a: Seq<i32>, n: int)
    ensures
        dot_prefix(a, a, n) >= 0,
    decreases n,
{
    if n > 0 {
        lemma_dot_prefix_self_nonneg(a, n - 1);
        assert(a[n - 1] * a[n - 1] >= 0) by (nonlinear_arith);
    }
}

/// The unsigned 32-bit word that carries component `x` in the store's
/// blob format: its two's-complement value.
pub open spec fn word_of_component(x: i32) -> u32 {
    if x >= 0 {
        x as u32
    } else {
        (x + 0x1_0000_0000) as u32
    }
}

/// The component an unsigned 32-bit word stands for.
pub open spec fn component_of_word(w: u32) -> i32 {
    if w < 0x8000_0000 {
        w as i32
    } else {
        (w - 0x1_0000_0000) as i32
    }
}

/// The four little-endian bytes of a 32-bit word.
pub open spec fn le_bytes_of_word(w: u32) -> Seq<u8> {
    seq![
        (w & 0xff) as u8,
        ((w >> 8) & 0xff) as u8,
        ((w >> 16) & 0xff) as u8,
        ((w >> 24) & 0xff) as u8,
    ]
}

/// An embedding's serialised form: each component as four
/// little-endian bytes, in order. The dimension is implicit in the
/// blob's length; there is no header.
pub open spec fn encoded_embedding(v: Seq<i32>) -> Seq<u8>
    decreases v.len(),
{
    if v.len() == 0 {
        Seq::empty()
    } else {
        encoded_embedding(v.drop_last()) + le_bytes_of_word(word_of_component(v.last()))
    }
}

/// The blob's length counts four bytes per component.
pub proof fn lemma_encoded_len(v: Seq<i32>)
    ensures
        encoded_embedding(v).len() == 4 * v.len(),
    decreases v.len(),
{
    if v.len() > 0 {
        lemma_encoded_len(v.drop_last());
    }
}

/// Serialises an embedding into the store's blob format.
pub fn encode_embedding(v: &Vec<i32>) -> (r: Vec<u8>)
    ensures
        r@ == encoded_embedding(v@),
        r@.len() == 4 * v@.len(),
{
    let mut r: Vec<u8> = Vec::new();
    let n: usize = v.len();
    let mut i: usize = 0;
    proof {
        assert(v@.take(0) =~= Seq::<i32>::empty());
        lemma_encoded_len(v@);
    }
    while i < n
        invariant
            n == v@.len(),
            i <= n,
            r@ == encoded_embedding(v@.take(i as int)),
        decreases n - i,
    {
        proof {
            assert(v@.take(i + 1).drop_last() =~= v@.take(i as int));
            assert(v@.take(i + 1).last() == v@[i as int]);
        }
        let x: i32 = v[i];
        let w: u32 = if x >= 0 {
            x as u32
        } else {
            ((x as i64) + 0x1_0000_0000) as u32
        };
        proof {
            assert(w == word_of_component(x));
            assert(w & 0xff < 256 && (w >> 8) & 0xff < 256 && (w >> 16) & 0xff < 256 && (w >> 24)
                & 0xff < 256) by (bit_vector);
        }
        r.push((w & 0xff) as u8);
        r.push(((w >> 8) & 0xff) as u8);
        r.push(((w >> 16) & 0xff) as u8);
        r.push(((w >> 24) & 0xff) as u8);
        proof {
            assert(r@ =~= encoded_embedding(v@.take(i as int)) + le_bytes_of_word(w));
        }
        i = i + 1;
    }
    proof {
        assert(v@.take(n as int) =~= v@);
    }
    r
}

/// Serialisation is injective: equal blobs come from equal embeddings.
/// With the decoder's contract this says that deserialising a
/// serialised embedding gives it back exactly.
pub proof fn lemma_encoded_injective(v1: Seq<i32>, v2: Seq<i32>)
    requires
        encoded_embedding(v1) == encoded_embedding(v2),
    ensures
        v1 == v2,
    decreases v1.len(),
{
    lemma_encoded_len(v1);
    lemma_encoded_len(v2);
    if v1.len() > 0 {
        let w1 = word_of_component(v1.last());
        let w2 = word_of_component(v2.last());
        let e1 = encoded_embedding(v1.drop_last());
        let e2 = encoded_embedding(v2.drop_last());
        lemma_encoded_len(v1.drop_last());
        lemma_encoded_len(v2.drop_last());
        assert(encoded_embedding(v1)[e1.len() as int] == (w1 & 0xff) as u8);
        assert(encoded_embedding(v1)[e1.len() as int + 1] == ((w1 >> 8) & 0xff) as u8);
        assert(encoded_embedding(v1)[e1.len() as int + 2] == ((w1 >> 16) & 0xff) as u8);
        assert(encoded_embedding(v1)[e1.len() as int + 3] == ((w1 >> 24) & 0xff) as u8);
        assert(encoded_embedding(v2)[e2.len() as int] == (w2 & 0xff) as u8);
        assert(encoded_embedding(v2)[e2.len() as int + 1] == ((w2 >> 8) & 0xff) as u8);
        assert(encoded_embedding(v2)[e2.len() as int + 2] == ((w2 >> 16) & 0xff) as u8);
        assert(encoded_embedding(v2)[e2.len() as int + 3] == ((w2 >> 24) & 0xff) as u8);
        assert(e1.len() == e2.len());
        assert(w1 & 0xff < 256 && (w1 >> 8) & 0xff < 256 && (w1 >> 16) & 0xff < 256 && (w1 >> 24)
            & 0xff < 256) by (bit_vector);
        assert(w2 & 0xff < 256 && (w2 >> 8) & 0xff < 256 && (w2 >> 16) & 0xff < 256 && (w2 >> 24)
            & 0xff < 256) by (bit_vector);
        assert((w1 & 0xff) == (w2 & 0xff));
        assert(((w1 >> 8) & 0xff) == ((w2 >> 8) & 0xff));
        assert(((w1 >> 16) & 0xff) == ((w2 >> 16) & 0xff));
        assert(((w1 >> 24) & 0xff) == ((w2 >> 24) & 0xff));
        assert(w1 == w2) by (bit_vector)
            requires
                (w1 & 0xff) == (w2 & 0xff) && ((w1 >> 8) & 0xff) == ((w2 >> 8) & 0xff) && ((w1
                    >> 16) & 0xff) == ((w2 >> 16) & 0xff) && ((w1 >> 24) & 0xff) == ((w2 >> 24)
                    & 0xff),
        ;
        assert(v1.last() == v2.last());
        assert forall|j: int| 0 <= j < e1.len() implies e1[j] == e2[j] by {
            assert(e1[j] == encoded_embedding(v1)[j]);
            assert(e2[j] == encoded_embedding(v2)[j]);
        }
        assert(e1 =~= e2);
        lemma_encoded_injective(v1.drop_last(), v2.drop_last());
        assert forall|j: int| 0 <= j < v1.len() implies v1[j] == v2[j] by {
            if j < v1.len() - 1 {
                assert(v1[j] == v1.drop_last()[j]);
                assert(v2[j] == v2.drop_last()[j]);
            }
        }
        assert(v1 =~= v2);
    } else {
        assert(v1 =~= v2);
    }
}

/// Deserialises a blob of the store's format. Succeeds exactly on
/// blobs of whole four-byte words, and undoes serialisation: the blob
/// is the encoding of what comes out.
pub fn decode_embedding(b: &Vec<u8>) -> (r: Option<Vec<i32>>)
    ensures
        r is Some <==> b@.len() % 4 == 0,
        r is Some ==> encoded_embedding(r->0@) == b@ && r->0@.len() * 4 == b@.len(),
{
    let n: usize = b.len();
    if n % 4 != 0 {
        return None;
    }
    let words: usize = n / 4;
    let mut out: Vec<i32> = Vec::new();
    let mut i: usize = 0;
    proof {
        assert(b@.take(0) =~= Seq::<u8>::empty());
    }
    while i < words
        invariant
            n == b@.len(),
            n % 4 == 0,
            words == n / 4,
            i <= words,
            out@.len() == i,
            encoded_embedding(out@) == b@.take(4 * i as int),
        decreases words - i,
    {
        let b0: u32 = b[4 * i] as u32;
        let b1: u32 = b[4 * i + 1] as u32;
        let b2: u32 = b[4 * i + 2] as u32;
        let b3: u32 = b[4 * i + 3] as u32;
        let w: u32 = b0 | (b1 << 8) | (b2 << 16) | (b3 << 24);
        let x: i32 = if w < 0x8000_0000 {
            w as i32
        } else {
            ((w as i64) - 0x1_0000_0000) as i32
        };
        let ghost pre = out@;
        out.push(x);
        proof {
            assert(x == component_of_word(w));
            assert(word_of_component(x) == w);
            assert(b0 < 256 && b1 < 256 && b2 < 256 && b3 < 256);
            assert(le_bytes_of_word(w) =~= seq![b0 as u8, b1 as u8, b2 as u8, b3 as u8]) by {
                assert((w & 0xff) == b0 && ((w >> 8) & 0xff) == b1 && ((w >> 16) & 0xff) == b2 && (
                (w >> 24) & 0xff) == b3) by (bit_vector)
                    requires
                        b0 < 256 && b1 < 256 && b2 < 256 && b3 < 256 && w == (b0 | (b1 << 8) | (b2
                            << 16) | (b3 << 24)),
                ;
            }
            assert(out@.drop_last() =~= pre);
            assert(b@.take(4 * (i + 1)) =~= b@.take(4 * i as int) + seq![
                b@[4 * i as int],
                b@[4 * i + 1],
                b@[4 * i + 2],
                b@[4 * i + 3],
            ]);
            assert(encoded_embedding(out@) =~= b@.take(4 * (i + 1)));
        }
        i = i + 1;
    }
    proof {
        assert(b@.take(4 * words as int) =~= b@);
    }
    Some(out)
}

} // verus!
