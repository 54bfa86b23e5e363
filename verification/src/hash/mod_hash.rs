use vstd::prelude::*;

use vstd::arithmetic::div_mod::{lemma_add_mod_noop, lemma_mul_mod_noop_left, lemma_mod_bound};

verus! {

/// The number denoted by a byte string read in big-endian order.
pub open spec fn be_bytes_value(s: Seq<u8>) -> int
    decreases s.len(),
{
    if s.len() == 0 {
        0
    } else {
        256 * be_bytes_value(s.drop_last()) + s.last()
    }
}

/// Reduces an arbitrarily large number, given as big-endian bytes, modulo
/// `m`, folding one byte at a time. The modulus must be small enough that an
/// intermediate sum fits in a machine word.
pub fn mod_hash(data: Vec<u8>, m: u32) -> (r: u32)
    requires
        1 <= m <= 0x0100_0000,
    ensures
        r == be_bytes_value(data@) % (m as int),
{
    let mut sum: u32 = 0;
    let mut i: usize = 0;
    proof {
        assert(data@.subrange(0, 0) =~= Seq::<u8>::empty());
    }
    while i < data.len()
        invariant
            i <= data@.len(),
            1 <= m <= 0x0100_0000,
            sum < m,
            sum == be_bytes_value(data@.subrange(0, i as int)) % (m as int),
        decreases data@.len() - i,
    {
        let byte = data[i];
        let ghost pre = data@.subrange(0, i as int);
        let ghost post = data@.subrange(0, i + 1);
        proof {
            assert(post.drop_last() =~= pre);
            assert(post.last() == data@[i as int]);
            assert(be_bytes_value(post) == 256 * be_bytes_value(pre) + data@[i as int]);
            assert(sum << 8u32 == sum * 256) by (bit_vector)
                requires sum < 0x0100_0000u32;
            let mi = m as int;
            let b = data@[i as int] as int;
            let whole = be_bytes_value(pre);
            lemma_mul_mod_noop_left(whole, 256, mi);
            lemma_add_mod_noop(whole * 256, b, mi);
            lemma_add_mod_noop((whole % mi) * 256, b, mi);
            lemma_mod_bound(b, mi);
            assert((sum * 256 + b) % mi == (whole * 256 + b) % mi);
            assert(256 * whole + b == whole * 256 + b) by (nonlinear_arith);
            lemma_mod_bound((sum * 256 + b) as int, mi);
        }
        sum = ((sum << 8u32) + byte as u32) % m;
        i += 1;
    }
    proof {
        assert(data@.subrange(0, data@.len() as int) =~= data@);
    }
    sum
}

} // verus!
