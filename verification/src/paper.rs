//! Paper keys: turning word-list indexes into seed bytes. Each index
//! contributes its binary digits, least significant first, and every full
//! group of eight bits becomes one byte.

use vstd::prelude::*;

verus! {

/// Two to the `n`th.
pub open spec fn pow2(n: nat) -> nat
    decreases n,
{
    if n == 0 {
        1
    } else {
        2 * pow2((n - 1) as nat)
    }
}

/// The binary digits of a number, least significant first, without
/// leading zeros.
pub open spec fn spec_bits(n: nat) -> Seq<bool>
    decreases n,
{
    if n == 0 {
        Seq::empty()
    } else {
        seq![n % 2 == 1] + spec_bits(n / 2)
    }
}

/// The binary digits of all the numbers, one after another.
pub open spec fn all_bits(nums: Seq<usize>) -> Seq<bool>
    decreases nums.len(),
{
    if nums.len() == 0 {
        Seq::empty()
    } else {
        all_bits(nums.drop_last()) + spec_bits(nums.last() as nat)
    }
}

/// The number a bit string denotes, least significant bit first.
pub open spec fn bits_val(bits: Seq<bool>) -> nat
    decreases bits.len(),
{
    if bits.len() == 0 {
        0
    } else {
        (if bits.first() {
            1nat
        } else {
            0nat
        }) + 2 * bits_val(bits.drop_first())
    }
}

/// The bytes a bit string packs into: each full group of eight bits is
/// one byte, and fewer than eight left-over bits are dropped.
pub open spec fn pack_from(bits: Seq<bool>, i: int) -> Seq<u8>
    decreases bits.len() - i,
{
    if i < 0 || bits.len() - i < 8 {
        Seq::empty()
    } else {
        seq![bits_val(bits.subrange(i, i + 8)) as u8] + pack_from(bits, i + 8)
    }
}

proof fn lemma_bits_val_push(bits: Seq<bool>, b: bool)
    ensures
        bits_val(bits.push(b)) == bits_val(bits) + (if b {
            pow2(bits.len() as nat)
        } else {
            0nat
        }),
    decreases bits.len(),
{
    if bits.len() == 0 {
        assert(bits.push(b).drop_first() =~= Seq::<bool>::empty());
        assert(bits_val(Seq::<bool>::empty()) == 0);
        assert(bits.push(b).first() == b);
        assert(pow2(0) == 1);
    } else {
        assert(bits.push(b).drop_first() =~= bits.drop_first().push(b));
        assert(bits.push(b).first() == bits.first());
        lemma_bits_val_push(bits.drop_first(), b);
        assert(pow2(bits.len() as nat) == 2 * pow2((bits.len() - 1) as nat));
    }
}

proof fn lemma_pow2_small()
    ensures
        pow2(0) == 1,
        pow2(1) == 2,
        pow2(2) == 4,
        pow2(3) == 8,
        pow2(4) == 16,
        pow2(5) == 32,
        pow2(6) == 64,
        pow2(7) == 128,
        pow2(8) == 256,
{
    assert(pow2(0) == 1);
    assert(pow2(1) == 2);
    assert(pow2(2) == 4);
    assert(pow2(3) == 8);
    assert(pow2(4) == 16);
    assert(pow2(5) == 32);
    assert(pow2(6) == 64);
    assert(pow2(7) == 128);
    assert(pow2(8) == 256);
}

proof fn lemma_bits_val_bound(bits: Seq<bool>)
    ensures
        bits_val(bits) < pow2(bits.len() as nat),
    decreases bits.len(),
{
    if bits.len() > 0 {
        lemma_bits_val_bound(bits.drop_first());
    }
}

/// The binary digits of an index, least significant first.
pub fn index_to_bit_array(num: usize) -> (r: Vec<bool>)
    ensures
        r@ == spec_bits(num as nat),
{
    let mut bits: Vec<bool> = Vec::new();
    let mut n: usize = num;
    while n > 0
        invariant
            spec_bits(num as nat) == bits@ + spec_bits(n as nat),
        decreases n,
    {
        proof {
            assert(spec_bits(n as nat) == seq![n % 2 == 1] + spec_bits((n / 2) as nat));
            assert((bits@ + spec_bits(n as nat)).take(bits@.len() as int + 1) =~= bits@.push(
                n % 2 == 1,
            ));
            assert(bits@ + spec_bits(n as nat) =~= bits@.push(n % 2 == 1) + spec_bits(
                (n / 2) as nat,
            ));
        }
        bits.push(n % 2 != 0);
        n = n / 2;
    }
    proof {
        assert(bits@ + spec_bits(0) =~= bits@);
    }
    bits
}

/// Packs word-list indexes into seed bytes: the indexes' binary digits,
/// least significant first, taken eight at a time.
pub fn nums_to_bytes(nums: &Vec<usize>) -> (r: Vec<u8>)
    ensures
        r@ == pack_from(all_bits(nums@), 0),
{
    let mut bits: Vec<bool> = Vec::new();
    let mut i: usize = 0;
    proof {
        assert(nums@.take(0) =~= Seq::<usize>::empty());
        assert(bits@ =~= all_bits(nums@.take(0)));
    }
    while i < nums.len()
        invariant
            i <= nums@.len(),
            bits@ == all_bits(nums@.take(i as int)),
        decreases nums@.len() - i,
    {
        proof {
            assert(nums@.take(i + 1).drop_last() =~= nums@.take(i as int));
            assert(nums@.take(i + 1).last() == nums@[i as int]);
        }
        let word_bits = index_to_bit_array(nums[i]);
        let mut j: usize = 0;
        let ghost before = bits@;
        while j < word_bits.len()
            invariant
                j <= word_bits@.len(),
                bits@ == before + word_bits@.take(j as int),
            decreases word_bits@.len() - j,
        {
            proof {
                assert((before + word_bits@.take(j + 1)) =~= (before + word_bits@.take(
                    j as int,
                )).push(word_bits@[j as int]));
            }
            bits.push(word_bits[j]);
            j = j + 1;
        }
        proof {
            assert(word_bits@.take(word_bits@.len() as int) =~= word_bits@);
        }
        i = i + 1;
    }
    proof {
        assert(nums@.take(nums@.len() as int) =~= nums@);
    }
    let all = bits;
    let mut out: Vec<u8> = Vec::new();
    let mut p: usize = 0;
    while all.len() - p >= 8
        invariant
            p <= all@.len(),
            p % 8 == 0,
            pack_from(all@, 0) == out@ + pack_from(all@, p as int),
        decreases all@.len() - p,
    {
        proof {
            lemma_pow2_small();
        }
        let mut cur: u16 = 0;
        let mut mult: u16 = 1;
        let mut j: usize = 0;
        while j < 8
            invariant
                j <= 8,
                p + 8 <= all@.len(),
                all@.len() <= usize::MAX,
                mult == pow2(j as nat),
                cur == bits_val(all@.subrange(p as int, p + j)),
                cur < pow2(j as nat),
            decreases 8 - j,
        {
            proof {
                lemma_pow2_small();
                assert(all@.subrange(p as int, p + j + 1) =~= all@.subrange(
                    p as int,
                    p + j,
                ).push(all@[p + j]));
                lemma_bits_val_push(all@.subrange(p as int, p + j), all@[p + j]);
                lemma_bits_val_bound(all@.subrange(p as int, p + j + 1));
            }
            if all[p + j] {
                cur = cur + mult;
            }
            if j < 7 {
                mult = mult * 2;
            } else {
                mult = 256;
            }
            j = j + 1;
        }
        proof {
            lemma_pow2_small();
            assert(pack_from(all@, p as int) == seq![
                bits_val(all@.subrange(p as int, p + 8)) as u8,
            ] + pack_from(all@, p + 8));
            assert((out@ + pack_from(all@, p as int)) =~= out@.push(
                bits_val(all@.subrange(p as int, p + 8)) as u8,
            ) + pack_from(all@, p + 8));
        }
        out.push(cur as u8);
        p = p + 8;
    }
    proof {
        assert(pack_from(all@, p as int) =~= Seq::<u8>::empty());
        assert(out@ =~= pack_from(all@, 0));
    }
    out
}

/// The word-list language of paper keys.
pub fn get_language() -> (r: String)
    ensures
        r@ == "english"@,
{
    let r = String::from_str("english");
    r
}

} // verus!
