//! Base32 with padding: binary values inside the store's JSON documents
//! are written in the 26-letters-and-digits alphabet, five bits per
//! character, padded with `=` to full groups of eight characters.

use vstd::prelude::*;

verus! {

/// Bit `k` of a byte, most significant first.
pub open spec fn bit_at(b: u8, k: int) -> bool
    recommends
        0 <= k < 8,
{
    (b >> ((7 - k) as u8)) & 1 == 1
}

/// The eight bits of a byte, most significant first.
pub open spec fn byte_bits(b: u8) -> Seq<bool> {
    seq![
        bit_at(b, 0),
        bit_at(b, 1),
        bit_at(b, 2),
        bit_at(b, 3),
        bit_at(b, 4),
        bit_at(b, 5),
        bit_at(b, 6),
        bit_at(b, 7),
    ]
}

/// The bits of a byte string, most significant bit of each byte first.
pub open spec fn msb_bits(bs: Seq<u8>) -> Seq<bool>
    decreases bs.len(),
{
    if bs.len() == 0 {
        Seq::empty()
    } else {
        msb_bits(bs.drop_last()) + byte_bits(bs.last())
    }
}

/// The value of a bit string read most significant bit first.
pub open spec fn msb_val(bits: Seq<bool>) -> nat
    decreases bits.len(),
{
    if bits.len() == 0 {
        0
    } else {
        2 * msb_val(bits.drop_last()) + (if bits.last() {
            1nat
        } else {
            0nat
        })
    }
}

/// The alphabet: `A`..`Z` for 0 to 25, `2`..`7` for 26 to 31.
pub open spec fn b32_char(v: nat) -> u8
    recommends
        v < 32,
{
    if v < 26 {
        (65 + v) as u8
    } else {
        (50 + (v - 26)) as u8
    }
}

/// The value of an alphabet byte, or nothing for a byte outside it.
pub open spec fn b32_val(c: u8) -> Option<nat> {
    if 65 <= c <= 90 {
        Option::Some((c - 65) as nat)
    } else if 50 <= c <= 55 {
        Option::Some((c - 50 + 26) as nat)
    } else {
        Option::None
    }
}

/// A bit string padded with zeros to a multiple of five.
pub open spec fn pad_to_five(bits: Seq<bool>) -> Seq<bool> {
    bits + Seq::new(((5 - bits.len() % 5) % 5) as nat, |i: int| false)
}

/// The alphabet characters of a padded bit string, five bits each,
/// starting at `i`.
pub open spec fn chars_from(bits: Seq<bool>, i: int) -> Seq<u8>
    decreases bits.len() - i,
{
    if i < 0 || i + 5 > bits.len() {
        Seq::empty()
    } else {
        seq![b32_char(msb_val(bits.subrange(i, i + 5)))] + chars_from(bits, i + 5)
    }
}

/// Characters padded with `=` to a multiple of eight.
pub open spec fn pad_to_eight(chars: Seq<u8>) -> Seq<u8> {
    chars + Seq::new(((8 - chars.len() % 8) % 8) as nat, |i: int| 61u8)
}

/// The base32 encoding of a byte string, padded.
pub open spec fn spec_base32_encode(bs: Seq<u8>) -> Seq<u8> {
    pad_to_eight(chars_from(pad_to_five(msb_bits(bs)), 0))
}

/// The bytes of a bit string, eight bits at a time from `i`, most
/// significant first; fewer than eight left-over bits are dropped.
pub open spec fn bytes_from(bits: Seq<bool>, i: int) -> Seq<u8>
    decreases bits.len() - i,
{
    if i < 0 || i + 8 > bits.len() {
        Seq::empty()
    } else {
        seq![msb_val(bits.subrange(i, i + 8)) as u8] + bytes_from(bits, i + 8)
    }
}

/// The bit string the body of a base32 text denotes: five bits per
/// alphabet character, or nothing on a character outside the alphabet.
pub open spec fn body_bits(body: Seq<u8>, i: int) -> Option<Seq<bool>>
    decreases body.len() - i,
{
    if i < 0 || i >= body.len() {
        Option::Some(Seq::empty())
    } else {
        match b32_val(body[i]) {
            Option::None => Option::None,
            Option::Some(v) => match body_bits(body, i + 1) {
                Option::None => Option::None,
                Option::Some(rest) => Option::Some(five_bits(v) + rest),
            },
        }
    }
}

/// The five bits of a character value, most significant first.
pub open spec fn five_bits(v: nat) -> Seq<bool>
    recommends
        v < 32,
{
    seq![
        v / 16 % 2 == 1,
        v / 8 % 2 == 1,
        v / 4 % 2 == 1,
        v / 2 % 2 == 1,
        v % 2 == 1,
    ]
}

/// The trailing `=` padding stripped.
pub open spec fn strip_pad(s: Seq<u8>) -> Seq<u8>
    decreases s.len(),
{
    if s.len() > 0 && s.last() == 61 {
        strip_pad(s.drop_last())
    } else {
        s
    }
}

/// What decoding a base32 text yields: the full bytes of the body's bits,
/// or nothing when a body character is outside the alphabet.
pub open spec fn spec_base32_decode(s: Seq<u8>) -> Option<Seq<u8>> {
    match body_bits(strip_pad(s), 0) {
        Option::None => Option::None,
        Option::Some(bits) => Option::Some(bytes_from(bits, 0)),
    }
}

proof fn lemma_msb_val_bound(bits: Seq<bool>, n: nat)
    requires
        bits.len() <= n,
    ensures
        msb_val(bits) < crate::paper::pow2(n),
    decreases bits.len(), n,
{
    if bits.len() == 0 {
        assert(crate::paper::pow2(n) >= 1) by {
            lemma_pow2_pos(n);
        }
    } else {
        lemma_msb_val_bound(bits.drop_last(), (n - 1) as nat);
        assert(crate::paper::pow2(n) == 2 * crate::paper::pow2((n - 1) as nat));
    }
}

proof fn lemma_pow2_pos(n: nat)
    ensures
        crate::paper::pow2(n) >= 1,
    decreases n,
{
    if n > 0 {
        lemma_pow2_pos((n - 1) as nat);
    }
}

proof fn lemma_msb_val_push(bits: Seq<bool>, b: bool)
    ensures
        msb_val(bits.push(b)) == 2 * msb_val(bits) + (if b {
            1nat
        } else {
            0nat
        }),
{
    assert(bits.push(b).drop_last() =~= bits);
}

/// Encodes a byte string as padded base32 text.
pub fn base32_encode(bs: &[u8]) -> (r: Vec<u8>)
    ensures
        r@ == spec_base32_encode(bs@),
{
    let mut bits: Vec<bool> = Vec::new();
    let mut i: usize = 0;
    proof {
        assert(bs@.take(0) =~= Seq::<u8>::empty());
        assert(bits@ =~= msb_bits(bs@.take(0)));
    }
    while i < bs.len()
        invariant
            i <= bs@.len(),
            bits@ == msb_bits(bs@.take(i as int)),
            bits@.len() == 8 * i,
        decreases bs@.len() - i,
    {
        let b = bs[i];
        proof {
            assert(bs@.take(i + 1).drop_last() =~= bs@.take(i as int));
            assert(bs@.take(i + 1).last() == bs@[i as int]);
        }
        let ghost before = bits@;
        let mut k: usize = 0;
        while k < 8
            invariant
                k <= 8,
                i < bs@.len(),
                b == bs@[i as int],
                bits@ == before + byte_bits(b).take(k as int),
            decreases 8 - k,
        {
            proof {
                assert(byte_bits(b).take(k as int + 1) =~= byte_bits(b).take(k as int).push(
                    byte_bits(b)[k as int],
                ));
            }
            let bit = (b >> ((7 - k) as u8)) & 1 == 1;
            proof {
                assert(bit == byte_bits(b)[k as int]);
            }
            bits.push(bit);
            k = k + 1;
        }
        proof {
            assert(byte_bits(b).take(8) =~= byte_bits(b));
        }
        i = i + 1;
    }
    proof {
        assert(bs@.take(bs@.len() as int) =~= bs@);
    }
    let ghost raw = bits@;
    let npad = (5 - bits.len() % 5) % 5;
    let mut p: usize = 0;
    while p < npad
        invariant
            p <= npad,
            npad < 5,
            bits@ == raw + Seq::new(p as nat, |j: int| false),
        decreases npad - p,
    {
        proof {
            assert(raw + Seq::new((p + 1) as nat, |j: int| false) =~= (raw + Seq::new(
                p as nat,
                |j: int| false,
            )).push(false));
        }
        bits.push(false);
        p = p + 1;
    }
    proof {
        assert(bits@ =~= pad_to_five(raw));
        assert(bits@.len() % 5 == 0);
    }
    let padded_len = bits.len();
    let ghost padded = bits@;
    let mut out: Vec<u8> = Vec::new();
    let mut q: usize = 0;
    proof {
        assert(chars_from(padded, 0) == out@ + chars_from(padded, 0));
    }
    while padded_len - q >= 5
        invariant
            q <= padded_len,
            q % 5 == 0,
            padded_len == padded.len(),
            padded == bits@,
            padded_len == bits@.len(),
            chars_from(padded, 0) == out@ + chars_from(padded, q as int),
        decreases padded_len - q,
    {
        let mut v: u8 = 0;
        let mut k: usize = 0;
        while k < 5
            invariant
                k <= 5,
                q + 5 <= padded_len,
                padded_len == padded.len(),
                padded == bits@,
                v == msb_val(padded.subrange(q as int, q as int + k as int)),
                v < 32,
            decreases 5 - k,
        {
            proof {
                assert(padded.subrange(q as int, q as int + k as int + 1) =~= padded.subrange(
                    q as int,
                    q as int + k as int,
                ).push(padded[q as int + k as int]));
                lemma_msb_val_push(
                    padded.subrange(q as int, q as int + k as int),
                    padded[q as int + k as int],
                );
                lemma_msb_val_bound(padded.subrange(q as int, q as int + k as int + 1), 5);
                assert(crate::paper::pow2(5) == 32) by {
                    assert(crate::paper::pow2(0) == 1);
                    assert(crate::paper::pow2(1) == 2);
                    assert(crate::paper::pow2(2) == 4);
                    assert(crate::paper::pow2(3) == 8);
                    assert(crate::paper::pow2(4) == 16);
                    assert(crate::paper::pow2(5) == 32);
                }
            }
            let bit = bits[q + k];
            v = 2 * v + (if bit {
                1
            } else {
                0
            });
            k = k + 1;
        }
        let c: u8 = if v < 26 {
            65 + v
        } else {
            50 + (v - 26)
        };
        proof {
            assert(c == b32_char(msb_val(padded.subrange(q as int, q as int + 5))));
            assert(chars_from(padded, q as int) == seq![
                b32_char(msb_val(padded.subrange(q as int, q as int + 5))),
            ] + chars_from(padded, q as int + 5));
            assert((out@ + chars_from(padded, q as int)) =~= out@.push(c) + chars_from(
                padded,
                q as int + 5,
            ));
        }
        out.push(c);
        q = q + 5;
    }
    proof {
        assert(chars_from(padded, q as int) =~= Seq::<u8>::empty());
        assert(out@ =~= chars_from(padded, 0));
    }
    let ghost chars = out@;
    let npad8 = (8 - out.len() % 8) % 8;
    let mut p8: usize = 0;
    while p8 < npad8
        invariant
            p8 <= npad8,
            out@ == chars + Seq::new(p8 as nat, |j: int| 61u8),
        decreases npad8 - p8,
    {
        proof {
            assert(chars + Seq::new((p8 + 1) as nat, |j: int| 61u8) =~= (chars + Seq::new(
                p8 as nat,
                |j: int| 61u8,
            )).push(61u8));
        }
        out.push(61);
        p8 = p8 + 1;
    }
    proof {
        assert(out@ =~= pad_to_eight(chars));
    }
    out
}

/// Decodes padded base32 text: `None` exactly when a character before the
/// `=` padding is outside the alphabet.
pub fn base32_decode(s: &[u8]) -> (r: Option<Vec<u8>>)
    ensures
        match r {
            Option::Some(v) => spec_base32_decode(s@) == Some(v@),
            Option::None => spec_base32_decode(s@) is None,
        },
{
    let mut end: usize = s.len();
    proof {
        assert(s@.take(s@.len() as int) =~= s@);
    }
    while end > 0 && s[end - 1] == 61
        invariant
            end <= s@.len(),
            strip_pad(s@) == strip_pad(s@.take(end as int)),
        decreases end,
    {
        proof {
            assert(s@.take(end as int).drop_last() =~= s@.take(end as int - 1));
            assert(s@.take(end as int).last() == s@[end as int - 1]);
        }
        end = end - 1;
    }
    let ghost body = s@.take(end as int);
    proof {
        assert(s@.take(s@.len() as int) =~= s@);
        if end > 0 {
            assert(s@.take(end as int).last() == s@[end as int - 1]);
        }
        assert(strip_pad(body) =~= body);
    }
    let mut bits: Vec<bool> = Vec::new();
    let mut i: usize = 0;
    while i < end
        invariant
            i <= end <= s@.len(),
            body == s@.take(end as int),
            strip_pad(s@) == body,
            forall|k: int| 0 <= k < i ==> (#[trigger] b32_val(body[k])) is Some,
            bits@.len() == 5 * i,
            body_bits(body, i as int) is Some ==> body_bits(body, 0) == Some(
                bits@ + body_bits(body, i as int)->Some_0,
            ),
        decreases end - i,
    {
        let c = s[i];
        let v: u8 = if 65 <= c && c <= 90 {
            c - 65
        } else if 50 <= c && c <= 55 {
            c - 50 + 26
        } else {
            proof {
                assert(body[i as int] == c);
                lemma_body_bits_none(body, 0, i as int);
            }
            return Option::None;
        };
        let ghost old_bits = bits@;
        proof {
            assert(body[i as int] == c);
            assert(b32_val(c) == Some(v as nat));
        }
        bits.push(v / 16 % 2 == 1);
        bits.push(v / 8 % 2 == 1);
        bits.push(v / 4 % 2 == 1);
        bits.push(v / 2 % 2 == 1);
        bits.push(v % 2 == 1);
        proof {
            assert(bits@ =~= old_bits + five_bits(v as nat));
            if body_bits(body, i as int + 1) is Some {
                let suffix = body_bits(body, i as int + 1)->Some_0;
                assert(body_bits(body, i as int) == Some(five_bits(v as nat) + suffix));
                assert(old_bits + (five_bits(v as nat) + suffix) =~= (old_bits + five_bits(
                    v as nat,
                )) + suffix);
            }
        }
        i = i + 1;
    }
    proof {
        lemma_body_bits_all_valid(body, end as int);
        assert(body_bits(body, end as int) is Some);
        assert(body_bits(body, end as int)->Some_0 =~= Seq::<bool>::empty());
        lemma_body_bits_all_valid(body, 0);
        assert(body_bits(body, 0) == Some(bits@ + body_bits(body, end as int)->Some_0));
        assert(bits@ + body_bits(body, end as int)->Some_0 =~= bits@);
    }
    let nbits = bits.len();
    let ghost allb = bits@;
    let mut out: Vec<u8> = Vec::new();
    let mut q: usize = 0;
    while nbits - q >= 8
        invariant
            q <= nbits,
            q % 8 == 0,
            nbits == allb.len(),
            allb == bits@,
            nbits <= usize::MAX,
            bytes_from(allb, 0) == out@ + bytes_from(allb, q as int),
        decreases nbits - q,
    {
        let mut v: u16 = 0;
        let mut k: usize = 0;
        while k < 8
            invariant
                k <= 8,
                q + 8 <= allb.len(),
                allb == bits@,
                nbits == allb.len(),
                nbits <= usize::MAX,
                v == msb_val(allb.subrange(q as int, q as int + k as int)),
                v < 256,
            decreases 8 - k,
        {
            proof {
                assert(allb.subrange(q as int, q as int + k as int + 1) =~= allb.subrange(
                    q as int,
                    q as int + k as int,
                ).push(allb[q as int + k as int]));
                lemma_msb_val_push(
                    allb.subrange(q as int, q as int + k as int),
                    allb[q as int + k as int],
                );
                lemma_msb_val_bound(allb.subrange(q as int, q as int + k as int + 1), 8);
                assert(crate::paper::pow2(8) == 256) by {
                    assert(crate::paper::pow2(0) == 1);
                    assert(crate::paper::pow2(1) == 2);
                    assert(crate::paper::pow2(2) == 4);
                    assert(crate::paper::pow2(3) == 8);
                    assert(crate::paper::pow2(4) == 16);
                    assert(crate::paper::pow2(5) == 32);
                    assert(crate::paper::pow2(6) == 64);
                    assert(crate::paper::pow2(7) == 128);
                    assert(crate::paper::pow2(8) == 256);
                }
            }
            let bit = bits[q + k];
            v = 2 * v + (if bit {
                1
            } else {
                0
            });
            k = k + 1;
        }
        proof {
            assert(bytes_from(allb, q as int) == seq![
                msb_val(allb.subrange(q as int, q as int + 8)) as u8,
            ] + bytes_from(allb, q as int + 8));
            assert((out@ + bytes_from(allb, q as int)) =~= out@.push(
                msb_val(allb.subrange(q as int, q as int + 8)) as u8,
            ) + bytes_from(allb, q as int + 8));
        }
        out.push(v as u8);
        q = q + 8;
    }
    proof {
        assert(bytes_from(allb, q as int) =~= Seq::<u8>::empty());
        assert(out@ =~= bytes_from(allb, 0));
    }
    Option::Some(out)
}

proof fn lemma_body_bits_none(body: Seq<u8>, j: int, i: int)
    requires
        0 <= j <= i < body.len(),
        b32_val(body[i]) is None,
    ensures
        body_bits(body, j) is None,
    decreases i - j,
{
    if j < i {
        lemma_body_bits_none(body, j + 1, i);
    }
}

proof fn lemma_body_bits_all_valid(body: Seq<u8>, j: int)
    requires
        0 <= j <= body.len(),
        forall|k: int| j <= k < body.len() ==> (#[trigger] b32_val(body[k])) is Some,
    ensures
        body_bits(body, j) is Some,
    decreases body.len() - j,
{
    if j < body.len() {
        lemma_body_bits_all_valid(body, j + 1);
    }
}

} // verus!
