//! Byte-sequence helpers: concatenation and lowercase hex encoding.

use vstd::prelude::*;

verus! {

use vstd::string::StringSliceAdditionalSpecFns;

/// Whether two byte slices hold the same bytes.
pub fn bytes_eq(a: &[u8], b: &[u8]) -> (r: bool)
    ensures
        r == (a@ == b@),
{
    if a.len() != b.len() {
        return false;
    }
    let mut i: usize = 0;
    while i < a.len()
        invariant
            i <= a@.len(),
            a@.len() == b@.len(),
            forall|k: int| 0 <= k < i ==> a@[k] == b@[k],
        decreases a@.len() - i,
    {
        if a[i] != b[i] {
            return false;
        }
        i = i + 1;
    }
    proof {
        assert(a@ =~= b@);
    }
    true
}

/// Whether two strings hold the same characters.
pub fn str_eq(a: &str, b: &str) -> (r: bool)
    ensures
        r == (a@ == b@),
{
    let r = bytes_eq(a.as_bytes(), b.as_bytes());
    proof {
        if a.spec_bytes() == b.spec_bytes() {
            vstd::utf8::encode_utf8_decode_utf8(a@);
            vstd::utf8::encode_utf8_decode_utf8(b@);
        }
    }
    r
}

/// The two slices, one after the other, as one vector.
pub fn concat2(a: &[u8], b: &[u8]) -> (r: Vec<u8>)
    ensures
        r@ == a@ + b@,
{
    let mut out: Vec<u8> = Vec::new();
    let mut i: usize = 0;
    while i < a.len()
        invariant
            i <= a@.len(),
            out@ =~= a@.take(i as int),
        decreases a@.len() - i,
    {
        out.push(a[i]);
        i = i + 1;
    }
    let mut j: usize = 0;
    while j < b.len()
        invariant
            j <= b@.len(),
            out@ =~= a@ + b@.take(j as int),
        decreases b@.len() - j,
    {
        out.push(b[j]);
        j = j + 1;
    }
    proof {
        assert(out@ =~= a@ + b@);
    }
    out
}

/// The three slices, one after another, as one vector.
pub fn concat3(a: &[u8], b: &[u8], c: &[u8]) -> (r: Vec<u8>)
    ensures
        r@ == a@ + b@ + c@,
{
    let ab = concat2(a, b);
    let r = concat2(ab.as_slice(), c);
    proof {
        assert(r@ =~= a@ + b@ + c@);
    }
    r
}

/// The character for one hex nibble, lowercase.
pub open spec fn hex_char_of_nibble(n: u8) -> char
    recommends
        n < 16,
{
    if n < 10 {
        ((n + 48) as u8) as char
    } else {
        ((n + 87) as u8) as char
    }
}

/// Lowercase hex encoding of a byte sequence, two characters per byte.
pub open spec fn hex_of(b: Seq<u8>) -> Seq<char>
    decreases b.len(),
{
    if b.len() == 0 {
        Seq::empty()
    } else {
        hex_of(b.drop_last()).push(hex_char_of_nibble(b.last() / 16)).push(
            hex_char_of_nibble(b.last() % 16),
        )
    }
}

pub proof fn lemma_hex_of_len(b: Seq<u8>)
    ensures
        hex_of(b).len() == 2 * b.len(),
    decreases b.len(),
{
    if b.len() > 0 {
        lemma_hex_of_len(b.drop_last());
    }
}

/// The byte for one hex nibble, lowercase.
pub open spec fn hex_digit_byte(n: u8) -> u8
    recommends
        n < 16,
{
    if n < 10 {
        (n + 48) as u8
    } else {
        (n + 87) as u8
    }
}

/// The hex encoding at the byte level: each byte becomes two digit bytes.
pub open spec fn hex_bytes_of(b: Seq<u8>) -> Seq<u8>
    decreases b.len(),
{
    if b.len() == 0 {
        Seq::empty()
    } else {
        hex_bytes_of(b.drop_last()).push(hex_digit_byte(b.last() / 16)).push(
            hex_digit_byte(b.last() % 16),
        )
    }
}

/// The hex characters of a byte string are exactly its hex digit bytes.
pub proof fn lemma_hex_of_bytes(b: Seq<u8>)
    ensures
        hex_of(b).len() == 2 * b.len(),
        hex_bytes_of(b).len() == 2 * b.len(),
        forall|i: int|
            0 <= i < 2 * b.len() ==> (#[trigger] hex_of(b)[i]) as u8 == hex_bytes_of(b)[i]
                && ((hex_of(b)[i] as u8) < 128) && hex_of(b)[i] == hex_bytes_of(b)[i] as char,
        forall|k: int|
            0 <= k < b.len() ==> #[trigger] hex_bytes_of(b)[2 * k] == hex_digit_byte(b[k] / 16)
                && hex_bytes_of(b)[2 * k + 1] == hex_digit_byte(b[k] % 16),
    decreases b.len(),
{
    if b.len() > 0 {
        lemma_hex_of_bytes(b.drop_last());
        assert(forall|i: int|
            0 <= i < 2 * b.len() - 2 ==> #[trigger] hex_of(b)[i] == hex_of(b.drop_last())[i]);
        assert(forall|i: int|
            0 <= i < 2 * b.len() - 2 ==> #[trigger] hex_bytes_of(b)[i] == hex_bytes_of(
                b.drop_last(),
            )[i]);
        assert(forall|k: int|
            0 <= k < b.len() - 1 ==> #[trigger] b.drop_last()[k] == b[k]);
        assert(b.last() == b[b.len() - 1]);
    }
}

/// Law (hex round trip): decoding the hex encoding of any byte string
/// gives the byte string back.
pub proof fn lemma_hex_round_trip(b: Seq<u8>)
    ensures
        unhex_bytes(trimmed(vstd::utf8::encode_utf8(hex_of(b)))) == Some(b),
{
    lemma_hex_of_bytes(b);
    let hb = hex_bytes_of(b);
    assert(vstd::utf8::is_ascii_chars(hex_of(b)));
    vstd::utf8::is_ascii_chars_encode_utf8(hex_of(b));
    assert(vstd::utf8::encode_utf8(hex_of(b)) =~= hb);
    assert forall|i: int| 0 <= i < hb.len() implies is_hex_digit_byte(#[trigger] hb[i]) by {
        let k = i / 2;
        if i % 2 == 0 {
            assert(i == 2 * k);
            assert(hb[2 * k] == hex_digit_byte(b[k] / 16));
        } else {
            assert(i == 2 * k + 1);
            assert(hb[2 * k] == hex_digit_byte(b[k] / 16));
            assert(hb[2 * k + 1] == hex_digit_byte(b[k] % 16));
        }
    }
    if hb.len() > 0 {
        assert(!is_ws(hb.first()));
        assert(!is_ws(hb.last()));
    }
    assert(trimmed(hb) =~= hb);
    lemma_unhex_bytes(hb);
    assert(unhex_bytes(hb) is Some);
    let r = unhex_bytes(hb)->Some_0;
    assert forall|k: int| 0 <= k < b.len() implies #[trigger] r[k] == b[k] by {
        assert(r[k] == 16 * hex_val(hb[2 * k]) + hex_val(hb[2 * k + 1]));
        assert(hb[2 * k] == hex_digit_byte(b[k] / 16));
        assert(hb[2 * k + 1] == hex_digit_byte(b[k] % 16));
    }
    assert(r =~= b);
}

/// An ASCII whitespace byte, as the hex parser strips it from the ends.
pub open spec fn is_ws(b: u8) -> bool {
    b == 32 || b == 9 || b == 10 || b == 13
}

/// An ASCII hex digit, upper or lower case.
pub open spec fn is_hex_digit_byte(b: u8) -> bool {
    (48 <= b <= 57) || (97 <= b <= 102) || (65 <= b <= 70)
}

/// The value of one hex digit byte.
pub open spec fn hex_val(b: u8) -> u8
    recommends
        is_hex_digit_byte(b),
{
    if 48 <= b <= 57 {
        (b - 48) as u8
    } else if 97 <= b <= 102 {
        (b - 87) as u8
    } else {
        (b - 55) as u8
    }
}

/// The byte sequence with ASCII whitespace stripped from both ends.
pub open spec fn trimmed(s: Seq<u8>) -> Seq<u8>
    decreases s.len(),
{
    if s.len() > 0 && is_ws(s.first()) {
        trimmed(s.drop_first())
    } else if s.len() > 0 && is_ws(s.last()) {
        trimmed(s.drop_last())
    } else {
        s
    }
}

/// Hex decoding of a byte sequence of digits: `None` on an odd length or a
/// non-digit byte, else the bytes each pair of digits denotes.
pub open spec fn unhex_bytes(s: Seq<u8>) -> Option<Seq<u8>>
    decreases s.len(),
{
    if s.len() == 0 {
        Some(Seq::empty())
    } else if s.len() == 1 {
        None
    } else if !is_hex_digit_byte(s[0]) || !is_hex_digit_byte(s[1]) {
        None
    } else {
        match unhex_bytes(s.skip(2)) {
            Option::None => Option::None,
            Option::Some(rest) => Option::Some(
                seq![(16 * hex_val(s[0]) + hex_val(s[1])) as u8] + rest,
            ),
        }
    }
}

/// What `unhex_bytes` is, pair by pair.
pub proof fn lemma_unhex_bytes(s: Seq<u8>)
    ensures
        unhex_bytes(s) is Some <==> (s.len() % 2 == 0 && forall|k: int|
            0 <= k < s.len() ==> is_hex_digit_byte(#[trigger] s[k])),
        unhex_bytes(s) is Some ==> {
            let r = unhex_bytes(s)->Some_0;
            &&& r.len() == s.len() / 2
            &&& forall|k: int|
                0 <= k < r.len() ==> #[trigger] r[k] == 16 * hex_val(s[2 * k]) + hex_val(
                    s[2 * k + 1],
                )
        },
    decreases s.len(),
{
    if s.len() >= 2 {
        lemma_unhex_bytes(s.skip(2));
        assert(forall|k: int| 0 <= k < s.len() - 2 ==> #[trigger] s.skip(2)[k] == s[k + 2]);
        if s.len() % 2 == 0 && (forall|k: int|
            0 <= k < s.len() ==> is_hex_digit_byte(#[trigger] s[k])) {
            assert(forall|k: int|
                0 <= k < s.skip(2).len() ==> is_hex_digit_byte(#[trigger] s.skip(2)[k]));
            assert(unhex_bytes(s.skip(2)) is Some);
            assert(unhex_bytes(s) is Some);
        }
        if unhex_bytes(s) is Some {
            let r = unhex_bytes(s)->Some_0;
            let rest = unhex_bytes(s.skip(2))->Some_0;
            assert(forall|k: int|
                0 <= k < s.skip(2).len() ==> is_hex_digit_byte(#[trigger] s.skip(2)[k]));
            assert(forall|k: int|
                2 <= k < s.len() ==> is_hex_digit_byte(#[trigger] s[k])) by {
                assert(forall|k: int|
                    2 <= k < s.len() ==> #[trigger] s[k] == s.skip(2)[k - 2]);
            }
            assert(r =~= seq![(16 * hex_val(s[0]) + hex_val(s[1])) as u8] + rest);
            assert(forall|k: int| 0 <= k < rest.len() ==> #[trigger] rest[k] == r[k + 1]);
            assert(r[0] == 16 * hex_val(s[0]) + hex_val(s[1]));
            assert(forall|k: int|
                1 <= k < r.len() ==> #[trigger] r[k] == 16 * hex_val(s[2 * k]) + hex_val(
                    s[2 * k + 1],
                )) by {
                assert(forall|k: int|
                    0 <= k < rest.len() ==> #[trigger] rest[k] == 16 * hex_val(s.skip(2)[2 * k])
                        + hex_val(s.skip(2)[2 * k + 1]));
                assert(forall|k: int|
                    1 <= k < r.len() ==> #[trigger] s.skip(2)[2 * (k - 1)] == s[2 * k] && s.skip(
                        2,
                    )[2 * (k - 1) + 1] == s[2 * k + 1]);
            }
        }
    }
}

/// Hex decoding of a string, whitespace at the ends ignored: `None` on an odd
/// number of digits or any byte that is not a hex digit.
pub fn unhexify(hex_string: &str) -> (r: Option<Vec<u8>>)
    ensures
        match r {
            Option::Some(v) => unhex_bytes(trimmed(hex_string.spec_bytes())) == Some(v@),
            Option::None => unhex_bytes(trimmed(hex_string.spec_bytes())) is None,
        },
{
    let bs = hex_string.as_bytes();
    let ghost all = bs@;
    let mut lo: usize = 0;
    let mut hi: usize = bs.len();
    proof {
        assert(all.subrange(0, all.len() as int) =~= all);
    }
    while lo < hi && (bs[lo] == 32 || bs[lo] == 9 || bs[lo] == 10 || bs[lo] == 13)
        invariant
            lo <= hi <= bs@.len(),
            bs@ == all,
            trimmed(all) == trimmed(all.subrange(lo as int, hi as int)),
        decreases hi - lo,
    {
        proof {
            assert(all.subrange(lo as int, hi as int).drop_first() =~= all.subrange(
                lo + 1,
                hi as int,
            ));
        }
        lo = lo + 1;
    }
    while lo < hi && (bs[hi - 1] == 32 || bs[hi - 1] == 9 || bs[hi - 1] == 10 || bs[hi - 1] == 13)
        invariant
            lo <= hi <= bs@.len(),
            bs@ == all,
            trimmed(all) == trimmed(all.subrange(lo as int, hi as int)),
            lo < hi ==> !is_ws(all.subrange(lo as int, hi as int).first()),
        decreases hi,
    {
        proof {
            assert(all.subrange(lo as int, hi as int).drop_last() =~= all.subrange(
                lo as int,
                hi - 1,
            ));
        }
        hi = hi - 1;
    }
    let ghost t = all.subrange(lo as int, hi as int);
    proof {
        assert(trimmed(t) =~= t);
        lemma_unhex_bytes(t);
    }
    if (hi - lo) % 2 != 0 {
        proof {
            assert(unhex_bytes(t) is None);
        }
        return Option::None;
    }
    let mut out: Vec<u8> = Vec::new();
    let mut i: usize = lo;
    while i < hi
        invariant
            lo <= i <= hi <= bs@.len(),
            bs@ == all,
            all == hex_string.spec_bytes(),
            t == all.subrange(lo as int, hi as int),
            trimmed(all) == t,
            (i - lo) % 2 == 0,
            (hi - lo) % 2 == 0,
            out@.len() == (i - lo) / 2,
            forall|k: int| 0 <= k < i - lo ==> is_hex_digit_byte(#[trigger] t[k]),
            forall|k: int|
                0 <= k < out@.len() ==> #[trigger] out@[k] == 16 * hex_val(t[2 * k]) + hex_val(
                    t[2 * k + 1],
                ),
        decreases hi - i,
    {
        let b0 = bs[i];
        let b1 = bs[i + 1];
        let v0: u8 = if 48 <= b0 && b0 <= 57 {
            b0 - 48
        } else if 97 <= b0 && b0 <= 102 {
            b0 - 87
        } else if 65 <= b0 && b0 <= 70 {
            b0 - 55
        } else {
            proof {
                lemma_unhex_bytes(t);
                assert(t[i - lo] == b0);
                assert(!is_hex_digit_byte(t[i - lo]));
                assert(!(forall|k: int| 0 <= k < t.len() ==> is_hex_digit_byte(#[trigger] t[k])));
                assert(unhex_bytes(t) is None);
            }
            return Option::None;
        };
        let v1: u8 = if 48 <= b1 && b1 <= 57 {
            b1 - 48
        } else if 97 <= b1 && b1 <= 102 {
            b1 - 87
        } else if 65 <= b1 && b1 <= 70 {
            b1 - 55
        } else {
            proof {
                lemma_unhex_bytes(t);
                assert(t[i + 1 - lo] == b1);
                assert(!is_hex_digit_byte(t[i + 1 - lo]));
                assert(!(forall|k: int| 0 <= k < t.len() ==> is_hex_digit_byte(#[trigger] t[k])));
                assert(unhex_bytes(t) is None);
            }
            return Option::None;
        };
        out.push(16 * v0 + v1);
        i = i + 2;
    }
    proof {
        lemma_unhex_bytes(t);
        let r = unhex_bytes(t)->Some_0;
        assert(out@ =~= r);
    }
    Option::Some(out)
}

/// Relies on String::from_utf8: a vector of ASCII bytes decodes to the
/// string whose characters are exactly those bytes.
#[verifier::external_body]
fn ascii_to_string(bytes: Vec<u8>) -> (r: String)
    requires
        forall|i: int| 0 <= i < bytes@.len() ==> bytes@[i] < 128,
    ensures
        r@.len() == bytes@.len(),
        forall|i: int| 0 <= i < bytes@.len() ==> r@[i] == bytes@[i] as char,
{
    String::from_utf8(bytes).unwrap_or_default()
}

/// Lowercase hex encoding of a byte slice.
pub fn hexify(bytes: &[u8]) -> (r: String)
    ensures
        r@ == hex_of(bytes@),
        r@.len() == 2 * bytes@.len(),
{
    let mut out: Vec<u8> = Vec::new();
    let mut i: usize = 0;
    proof {
        assert(bytes@.take(0) =~= Seq::<u8>::empty());
    }
    while i < bytes.len()
        invariant
            i <= bytes@.len(),
            out@.len() == 2 * i,
            out@.len() == hex_of(bytes@.take(i as int)).len(),
            forall|k: int|
                0 <= k < out@.len() ==> out@[k] < 128 && #[trigger] out@[k] as char == hex_of(
                    bytes@.take(i as int),
                )[k],
        decreases bytes@.len() - i,
    {
        let b = bytes[i];
        let hi = b / 16;
        let lo = b % 16;
        let hi_c: u8 = if hi < 10 {
            hi + 48
        } else {
            hi + 87
        };
        let lo_c: u8 = if lo < 10 {
            lo + 48
        } else {
            lo + 87
        };
        proof {
            lemma_hex_of_len(bytes@.take(i as int));
            lemma_hex_of_len(bytes@.take(i + 1));
            assert(bytes@.take(i + 1).drop_last() =~= bytes@.take(i as int));
            assert(bytes@.take(i + 1).last() == bytes@[i as int]);
        }
        out.push(hi_c);
        out.push(lo_c);
        i = i + 1;
    }
    proof {
        assert(bytes@.take(bytes@.len() as int) =~= bytes@);
        lemma_hex_of_len(bytes@);
    }
    let r = ascii_to_string(out);
    proof {
        assert(r@ =~= hex_of(bytes@));
    }
    r
}

} // verus!
