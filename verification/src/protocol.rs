//! The agent's request language and the wire framing: a frame is the
//! ASCII decimal byte count of the payload, a newline, then the payload.

use vstd::prelude::*;

use crate::errors::StoreError;
use crate::paths;

verus! {

use vstd::string::StringSliceAdditionalSpecFns;

/// The kinds of device key the agent can be asked to create.
#[derive(PartialEq, Eq, Structural, Clone, Copy, Debug)]
pub enum KeyType {
    Sodium,
    PaperKey,
    Yubikey,
}

/// A request to create a key.
pub struct AddKeyRequest {
    pub name: String,
    pub keytype: KeyType,
}

impl AddKeyRequest {
    pub fn new(name: String, keytype: KeyType) -> (r: Self)
        ensures
            r.name@ == name@,
            r.keytype == keytype,
    {
        AddKeyRequest { name, keytype }
    }
}

/// A request to decrypt the vault at a store path.
pub struct DecryptRequest {
    pub path: String,
}

impl DecryptRequest {
    pub fn new(path: String) -> (r: Self)
        ensures
            r.path@ == path@,
    {
        DecryptRequest { path }
    }
}

/// A request to encrypt bytes into the vault at a store path.
pub struct EncryptRequest {
    pub path: String,
    pub contents: Vec<u8>,
}

impl EncryptRequest {
    pub fn new(path: String, contents: Vec<u8>) -> (r: Self)
        ensures
            r.path@ == path@,
            r.contents@ == contents@,
    {
        EncryptRequest { path, contents }
    }
}

/// One request of a batch.
pub enum Command {
    AddKey(AddKeyRequest),
    Encrypt(EncryptRequest),
    Decrypt(DecryptRequest),
    Reload,
    Quit,
}

/// The agent's answer to one request.
pub enum Response {
    AddKey(Option<String>),
    Decrypt(Vec<u8>),
    Encrypt,
    Reload,
}

/// A message of the signing session between two devices.
pub enum Message {
    Sign(Vec<u8>),
    Decrypt(Vec<(String, Vec<u8>)>),
    Quit,
    EndSession,
}

impl Message {
    pub fn is_end_session(&self) -> (r: bool)
        ensures
            r == (self is EndSession),
    {
        match self {
            Message::EndSession => true,
            _ => false,
        }
    }
}

/// The agent's answer to a session message.
pub enum MessageResponsePayload {
    Sign(String, Vec<u8>),
    Decrypt(Vec<u8>),
    Quit,
    EndSession,
}

/// A request to sign a payload with a named private key.
pub struct SignRequest {
    pub private_key_id: String,
    pub payload: Vec<u8>,
}

impl SignRequest {
    pub fn new(private_key_id: String, payload: Vec<u8>) -> (r: Self)
        ensures
            r.private_key_id@ == private_key_id@,
            r.payload@ == payload@,
    {
        SignRequest { private_key_id, payload }
    }
}

/// A raw request of the key service: a greeting, a state drop, a stop, a
/// decryption under any of the named keys, or a signature.
pub enum Request {
    Hello,
    Clear,
    Quit,
    Decrypt(Vec<(String, Vec<u8>)>),
    Sign(SignRequest),
}

/// Whether a command may be served at all: an encrypt or decrypt whose
/// path escapes the store is refused with `PathEscape` before anything
/// runs, and a hardware-token key is `Unsupported`.
pub fn validate_command(cmd: &Command) -> (r: Result<(), StoreError>)
    ensures
        match cmd {
            Command::Encrypt(req) => match r {
                Result::Ok(u) => paths::spec_path_is_safe(vstd::utf8::encode_utf8(req.path@)),
                Result::Err(e) => e == StoreError::PathEscape && !paths::spec_path_is_safe(
                    vstd::utf8::encode_utf8(req.path@),
                ),
            },
            Command::Decrypt(req) => match r {
                Result::Ok(u) => paths::spec_path_is_safe(vstd::utf8::encode_utf8(req.path@)),
                Result::Err(e) => e == StoreError::PathEscape && !paths::spec_path_is_safe(
                    vstd::utf8::encode_utf8(req.path@),
                ),
            },
            Command::AddKey(req) => match r {
                Result::Ok(u) => req.keytype != KeyType::Yubikey,
                Result::Err(e) => e == StoreError::Unsupported && req.keytype == KeyType::Yubikey,
            },
            _ => r is Ok,
        },
{
    match cmd {
        Command::Encrypt(req) => {
            if paths::path_is_safe(req.path.as_str()) {
                Result::Ok(())
            } else {
                Result::Err(StoreError::PathEscape)
            }
        },
        Command::Decrypt(req) => {
            if paths::path_is_safe(req.path.as_str()) {
                Result::Ok(())
            } else {
                Result::Err(StoreError::PathEscape)
            }
        },
        Command::AddKey(req) => {
            match req.keytype {
                KeyType::Yubikey => Result::Err(StoreError::Unsupported),
                _ => Result::Ok(()),
            }
        },
        _ => Result::Ok(()),
    }
}

/// A zeroed buffer of the given size.
pub fn get_buffer(size: usize) -> (r: Vec<u8>)
    ensures
        r@.len() == size,
        forall|k: int| 0 <= k < size ==> r@[k] == 0,
{
    let mut buf: Vec<u8> = Vec::new();
    let mut i: usize = 0;
    while i < size
        invariant
            i <= size,
            buf@.len() == i,
            forall|k: int| 0 <= k < i ==> buf@[k] == 0,
        decreases size - i,
    {
        buf.push(0);
        i = i + 1;
    }
    buf
}

/// An ASCII decimal digit.
pub open spec fn is_digit(b: u8) -> bool {
    48 <= b <= 57
}

/// The number a string of decimal digits denotes.
pub open spec fn digits_val(s: Seq<u8>) -> int
    decreases s.len(),
{
    if s.len() == 0 {
        0
    } else {
        digits_val(s.drop_last()) * 10 + (s.last() - 48)
    }
}

/// The decimal digits of a number, most significant first.
pub open spec fn dec_digits(n: int) -> Seq<u8>
    decreases n,
{
    if n < 10 {
        seq![(48 + if n >= 0 { n } else { 0 }) as u8]
    } else {
        dec_digits(n / 10).push((48 + n % 10) as u8)
    }
}

/// Law: the decimal digits of a number denote that number, and are digits.
pub proof fn lemma_dec_digits_val(n: int)
    requires
        n >= 0,
    ensures
        digits_val(dec_digits(n)) == n,
        forall|k: int| 0 <= k < dec_digits(n).len() ==> is_digit(#[trigger] dec_digits(n)[k]),
        dec_digits(n).len() > 0,
    decreases n,
{
    if n < 10 {
        let s = dec_digits(n);
        assert(s.len() == 1);
        assert(s.drop_last().len() == 0);
        assert(digits_val(s.drop_last()) == 0);
        assert(digits_val(s) == s.last() - 48);
    } else {
        lemma_dec_digits_val(n / 10);
        let s = dec_digits(n);
        assert(s.drop_last() =~= dec_digits(n / 10));
        assert(s.last() == (48 + n % 10) as u8);
        assert forall|k: int| 0 <= k < s.len() implies is_digit(#[trigger] s[k]) by {
            if k < s.len() - 1 {
                assert(s[k] == dec_digits(n / 10)[k]);
            }
        }
        assert(digits_val(s) == digits_val(dec_digits(n / 10)) * 10 + (s.last() - 48));
        assert(digits_val(s) == (n / 10) * 10 + n % 10);
    }
}

proof fn lemma_digits_val_bounds(s: Seq<u8>)
    requires
        forall|k: int| 0 <= k < s.len() ==> is_digit(#[trigger] s[k]),
    ensures
        digits_val(s) >= 0,
    decreases s.len(),
{
    if s.len() > 0 {
        assert(forall|k: int|
            0 <= k < s.len() - 1 ==> is_digit(#[trigger] s.drop_last()[k]));
        lemma_digits_val_bounds(s.drop_last());
    }
}

proof fn lemma_digits_val_prefix(s: Seq<u8>, i: int)
    requires
        0 <= i <= s.len(),
        forall|k: int| 0 <= k < s.len() ==> is_digit(#[trigger] s[k]),
    ensures
        digits_val(s.take(i)) <= digits_val(s),
    decreases s.len() - i,
{
    if i < s.len() {
        lemma_digits_val_prefix(s, i + 1);
        assert(s.take(i + 1).drop_last() =~= s.take(i));
        assert(forall|k: int| 0 <= k < i ==> is_digit(#[trigger] s.take(i)[k]));
        lemma_digits_val_bounds(s.take(i));
        assert(digits_val(s.take(i + 1)) == digits_val(s.take(i)) * 10 + (s[i] - 48));
    } else {
        assert(s.take(i) =~= s);
    }
}

/// Parses the ASCII decimal length line of a frame: the digits' value, if
/// the line is one or more digits denoting less than `2^31`.
pub fn parse_frame_len(line: &[u8]) -> (r: Option<usize>)
    ensures
        match r {
            Option::Some(n) => line@.len() > 0 && (forall|k: int|
                0 <= k < line@.len() ==> is_digit(#[trigger] line@[k])) && n == digits_val(line@)
                && n < 0x8000_0000,
            Option::None => line@.len() == 0 || (exists|k: int|
                0 <= k < line@.len() && !is_digit(#[trigger] line@[k])) || digits_val(line@)
                >= 0x8000_0000,
        },
{
    if line.len() == 0 {
        return Option::None;
    }
    let mut val: u64 = 0;
    let mut i: usize = 0;
    proof {
        assert(line@.take(0) =~= Seq::<u8>::empty());
    }
    while i < line.len()
        invariant
            i <= line@.len(),
            forall|k: int| 0 <= k < i ==> is_digit(#[trigger] line@[k]),
            val == digits_val(line@.take(i as int)),
            val < 0x8000_0000,
        decreases line@.len() - i,
    {
        let b = line[i];
        if b < 48 || b > 57 {
            return Option::None;
        }
        proof {
            assert(line@.take(i + 1).drop_last() =~= line@.take(i as int));
            assert(line@.take(i + 1).last() == line@[i as int]);
        }
        let d = (b - 48) as u64;
        let next = val * 10 + d;
        if next >= 0x8000_0000 {
            proof {
                assert(digits_val(line@.take(i + 1)) >= 0x8000_0000);
                if forall|k: int| 0 <= k < line@.len() ==> is_digit(#[trigger] line@[k]) {
                    lemma_digits_val_prefix(line@, i + 1);
                }
            }
            return Option::None;
        }
        val = next;
        i = i + 1;
    }
    proof {
        assert(line@.take(line@.len() as int) =~= line@);
    }
    Option::Some(val as usize)
}

/// Builds a frame: the payload's byte count in ASCII decimal, a newline,
/// then the payload itself.
pub fn encode_frame(payload: &[u8]) -> (r: Vec<u8>)
    ensures
        r@ == dec_digits(payload@.len() as int) + seq![10u8] + payload@,
{
    let n = payload.len();
    let mut digits: Vec<u8> = Vec::new();
    let mut cur: usize = n;
    while cur >= 10
        invariant
            dec_digits(n as int) == dec_digits(cur as int) + digits@,
        decreases cur,
    {
        let d = (cur % 10) as u8;
        proof {
            assert(dec_digits(cur as int) == dec_digits(cur as int / 10).push((48 + (cur as int) % 10) as u8));
        }
        digits.insert(0, 48 + d);
        cur = cur / 10;
        proof {
            assert(dec_digits(n as int) =~= dec_digits(cur as int) + digits@);
        }
    }
    digits.insert(0, 48 + cur as u8);
    proof {
        assert(dec_digits(cur as int) =~= seq![(48 + cur as int) as u8]);
        assert(digits@ =~= dec_digits(n as int));
    }
    let mut out = digits;
    out.push(10);
    let mut j: usize = 0;
    while j < payload.len()
        invariant
            j <= payload@.len(),
            out@ =~= dec_digits(n as int) + seq![10u8] + payload@.take(j as int),
            n == payload@.len(),
        decreases payload@.len() - j,
    {
        out.push(payload[j]);
        j = j + 1;
    }
    proof {
        assert(payload@.take(payload@.len() as int) =~= payload@);
        assert(out@ =~= dec_digits(payload@.len() as int) + seq![10u8] + payload@);
    }
    out
}

/// Law (frame round trip): the length line a frame carries parses back to
/// the payload's length, for any payload shorter than `2^31` bytes.
pub proof fn lemma_frame_round_trip(payload: Seq<u8>)
    requires
        payload.len() < 0x8000_0000,
    ensures
        digits_val(dec_digits(payload.len() as int)) == payload.len(),
{
    lemma_dec_digits_val(payload.len() as int);
}

} // verus!
