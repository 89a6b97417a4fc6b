//! The keychain log: an append-only, hash-linked chain of key events.
//! Verifying a chain against a recorded head digest yields the set of
//! trusted device keys at that head.

use vstd::prelude::*;

use crate::crypto;
use crate::util;

verus! {

use vstd::string::StringSliceAdditionalSpecFns;
use crate::crypto::{hash_of, sig_verifies, sig_of};

/// The byte content of a device id or other string, as UTF-8.
pub open spec fn str_bytes(s: Seq<char>) -> Seq<u8> {
    vstd::utf8::encode_utf8(s)
}

/// The mathematical content of a public key: its two key byte strings.
pub ghost struct GKey {
    pub enc: Seq<u8>,
    pub sign: Seq<u8>,
}

/// A device's public key material: one key for sealed encryption and one
/// for detached signatures.
pub struct SodiumKey {
    pub enc_key: Vec<u8>,
    pub sign_key: Vec<u8>,
}

/// A public key, by kind.
pub enum PublicKey {
    Sodium(SodiumKey),
}

/// A public key together with the device id that owns it.
pub struct PublicKeyWrapper {
    pub device_id: String,
    pub key: PublicKey,
}

/// A keychain event: a key joins, asks to join, or is revoked.
pub enum KeyEvent {
    NewKey(PublicKeyWrapper),
    KeySignRequest(PublicKeyWrapper),
    KeyRevoke(PublicKeyWrapper),
}

/// Who signed a chain link, and the signature bytes.
pub struct KeyEventSignature {
    pub signing_key_id: String,
    pub payload: Vec<u8>,
}

/// One link of the keychain: the digest of its parent, the event, and a
/// signature over both.
pub struct ChainLink {
    pub parent: Vec<u8>,
    pub event: KeyEvent,
    pub signature: KeyEventSignature,
}

/// The keychain log itself.
pub struct KeyChain {
    pub chain: Vec<ChainLink>,
}

/// A detached signature over a public key, named by the hash of the signing
/// key.
pub struct KeySignature {
    pub key_hash: String,
    pub payload: Vec<u8>,
}

impl KeySignature {
    pub fn new(key_hash: String, payload: Vec<u8>) -> (r: Self)
        ensures
            r.key_hash@ == key_hash@,
            r.payload@ == payload@,
    {
        KeySignature { key_hash, payload }
    }
}

/// The mathematical content of a public key.
pub open spec fn key_view(k: PublicKey) -> GKey {
    match k {
        PublicKey::Sodium(s) => GKey { enc: s.enc_key@, sign: s.sign_key@ },
    }
}

/// A key whose byte strings have the lengths the primitives expect.
pub open spec fn key_wf(k: PublicKey) -> bool {
    gkey_wf(key_view(k))
}

/// Key material whose byte strings have the lengths the primitives expect.
pub open spec fn gkey_wf(k: GKey) -> bool {
    &&& k.enc.len() == crypto::BOX_PK_LEN
    &&& k.sign.len() == crypto::SIGN_PK_LEN
}

/// The tag bytes `"sodium"`.
pub open spec fn tag_sodium() -> Seq<u8> {
    seq![115u8, 111u8, 100u8, 105u8, 117u8, 109u8]
}

/// The tag bytes `"new"`.
pub open spec fn tag_new() -> Seq<u8> {
    seq![110u8, 101u8, 119u8]
}

/// The tag bytes `"sign"`.
pub open spec fn tag_sign() -> Seq<u8> {
    seq![115u8, 105u8, 103u8, 110u8]
}

/// The tag bytes `"revoke"`.
pub open spec fn tag_revoke() -> Seq<u8> {
    seq![114u8, 101u8, 118u8, 111u8, 107u8, 101u8]
}

/// The digest of a public key: `H("sodium" ∥ H(enc_key ∥ sign_key))`.
pub open spec fn spec_key_digest(k: GKey) -> Seq<u8> {
    hash_of(tag_sodium() + hash_of(k.enc + k.sign))
}

/// The digest of a wrapped key: `H(device_id ∥ H(key))`.
pub open spec fn spec_wrap_digest(w: PublicKeyWrapper) -> Seq<u8> {
    hash_of(str_bytes(w.device_id@) + spec_key_digest(key_view(w.key)))
}

/// The wrapped key inside an event.
pub open spec fn event_wrap(e: KeyEvent) -> PublicKeyWrapper {
    match e {
        KeyEvent::NewKey(w) => w,
        KeyEvent::KeySignRequest(w) => w,
        KeyEvent::KeyRevoke(w) => w,
    }
}

/// The digest of an event: `H(tag ∥ H(wrap))`.
pub open spec fn spec_event_digest(e: KeyEvent) -> Seq<u8> {
    match e {
        KeyEvent::NewKey(w) => hash_of(tag_new() + spec_wrap_digest(w)),
        KeyEvent::KeySignRequest(w) => hash_of(tag_sign() + spec_wrap_digest(w)),
        KeyEvent::KeyRevoke(w) => hash_of(tag_revoke() + spec_wrap_digest(w)),
    }
}

/// The digest of a link signature: `H(signing_key_id ∥ sig_bytes)`.
pub open spec fn spec_sig_digest(s: KeyEventSignature) -> Seq<u8> {
    hash_of(str_bytes(s.signing_key_id@) + s.payload@)
}

/// The digest of a whole link: `H(parent ∥ H(event) ∥ H(signature))`.
pub open spec fn spec_link_digest(l: ChainLink) -> Seq<u8> {
    hash_of(l.parent@ + spec_event_digest(l.event) + spec_sig_digest(l.signature))
}

/// What a link's signature must cover: `H(parent ∥ H(event))`.
pub open spec fn spec_sig_payload(l: ChainLink) -> Seq<u8> {
    hash_of(l.parent@ + spec_event_digest(l.event))
}

/// The digest of a chain: that of its last link, or empty.
pub open spec fn spec_chain_digest(chain: Seq<ChainLink>) -> Seq<u8> {
    if chain.len() == 0 {
        Seq::empty()
    } else {
        spec_link_digest(chain.last())
    }
}

/// Whether a signature checks out over a message under a key, as the
/// executable check computes it: the right lengths, and the primitive
/// accepts.
pub open spec fn spec_verify_sig(sig: Seq<u8>, msg: Seq<u8>, k: GKey) -> bool {
    &&& sig.len() == crypto::SIG_LEN
    &&& k.sign.len() == crypto::SIGN_PK_LEN
    &&& sig_verifies(sig, msg, k.sign)
}

fn tag_sodium_bytes() -> (r: Vec<u8>)
    ensures
        r@ == tag_sodium(),
{
    let mut v: Vec<u8> = Vec::new();
    v.push(115);
    v.push(111);
    v.push(100);
    v.push(105);
    v.push(117);
    v.push(109);
    proof {
        assert(v@ =~= tag_sodium());
    }
    v
}

fn tag_new_bytes() -> (r: Vec<u8>)
    ensures
        r@ == tag_new(),
{
    let mut v: Vec<u8> = Vec::new();
    v.push(110);
    v.push(101);
    v.push(119);
    proof {
        assert(v@ =~= tag_new());
    }
    v
}

fn tag_sign_bytes() -> (r: Vec<u8>)
    ensures
        r@ == tag_sign(),
{
    let mut v: Vec<u8> = Vec::new();
    v.push(115);
    v.push(105);
    v.push(103);
    v.push(110);
    proof {
        assert(v@ =~= tag_sign());
    }
    v
}

fn tag_revoke_bytes() -> (r: Vec<u8>)
    ensures
        r@ == tag_revoke(),
{
    let mut v: Vec<u8> = Vec::new();
    v.push(114);
    v.push(101);
    v.push(118);
    v.push(111);
    v.push(107);
    v.push(101);
    proof {
        assert(v@ =~= tag_revoke());
    }
    v
}

impl SodiumKey {
    /// The digest of the raw key bytes: `H(enc_key ∥ sign_key)`.
    pub fn get_digest(&self) -> (r: Vec<u8>)
        ensures
            r@ == hash_of(self.enc_key@ + self.sign_key@),
    {
        let joined = util::concat2(self.enc_key.as_slice(), self.sign_key.as_slice());
        crypto::hash_bytes(joined.as_slice())
    }
}

impl PublicKey {
    /// A copy of the key with the same content.
    pub fn duplicate(&self) -> (r: PublicKey)
        ensures
            key_view(r) == key_view(*self),
    {
        match self {
            PublicKey::Sodium(s) => {
                let enc_key = s.enc_key.clone();
                let sign_key = s.sign_key.clone();
                proof {
                    assert(enc_key@ =~= s.enc_key@);
                    assert(sign_key@ =~= s.sign_key@);
                }
                PublicKey::Sodium(SodiumKey { enc_key, sign_key })
            },
        }
    }

    /// The digest of the key: `H("sodium" ∥ H(enc_key ∥ sign_key))`.
    pub fn get_digest(&self) -> (r: Vec<u8>)
        ensures
            r@ == spec_key_digest(key_view(*self)),
    {
        match self {
            PublicKey::Sodium(skey) => {
                let tag = tag_sodium_bytes();
                let inner = skey.get_digest();
                let joined = util::concat2(tag.as_slice(), inner.as_slice());
                crypto::hash_bytes(joined.as_slice())
            },
        }
    }

    /// Whether `payload` is a signature by this key over `expected`.
    pub fn verify(&self, payload: &[u8], expected: &[u8]) -> (r: bool)
        ensures
            r == spec_verify_sig(payload@, expected@, key_view(*self)),
    {
        match self {
            PublicKey::Sodium(skey) => {
                if payload.len() != crypto::SIG_LEN || skey.sign_key.len() != crypto::SIGN_PK_LEN {
                    false
                } else {
                    crypto::verify_detached_bytes(payload, expected, skey.sign_key.as_slice())
                }
            },
        }
    }

    /// Seals a message to this key.
    pub fn encrypt(&self, payload: &[u8]) -> (r: Vec<u8>)
        requires
            key_wf(*self),
        ensures
            r@.len() == payload@.len() + crypto::SEAL_OVERHEAD,
            forall|sk: Seq<u8>|
                crypto::box_pk_of(sk) == key_view(*self).enc ==> crypto::sealed_box_open_of(
                    r@,
                    key_view(*self).enc,
                    sk,
                ) == Some(payload@),
    {
        match self {
            PublicKey::Sodium(skey) => crypto::sealed_box_seal(payload, skey.enc_key.as_slice()),
        }
    }
}

impl PublicKeyWrapper {
    /// A copy of the wrapper with the same content.
    pub fn duplicate(&self) -> (r: PublicKeyWrapper)
        ensures
            r.device_id@ == self.device_id@,
            key_view(r.key) == key_view(self.key),
    {
        PublicKeyWrapper { device_id: self.device_id.clone(), key: self.key.duplicate() }
    }

    /// The digest of the wrapped key: `H(device_id ∥ H(key))`.
    pub fn get_digest(&self) -> (r: Vec<u8>)
        ensures
            r@ == spec_wrap_digest(*self),
    {
        let key_digest = self.key.get_digest();
        let joined = util::concat2(self.device_id.as_str().as_bytes(), key_digest.as_slice());
        crypto::hash_bytes(joined.as_slice())
    }

    /// Whether `payload` is a signature by the wrapped key over `expected`.
    pub fn verify(&self, payload: &[u8], expected: &[u8]) -> (r: bool)
        ensures
            r == spec_verify_sig(payload@, expected@, key_view(self.key)),
    {
        self.key.verify(payload, expected)
    }

    /// Seals a message to the wrapped key.
    pub fn encrypt(&self, payload: &[u8]) -> (r: Vec<u8>)
        requires
            key_wf(self.key),
        ensures
            r@.len() == payload@.len() + crypto::SEAL_OVERHEAD,
            forall|sk: Seq<u8>|
                crypto::box_pk_of(sk) == key_view(self.key).enc ==> crypto::sealed_box_open_of(
                    r@,
                    key_view(self.key).enc,
                    sk,
                ) == Some(payload@),
    {
        self.key.encrypt(payload)
    }
}

impl KeyEvent {
    /// The wrapped key the event speaks of.
    pub fn get_wrap(&self) -> (r: &PublicKeyWrapper)
        ensures
            *r == event_wrap(*self),
    {
        match self {
            KeyEvent::NewKey(w) => w,
            KeyEvent::KeySignRequest(w) => w,
            KeyEvent::KeyRevoke(w) => w,
        }
    }

    /// The digest of the event: `H(tag ∥ H(wrap))`.
    pub fn get_digest(&self) -> (r: Vec<u8>)
        ensures
            r@ == spec_event_digest(*self),
    {
        match self {
            KeyEvent::NewKey(w) => {
                let tag = tag_new_bytes();
                let wd = w.get_digest();
                let joined = util::concat2(tag.as_slice(), wd.as_slice());
                crypto::hash_bytes(joined.as_slice())
            },
            KeyEvent::KeySignRequest(w) => {
                let tag = tag_sign_bytes();
                let wd = w.get_digest();
                let joined = util::concat2(tag.as_slice(), wd.as_slice());
                crypto::hash_bytes(joined.as_slice())
            },
            KeyEvent::KeyRevoke(w) => {
                let tag = tag_revoke_bytes();
                let wd = w.get_digest();
                let joined = util::concat2(tag.as_slice(), wd.as_slice());
                crypto::hash_bytes(joined.as_slice())
            },
        }
    }
}

impl KeyEventSignature {
    /// The digest of the signature: `H(signing_key_id ∥ sig_bytes)`.
    pub fn get_digest(&self) -> (r: Vec<u8>)
        ensures
            r@ == spec_sig_digest(*self),
    {
        let joined = util::concat2(self.signing_key_id.as_str().as_bytes(), self.payload.as_slice());
        crypto::hash_bytes(joined.as_slice())
    }
}

/// The map a sequence of (id, key) entries denotes; a later entry for the
/// same id wins.
pub open spec fn map_of_entries(s: Seq<(String, PublicKey)>) -> Map<Seq<char>, GKey>
    decreases s.len(),
{
    if s.len() == 0 {
        Map::empty()
    } else {
        map_of_entries(s.drop_last()).insert(s.last().0@, key_view(s.last().1))
    }
}

/// The entries with a given id taken out.
pub open spec fn entries_without(s: Seq<(String, PublicKey)>, id: Seq<char>) -> Seq<
    (String, PublicKey),
>
    decreases s.len(),
{
    if s.len() == 0 {
        s
    } else if s.last().0@ == id {
        entries_without(s.drop_last(), id)
    } else {
        entries_without(s.drop_last(), id).push(s.last())
    }
}

proof fn lemma_entries_without(s: Seq<(String, PublicKey)>, id: Seq<char>)
    ensures
        map_of_entries(entries_without(s, id)) == map_of_entries(s).remove(id),
    decreases s.len(),
{
    if s.len() == 0 {
        assert(map_of_entries(s).remove(id) =~= Map::empty());
    } else {
        lemma_entries_without(s.drop_last(), id);
        if s.last().0@ == id {
            assert(map_of_entries(s).remove(id) =~= map_of_entries(s.drop_last()).remove(id));
        } else {
            let e = entries_without(s.drop_last(), id).push(s.last());
            assert(entries_without(s, id) == e);
            assert(e.drop_last() =~= entries_without(s.drop_last(), id));
            assert(map_of_entries(e) == map_of_entries(entries_without(s.drop_last(), id)).insert(
                s.last().0@,
                key_view(s.last().1),
            ));
            assert(map_of_entries(s).remove(id) =~= map_of_entries(s.drop_last()).remove(
                id,
            ).insert(s.last().0@, key_view(s.last().1)));
        }
    }
}

proof fn lemma_map_of_absent(s: Seq<(String, PublicKey)>, id: Seq<char>)
    requires
        forall|k: int| 0 <= k < s.len() ==> (#[trigger] s[k]).0@ != id,
    ensures
        !map_of_entries(s).contains_key(id),
    decreases s.len(),
{
    if s.len() > 0 {
        assert(forall|k: int|
            0 <= k < s.len() - 1 ==> (#[trigger] s.drop_last()[k]).0@ != id);
        lemma_map_of_absent(s.drop_last(), id);
    }
}

proof fn lemma_map_of_last_match(s: Seq<(String, PublicKey)>, id: Seq<char>, m: int)
    requires
        0 <= m < s.len(),
        s[m].0@ == id,
        forall|k: int| m < k < s.len() ==> (#[trigger] s[k]).0@ != id,
    ensures
        map_of_entries(s).contains_key(id),
        map_of_entries(s)[id] == key_view(s[m].1),
    decreases s.len(),
{
    if m == s.len() - 1 {
    } else {
        assert(s.drop_last()[m] == s[m]);
        lemma_map_of_last_match(s.drop_last(), id, m);
    }
}

/// Whether a list of names holds no id twice.
pub open spec fn names_distinct(names: Seq<String>) -> bool {
    forall|i: int, j: int|
        0 <= i < j < names.len() ==> (#[trigger] names[i])@ != (#[trigger] names[j])@
}

/// Whether a list of names holds exactly the ids of a trusted-key map,
/// each at least once.
pub open spec fn names_cover(names: Seq<String>, t: Map<Seq<char>, GKey>) -> bool {
    &&& forall|k: int| 0 <= k < names.len() ==> t.contains_key((#[trigger] names[k])@)
    &&& forall|id: Seq<char>|
        t.contains_key(id) ==> exists|k: int| 0 <= k < names.len() && (#[trigger] names[k])@ == id
}

/// The set of trusted keys, as device id to public key.
pub struct TrustedKeys {
    entries: Vec<(String, PublicKey)>,
}

impl TrustedKeys {
    /// The map this set denotes.
    pub closed spec fn view(&self) -> Map<Seq<char>, GKey> {
        map_of_entries(self.entries@)
    }

    /// The empty set.
    pub fn new() -> (r: TrustedKeys)
        ensures
            r@ == Map::<Seq<char>, GKey>::empty(),
    {
        let r = TrustedKeys { entries: Vec::new() };
        proof {
            assert(r@ =~= Map::<Seq<char>, GKey>::empty());
        }
        r
    }

    /// Adds a key under an id, replacing any key that id had.
    pub fn insert(&mut self, id: String, key: PublicKey)
        ensures
            final(self)@ == old(self)@.insert(id@, key_view(key)),
    {
        self.entries.push((id, key));
        proof {
            assert(self.entries@.drop_last() =~= old(self).entries@);
        }
    }

    /// Takes the key of an id out, if it is there.
    pub fn remove(&mut self, id: &str)
        ensures
            final(self)@ == old(self)@.remove(id@),
    {
        let ghost old_entries = self.entries@;
        let mut kept: Vec<(String, PublicKey)> = Vec::new();
        let mut i: usize = 0;
        proof {
            assert(old_entries.take(0) =~= Seq::<(String, PublicKey)>::empty());
        }
        while i < self.entries.len()
            invariant
                i <= self.entries@.len(),
                self.entries@ == old_entries,
                ({
                    let w = entries_without(old_entries.take(i as int), id@);
                    &&& kept@.len() == w.len()
                    &&& forall|k: int|
                        0 <= k < w.len() ==> (#[trigger] kept@[k]).0@ == w[k].0@ && key_view(
                            kept@[k].1,
                        ) == key_view(w[k].1)
                }),
            decreases self.entries@.len() - i,
        {
            proof {
                assert(old_entries.take(i + 1).drop_last() =~= old_entries.take(i as int));
                assert(old_entries.take(i + 1).last() == old_entries[i as int]);
            }
            let e = &self.entries[i];
            if !util::str_eq(e.0.as_str(), id) {
                kept.push((e.0.clone(), e.1.duplicate()));
                proof {
                    let w0 = entries_without(old_entries.take(i as int), id@);
                    let w1 = entries_without(old_entries.take(i + 1), id@);
                    assert(w1 == w0.push(old_entries[i as int]));
                    assert(forall|k: int| 0 <= k < w0.len() ==> #[trigger] w1[k] == w0[k]);
                    assert(kept@.last().0@ == old_entries[i as int].0@);
                    assert(key_view(kept@.last().1) == key_view(old_entries[i as int].1));
                }
            }
            i = i + 1;
        }
        proof {
            assert(old_entries.take(old_entries.len() as int) =~= old_entries);
            let w = entries_without(old_entries, id@);
            lemma_map_of_entries_congruent(kept@, w);
            lemma_entries_without(old_entries, id@);
        }
        self.entries = kept;
    }

    /// The key of an id, if it is there.
    pub fn get(&self, id: &str) -> (r: Option<&PublicKey>)
        ensures
            match r {
                Option::Some(k) => self@.contains_key(id@) && key_view(*k) == self@[id@],
                Option::None => !self@.contains_key(id@),
            },
    {
        let mut i: usize = self.entries.len();
        while i > 0
            invariant
                i <= self.entries@.len(),
                forall|k: int|
                    i <= k < self.entries@.len() ==> (#[trigger] self.entries@[k]).0@ != id@,
            decreases i,
        {
            i = i - 1;
            let e = &self.entries[i];
            if util::str_eq(e.0.as_str(), id) {
                proof {
                    lemma_map_of_last_match(self.entries@, id@, i as int);
                }
                return Option::Some(&e.1);
            }
        }
        proof {
            lemma_map_of_absent(self.entries@, id@);
        }
        Option::None
    }

    /// Whether an id has a key in the set.
    pub fn contains_key(&self, id: &str) -> (r: bool)
        ensures
            r == self@.contains_key(id@),
    {
        match self.get(id) {
            Option::Some(_) => true,
            Option::None => false,
        }
    }

    /// The device ids of the set, each once, in the set's own order.
    pub fn key_names(&self) -> (r: Vec<String>)
        ensures
            names_cover(r@, self@),
            names_distinct(r@),
    {
        let mut out: Vec<String> = Vec::new();
        let mut i: usize = 0;
        while i < self.entries.len()
            invariant
                i <= self.entries@.len(),
                forall|k: int| 0 <= k < out@.len() ==> self@.contains_key((#[trigger] out@[k])@),
                names_distinct(out@),
                forall|k: int|
                    0 <= k < i ==> exists|j: int|
                        0 <= j < out@.len() && (#[trigger] out@[j])@
                            == (#[trigger] self.entries@[k]).0@,
            decreases self.entries@.len() - i,
        {
            let e = &self.entries[i];
            if contains_name(&out, e.0.as_str()) {
                proof {
                    assert(exists|j: int|
                        0 <= j < out@.len() && (#[trigger] out@[j])@
                            == (self.entries@[i as int]).0@);
                }
            } else {
                proof {
                    lemma_map_of_contains_entry(self.entries@, i as int);
                }
                let ghost prev_out = out@;
                out.push(e.0.clone());
                proof {
                    assert forall|k: int| 0 <= k < i implies exists|j: int|
                        0 <= j < out@.len() && (#[trigger] out@[j])@
                            == (#[trigger] self.entries@[k]).0@ by {
                        let j0 = choose|j: int|
                            0 <= j < prev_out.len() && (#[trigger] prev_out[j])@
                                == (self.entries@[k]).0@;
                        assert(out@[j0]@ == (self.entries@[k]).0@);
                    }
                    assert(out@[out@.len() - 1]@ == (self.entries@[i as int]).0@);
                }
            }
            i = i + 1;
        }
        proof {
            lemma_map_of_domain(self.entries@);
        }
        out
    }
}

/// Whether some string of the vector holds the given characters.
fn contains_name(v: &Vec<String>, name: &str) -> (r: bool)
    ensures
        r == exists|k: int| 0 <= k < v@.len() && (#[trigger] v@[k])@ == name@,
{
    let mut i: usize = 0;
    while i < v.len()
        invariant
            i <= v@.len(),
            forall|k: int| 0 <= k < i ==> (#[trigger] v@[k])@ != name@,
        decreases v@.len() - i,
    {
        if util::str_eq(v[i].as_str(), name) {
            return true;
        }
        i = i + 1;
    }
    false
}

/// Two entry sequences of the same ids and key contents denote one map.
proof fn lemma_map_of_entries_congruent(a: Seq<(String, PublicKey)>, b: Seq<(String, PublicKey)>)
    requires
        a.len() == b.len(),
        forall|k: int|
            0 <= k < a.len() ==> (#[trigger] a[k]).0@ == b[k].0@ && key_view(a[k].1) == key_view(
                b[k].1,
            ),
    ensures
        map_of_entries(a) == map_of_entries(b),
    decreases a.len(),
{
    if a.len() > 0 {
        assert(forall|k: int|
            0 <= k < a.len() - 1 ==> (#[trigger] a.drop_last()[k]).0@ == b.drop_last()[k].0@
                && key_view(a.drop_last()[k].1) == key_view(b.drop_last()[k].1));
        lemma_map_of_entries_congruent(a.drop_last(), b.drop_last());
        assert(map_of_entries(a) =~= map_of_entries(b));
    } else {
        assert(map_of_entries(a) =~= map_of_entries(b));
    }
}

proof fn lemma_map_of_contains_entry(s: Seq<(String, PublicKey)>, i: int)
    requires
        0 <= i < s.len(),
    ensures
        map_of_entries(s).contains_key(s[i].0@),
    decreases s.len(),
{
    if i == s.len() - 1 {
    } else {
        assert(s.drop_last()[i] == s[i]);
        lemma_map_of_contains_entry(s.drop_last(), i);
    }
}

proof fn lemma_map_of_domain(s: Seq<(String, PublicKey)>)
    ensures
        forall|id: Seq<char>|
            map_of_entries(s).contains_key(id) ==> exists|k: int|
                0 <= k < s.len() && (#[trigger] s[k]).0@ == id,
    decreases s.len(),
{
    if s.len() > 0 {
        lemma_map_of_domain(s.drop_last());
        assert forall|id: Seq<char>| map_of_entries(s).contains_key(id) implies exists|k: int|
            0 <= k < s.len() && (#[trigger] s[k]).0@ == id by {
            if id == s.last().0@ {
                assert(s[s.len() - 1].0@ == id);
            } else {
                assert(map_of_entries(s.drop_last()).contains_key(id));
                let k = choose|k: int|
                    0 <= k < s.drop_last().len() && (#[trigger] s.drop_last()[k]).0@ == id;
                assert(s[k].0@ == id);
            }
        }
    }
}

impl ChainLink {
    /// The digest of the whole link: `H(parent ∥ H(event) ∥ H(signature))`.
    pub fn get_digest(&self) -> (r: Vec<u8>)
        ensures
            r@ == spec_link_digest(*self),
    {
        let ed = self.event.get_digest();
        let sd = self.signature.get_digest();
        let joined = util::concat3(self.parent.as_slice(), ed.as_slice(), sd.as_slice());
        crypto::hash_bytes(joined.as_slice())
    }

    /// What this link's signature must cover: `H(parent ∥ H(event))`.
    pub fn get_sig_payload(&self) -> (r: Vec<u8>)
        ensures
            r@ == spec_sig_payload(*self),
    {
        let ed = self.event.get_digest();
        let joined = util::concat2(self.parent.as_slice(), ed.as_slice());
        crypto::hash_bytes(joined.as_slice())
    }
}

/// One event applied to a trusted-key map: `NewKey` adds, `KeyRevoke`
/// removes, `KeySignRequest` changes nothing.
pub open spec fn apply_event(m: Map<Seq<char>, GKey>, e: KeyEvent) -> Map<Seq<char>, GKey> {
    match e {
        KeyEvent::NewKey(w) => m.insert(w.device_id@, key_view(w.key)),
        KeyEvent::KeySignRequest(w) => m,
        KeyEvent::KeyRevoke(w) => m.remove(w.device_id@),
    }
}

/// The trusted keys after the first `n` links of the chain.
pub open spec fn trusted_after(chain: Seq<ChainLink>, n: int) -> Map<Seq<char>, GKey>
    decreases n,
{
    if n <= 0 {
        Map::empty()
    } else {
        apply_event(trusted_after(chain, n - 1), chain[n - 1].event)
    }
}

/// Whether link `i` of the chain is in order: its parent is the digest of
/// the link before it (empty for the genesis link), and its signature
/// verifies under a signer the chain trusts at that point. The genesis
/// link is a `NewKey`, self-signed by its own new key. A revoke may not be
/// signed by the key it revokes, and a sign request is only allowed as the
/// last link when merging, never as the genesis.
pub open spec fn spec_link_ok(chain: Seq<ChainLink>, i: int, is_merge: bool) -> bool
    recommends
        0 <= i < chain.len(),
{
    let l = chain[i];
    let before = trusted_after(chain, i);
    &&& (i > 0 ==> l.parent@ == spec_link_digest(chain[i - 1]))
    &&& (i == 0 ==> l.parent@.len() == 0)
    &&& match l.event {
        KeyEvent::NewKey(w) => {
            let signer = if i == 0 {
                key_view(w.key)
            } else {
                before[l.signature.signing_key_id@]
            };
            &&& (i != 0 ==> before.contains_key(l.signature.signing_key_id@))
            &&& spec_verify_sig(l.signature.payload@, spec_sig_payload(l), signer)
        },
        KeyEvent::KeyRevoke(w) => {
            &&& before.contains_key(l.signature.signing_key_id@)
            &&& l.signature.signing_key_id@ != w.device_id@
            &&& spec_verify_sig(
                l.signature.payload@,
                spec_sig_payload(l),
                before[l.signature.signing_key_id@],
            )
        },
        KeyEvent::KeySignRequest(w) => {
            &&& is_merge
            &&& i != 0
            &&& i == chain.len() - 1
            &&& spec_verify_sig(l.signature.payload@, spec_sig_payload(l), key_view(w.key))
        },
    }
}

/// Whether a whole chain verifies against a head digest: it is nonempty,
/// every link is in order, some link's digest equals the head, and outside
/// merge mode the head is the digest of the last link.
pub open spec fn spec_chain_ok(chain: Seq<ChainLink>, head: Seq<u8>, is_merge: bool) -> bool {
    &&& chain.len() > 0
    &&& (!is_merge ==> head == spec_link_digest(chain.last()))
    &&& (forall|i: int| 0 <= i < chain.len() ==> spec_link_ok(chain, i, is_merge))
    &&& (exists|i: int| 0 <= i < chain.len() && spec_link_digest(chain[i]) == head)
}

impl KeyChain {
    /// The empty keychain.
    pub fn new() -> (r: KeyChain)
        ensures
            r.chain@.len() == 0,
    {
        KeyChain { chain: Vec::new() }
    }

    /// Whether the chain has no links.
    pub fn is_empty(&self) -> (r: bool)
        ensures
            r == (self.chain@.len() == 0),
    {
        self.chain.len() == 0
    }

    /// The digest of the chain: that of its last link, or empty.
    pub fn get_digest(&self) -> (r: Vec<u8>)
        ensures
            r@ == spec_chain_digest(self.chain@),
    {
        if self.chain.len() == 0 {
            let r: Vec<u8> = Vec::new();
            proof {
                assert(r@ =~= Seq::<u8>::empty());
            }
            r
        } else {
            self.chain[self.chain.len() - 1].get_digest()
        }
    }

    /// Whether a device id belongs to the trusted set at the head of this
    /// chain: a `NewKey` link grants it, a later `KeyRevoke` withdraws it,
    /// and a pending `KeySignRequest` confers nothing.
    pub fn is_valid_device_id(&self, device_id: &str) -> (r: bool)
        ensures
            r == trusted_after(self.chain@, self.chain@.len() as int).contains_key(device_id@),
    {
        let mut names = TrustedKeys::new();
        let mut i: usize = 0;
        while i < self.chain.len()
            invariant
                i <= self.chain@.len(),
                names@ == trusted_after(self.chain@, i as int),
            decreases self.chain@.len() - i,
        {
            let link = &self.chain[i];
            match &link.event {
                KeyEvent::NewKey(w) => {
                    names.insert(w.device_id.clone(), w.key.duplicate());
                },
                KeyEvent::KeySignRequest(_) => {
                },
                KeyEvent::KeyRevoke(w) => {
                    names.remove(w.device_id.as_str());
                },
            }
            i = i + 1;
        }
        names.contains_key(device_id)
    }

    /// Verifies the chain against a head digest and returns the trusted keys
    /// at its end: `Some` exactly when the chain is in order (see
    /// `spec_chain_ok`), and then the map the replay of the chain gives.
    pub fn verify(&self, head: Vec<u8>, is_merge: bool) -> (r: Option<TrustedKeys>)
        ensures
            match r {
                Option::Some(m) => spec_chain_ok(self.chain@, head@, is_merge) && m@
                    == trusted_after(self.chain@, self.chain@.len() as int),
                Option::None => !spec_chain_ok(self.chain@, head@, is_merge),
            },
    {
        let n = self.chain.len();
        if n == 0 {
            return Option::None;
        }
        if !is_merge {
            let last_digest = self.chain[n - 1].get_digest();
            if !util::bytes_eq(last_digest.as_slice(), head.as_slice()) {
                return Option::None;
            }
        }
        let mut trusted = TrustedKeys::new();
        let mut found_head = false;
        let mut prev: Vec<u8> = Vec::new();
        let mut i: usize = 0;
        while i < n
            invariant
                n == self.chain@.len(),
                0 < n,
                i <= n,
                trusted@ == trusted_after(self.chain@, i as int),
                forall|k: int| 0 <= k < i ==> spec_link_ok(self.chain@, k, is_merge),
                found_head == exists|k: int|
                    0 <= k < i && spec_link_digest(self.chain@[k]) == head@,
                i > 0 ==> prev@ == spec_link_digest(self.chain@[i - 1]),
            decreases n - i,
        {
            let link = &self.chain[i];
            if i != 0 && !util::bytes_eq(link.parent.as_slice(), prev.as_slice()) {
                proof {
                    assert(!spec_link_ok(self.chain@, i as int, is_merge));
                }
                return Option::None;
            }
            if i == 0 && link.parent.len() != 0 {
                proof {
                    assert(!spec_link_ok(self.chain@, i as int, is_merge));
                }
                return Option::None;
            }
            let link_digest = link.get_digest();
            let sig_expected_payload = link.get_sig_payload();
            match &link.event {
                KeyEvent::NewKey(w) => {
                    if i == 0 {
                        if !w.key.verify(
                            link.signature.payload.as_slice(),
                            sig_expected_payload.as_slice(),
                        ) {
                            proof {
                                assert(!spec_link_ok(self.chain@, i as int, is_merge));
                            }
                            return Option::None;
                        }
                    } else {
                        let signer_ok: bool = match trusted.get(
                            link.signature.signing_key_id.as_str(),
                        ) {
                            Option::None => {
                                proof {
                                    assert(!spec_link_ok(self.chain@, i as int, is_merge));
                                }
                                return Option::None;
                            },
                            Option::Some(signer) => signer.verify(
                                link.signature.payload.as_slice(),
                                sig_expected_payload.as_slice(),
                            ),
                        };
                        if !signer_ok {
                            proof {
                                assert(!spec_link_ok(self.chain@, i as int, is_merge));
                            }
                            return Option::None;
                        }
                    }
                    trusted.insert(w.device_id.clone(), w.key.duplicate());
                },
                KeyEvent::KeyRevoke(w) => {
                    let signer_ok: bool = match trusted.get(
                        link.signature.signing_key_id.as_str(),
                    ) {
                        Option::None => {
                            proof {
                                assert(!spec_link_ok(self.chain@, i as int, is_merge));
                            }
                            return Option::None;
                        },
                        Option::Some(signer) => signer.verify(
                            link.signature.payload.as_slice(),
                            sig_expected_payload.as_slice(),
                        ),
                    };
                    if !signer_ok {
                        proof {
                            assert(!spec_link_ok(self.chain@, i as int, is_merge));
                        }
                        return Option::None;
                    }
                    if util::str_eq(link.signature.signing_key_id.as_str(), w.device_id.as_str()) {
                        proof {
                            assert(!spec_link_ok(self.chain@, i as int, is_merge));
                        }
                        return Option::None;
                    }
                    trusted.remove(w.device_id.as_str());
                },
                KeyEvent::KeySignRequest(w) => {
                    if !is_merge || i == 0 {
                        proof {
                            assert(!spec_link_ok(self.chain@, i as int, is_merge));
                        }
                        return Option::None;
                    }
                    if !w.key.verify(
                        link.signature.payload.as_slice(),
                        sig_expected_payload.as_slice(),
                    ) {
                        proof {
                            assert(!spec_link_ok(self.chain@, i as int, is_merge));
                        }
                        return Option::None;
                    }
                    if i != n - 1 {
                        proof {
                            assert(!spec_link_ok(self.chain@, i as int, is_merge));
                        }
                        return Option::None;
                    }
                },
            }
            if util::bytes_eq(link_digest.as_slice(), head.as_slice()) {
                found_head = true;
            }
            prev = link_digest;
            proof {
                assert(spec_link_ok(self.chain@, i as int, is_merge));
            }
            i = i + 1;
        }
        if !found_head {
            proof {
                assert(!spec_chain_ok(self.chain@, head@, is_merge));
            }
            return Option::None;
        }
        Option::Some(trusted)
    }

    fn append_link(&mut self, event: KeyEvent, signer_id: String, signer_sk: &[u8])
        requires
            signer_sk@.len() == crypto::SIGN_SK_LEN,
        ensures
            final(self).chain@.len() == old(self).chain@.len() + 1,
            final(self).chain@.drop_last() == old(self).chain@,
            ({
                let l = final(self).chain@.last();
                &&& l.parent@ == spec_chain_digest(old(self).chain@)
                &&& l.event == event
                &&& l.signature.signing_key_id@ == signer_id@
                &&& l.signature.payload@ == sig_of(spec_sig_payload(l), signer_sk@)
                &&& l.signature.payload@.len() == crypto::SIG_LEN
            }),
    {
        let parent = self.get_digest();
        let mut link = ChainLink {
            parent,
            event,
            signature: KeyEventSignature { signing_key_id: signer_id, payload: Vec::new() },
        };
        let sig_payload = link.get_sig_payload();
        let sig = crypto::sign_detached_bytes(sig_payload.as_slice(), signer_sk);
        link.signature.payload = sig;
        self.chain.push(link);
        proof {
            assert(self.chain@.drop_last() =~= old(self).chain@);
        }
    }

    /// Appends a `NewKey` link for `wrap`, signed by `signer_id` with
    /// `signer_sk`: the new link's parent is the digest of the old chain,
    /// and its signature is over `H(parent ∥ H(event))`.
    pub fn append_new_key(&mut self, wrap: PublicKeyWrapper, signer_id: String, signer_sk: &[u8])
        requires
            signer_sk@.len() == crypto::SIGN_SK_LEN,
        ensures
            final(self).chain@.len() == old(self).chain@.len() + 1,
            final(self).chain@.drop_last() == old(self).chain@,
            ({
                let l = final(self).chain@.last();
                &&& l.parent@ == spec_chain_digest(old(self).chain@)
                &&& l.event == KeyEvent::NewKey(wrap)
                &&& l.signature.signing_key_id@ == signer_id@
                &&& l.signature.payload@ == sig_of(spec_sig_payload(l), signer_sk@)
                &&& l.signature.payload@.len() == crypto::SIG_LEN
            }),
    {
        self.append_link(KeyEvent::NewKey(wrap), signer_id, signer_sk);
    }

    /// Appends a `KeyRevoke` link for `wrap`, signed by `signer_id` with
    /// `signer_sk`. A chain verifies afterwards only if the signer stays
    /// trusted after the revoke (see `spec_link_ok`).
    pub fn append_revoke(&mut self, wrap: PublicKeyWrapper, signer_id: String, signer_sk: &[u8])
        requires
            signer_sk@.len() == crypto::SIGN_SK_LEN,
        ensures
            final(self).chain@.len() == old(self).chain@.len() + 1,
            final(self).chain@.drop_last() == old(self).chain@,
            ({
                let l = final(self).chain@.last();
                &&& l.parent@ == spec_chain_digest(old(self).chain@)
                &&& l.event == KeyEvent::KeyRevoke(wrap)
                &&& l.signature.signing_key_id@ == signer_id@
                &&& l.signature.payload@ == sig_of(spec_sig_payload(l), signer_sk@)
                &&& l.signature.payload@.len() == crypto::SIG_LEN
            }),
    {
        self.append_link(KeyEvent::KeyRevoke(wrap), signer_id, signer_sk);
    }

    /// Appends a self-signed `KeySignRequest` link for `wrap`: a pending
    /// request that only verifies in merge mode and only as the last link.
    pub fn append_sign_request(&mut self, wrap: PublicKeyWrapper, own_sk: &[u8])
        requires
            own_sk@.len() == crypto::SIGN_SK_LEN,
        ensures
            final(self).chain@.len() == old(self).chain@.len() + 1,
            final(self).chain@.drop_last() == old(self).chain@,
            ({
                let l = final(self).chain@.last();
                &&& l.parent@ == spec_chain_digest(old(self).chain@)
                &&& l.event == KeyEvent::KeySignRequest(wrap)
                &&& l.signature.signing_key_id@ == wrap.device_id@
                &&& l.signature.payload@ == sig_of(spec_sig_payload(l), own_sk@)
                &&& l.signature.payload@.len() == crypto::SIG_LEN
            }),
    {
        let signer_id = wrap.device_id.clone();
        self.append_link(KeyEvent::KeySignRequest(wrap), signer_id, own_sk);
    }
}

/// The key that must have signed link `i` for the chain to verify: the
/// link's own new key at the genesis link and for a sign request, else the
/// key the chain trusts under the signing id at that point.
pub open spec fn link_signer(chain: Seq<ChainLink>, i: int) -> GKey
    recommends
        0 <= i < chain.len(),
{
    let l = chain[i];
    match l.event {
        KeyEvent::NewKey(w) => if i == 0 {
            key_view(w.key)
        } else {
            trusted_after(chain, i)[l.signature.signing_key_id@]
        },
        KeyEvent::KeyRevoke(w) => trusted_after(chain, i)[l.signature.signing_key_id@],
        KeyEvent::KeySignRequest(w) => key_view(w.key),
    }
}

/// Law: in a chain that verifies, every link's signature verifies over
/// exactly `H(parent ∥ H(event))` under that link's signer.
pub proof fn lemma_signature_payload_determinism(
    chain: Seq<ChainLink>,
    head: Seq<u8>,
    is_merge: bool,
    i: int,
)
    requires
        spec_chain_ok(chain, head, is_merge),
        0 <= i < chain.len(),
    ensures
        spec_verify_sig(
            chain[i].signature.payload@,
            hash_of(chain[i].parent@ + spec_event_digest(chain[i].event)),
            link_signer(chain, i),
        ),
{
    assert(spec_link_ok(chain, i, is_merge));
}

/// The trusted keys after the first `n` links do not change when a link is
/// appended behind them.
pub proof fn lemma_trusted_after_push(chain: Seq<ChainLink>, l: ChainLink, n: int)
    requires
        0 <= n <= chain.len(),
    ensures
        trusted_after(chain.push(l), n) == trusted_after(chain, n),
    decreases n,
{
    if n > 0 {
        lemma_trusted_after_push(chain, l, n - 1);
        assert(chain.push(l)[n - 1] == chain[n - 1]);
    }
}

/// A link that is in order in a strict chain stays in order when a link is
/// appended behind it.
pub proof fn lemma_link_ok_push(chain: Seq<ChainLink>, l: ChainLink, i: int)
    requires
        0 <= i < chain.len(),
        spec_link_ok(chain, i, false),
    ensures
        spec_link_ok(chain.push(l), i, false),
{
    lemma_trusted_after_push(chain, l, i);
    assert(chain.push(l)[i] == chain[i]);
    if i > 0 {
        assert(chain.push(l)[i - 1] == chain[i - 1]);
    }
}

/// Law: extending a verified chain with a `NewKey` link whose signer is
/// trusted keeps the chain verified at the new head, and adds exactly the
/// new key to the trusted set.
pub proof fn lemma_new_key_extends(chain: Seq<ChainLink>, l: ChainLink, head: Seq<u8>)
    requires
        spec_chain_ok(chain, head, false),
        l.event is NewKey,
        l.parent@ == spec_link_digest(chain.last()),
        trusted_after(chain, chain.len() as int).contains_key(l.signature.signing_key_id@),
        spec_verify_sig(
            l.signature.payload@,
            spec_sig_payload(l),
            trusted_after(chain, chain.len() as int)[l.signature.signing_key_id@],
        ),
    ensures
        spec_chain_ok(chain.push(l), spec_link_digest(l), false),
        trusted_after(chain.push(l), chain.len() as int + 1) == trusted_after(
            chain,
            chain.len() as int,
        ).insert(event_wrap(l.event).device_id@, key_view(event_wrap(l.event).key)),
{
    let c2 = chain.push(l);
    let n = chain.len() as int;
    lemma_trusted_after_push(chain, l, n);
    assert(c2[n] == l);
    assert(c2[n - 1] == chain[n - 1]);
    assert(spec_link_ok(c2, n, false));
    assert forall|i: int| 0 <= i < c2.len() implies spec_link_ok(c2, i, false) by {
        if i < n {
            assert(spec_link_ok(chain, i, false));
            lemma_link_ok_push(chain, l, i);
        }
    }
    assert(spec_link_digest(c2[n]) == spec_link_digest(l));
}

/// Law: extending a verified chain with a `KeyRevoke` link signed by a
/// still-trusted key other than the revoked one keeps the chain verified at
/// the new head; the revoked id leaves the trusted set, and every earlier
/// link, with its signature, stays in order.
pub proof fn lemma_revoke_effect(chain: Seq<ChainLink>, l: ChainLink, head: Seq<u8>)
    requires
        spec_chain_ok(chain, head, false),
        l.event is KeyRevoke,
        l.parent@ == spec_link_digest(chain.last()),
        trusted_after(chain, chain.len() as int).contains_key(l.signature.signing_key_id@),
        l.signature.signing_key_id@ != event_wrap(l.event).device_id@,
        spec_verify_sig(
            l.signature.payload@,
            spec_sig_payload(l),
            trusted_after(chain, chain.len() as int)[l.signature.signing_key_id@],
        ),
    ensures
        spec_chain_ok(chain.push(l), spec_link_digest(l), false),
        trusted_after(chain.push(l), chain.len() as int + 1) == trusted_after(
            chain,
            chain.len() as int,
        ).remove(event_wrap(l.event).device_id@),
        !trusted_after(chain.push(l), chain.len() as int + 1).contains_key(
            event_wrap(l.event).device_id@,
        ),
        forall|i: int| 0 <= i < chain.len() ==> spec_link_ok(chain.push(l), i, false),
{
    let c2 = chain.push(l);
    let n = chain.len() as int;
    lemma_trusted_after_push(chain, l, n);
    assert(c2[n] == l);
    assert(c2[n - 1] == chain[n - 1]);
    assert(spec_link_ok(c2, n, false));
    assert forall|i: int| 0 <= i < c2.len() implies spec_link_ok(c2, i, false) by {
        if i < n {
            assert(spec_link_ok(chain, i, false));
            lemma_link_ok_push(chain, l, i);
        }
    }
    assert(spec_link_digest(c2[n]) == spec_link_digest(l));
}

/// Law: no chain holding a sign request verifies in strict mode.
pub proof fn lemma_sign_request_strict(chain: Seq<ChainLink>, head: Seq<u8>, i: int)
    requires
        0 <= i < chain.len(),
        chain[i].event is KeySignRequest,
    ensures
        !spec_chain_ok(chain, head, false),
{
    assert(!spec_link_ok(chain, i, false));
}

/// Law: in merge mode a chain that verifies holds a sign request only as
/// its last link, so it holds at most one.
pub proof fn lemma_sign_request_merge(chain: Seq<ChainLink>, head: Seq<u8>, i: int)
    requires
        spec_chain_ok(chain, head, true),
        0 <= i < chain.len(),
        chain[i].event is KeySignRequest,
    ensures
        i == chain.len() - 1,
{
    assert(spec_link_ok(chain, i, true));
}

/// Law: a single self-signed `NewKey` link with an empty parent is a
/// verified chain at its own digest, and its key alone is trusted.
pub proof fn lemma_genesis_ok(l: ChainLink)
    requires
        l.event is NewKey,
        l.parent@.len() == 0,
        spec_verify_sig(l.signature.payload@, spec_sig_payload(l), key_view(event_wrap(l.event).key)),
    ensures
        spec_chain_ok(seq![l], spec_link_digest(l), false),
        trusted_after(seq![l], 1) == Map::<Seq<char>, GKey>::empty().insert(
            event_wrap(l.event).device_id@,
            key_view(event_wrap(l.event).key),
        ),
{
    let c = seq![l];
    assert(c.last() == l);
    assert(c[0] == l);
    assert(spec_link_ok(c, 0, false));
    assert(spec_link_digest(c[0]) == spec_link_digest(l));
    assert(trusted_after(c, 0) =~= Map::<Seq<char>, GKey>::empty());
    assert(trusted_after(c, 1) == apply_event(trusted_after(c, 0), l.event));
}

} // verus!
