//! The vault envelope: a per-file container holding one authenticated
//! ciphertext under a fresh symmetric key, that key sealed separately to
//! each recipient's public key.

use vstd::prelude::*;

use crate::crypto;
use crate::keychain::{key_view, key_wf, PublicKeyWrapper};
use crate::util;

verus! {

use crate::crypto::{box_pk_of, sealed_box_open_of, secretbox_open_of, secretbox_seal_of};

/// A wrapped symmetric key addressed by the hash of a public key.
pub struct VaultKey {
    keyhash: String,
    payload: Vec<u8>,
}

impl VaultKey {
    /// The hash naming the key this entry is sealed to.
    pub closed spec fn spec_hash(&self) -> Seq<char> {
        self.keyhash@
    }

    /// The wrapped key bytes.
    pub closed spec fn spec_payload(&self) -> Seq<u8> {
        self.payload@
    }

    pub fn new(hash: String, payload: Vec<u8>) -> (r: Self)
        ensures
            r.spec_hash() == hash@,
            r.spec_payload() == payload@,
    {
        VaultKey { keyhash: hash, payload }
    }

    pub fn get_hash(&self) -> (r: String)
        ensures
            r@ == self.spec_hash(),
    {
        self.keyhash.clone()
    }

    /// The wrapped key bytes.
    pub fn get_payload(&self) -> (r: &Vec<u8>)
        ensures
            r@ == self.spec_payload(),
    {
        &self.payload
    }
}

/// A recipient of a vault: a device id and the symmetric key sealed to that
/// device's public key.
pub struct Recipient {
    pub device_id: String,
    pub wrapped_key: Vec<u8>,
}

/// The vault itself.
pub struct Vault {
    pub nonce: Vec<u8>,
    pub ciphertext: Vec<u8>,
    pub recipients: Vec<Recipient>,
}

/// How a sealed vault relates to the plaintext, the recipient keys, and the
/// symmetric key it was sealed under: the ciphertext is the authenticated
/// encryption of the plaintext, it opens back to the plaintext, and each
/// recipient's wrapped key unseals to the symmetric key under that
/// recipient's matching secret key.
pub open spec fn seal_rel(
    v: Vault,
    payload: Seq<u8>,
    keys: Seq<PublicKeyWrapper>,
    sym: Seq<u8>,
) -> bool {
    &&& sym.len() == crypto::SYM_KEY_LEN
    &&& v.nonce@.len() == crypto::SYM_NONCE_LEN
    &&& v.ciphertext@ == secretbox_seal_of(payload, v.nonce@, sym)
    &&& secretbox_open_of(v.ciphertext@, v.nonce@, sym) == Some(payload)
    &&& v.recipients@.len() == keys.len()
    &&& forall|i: int|
        0 <= i < keys.len() ==> {
            &&& (#[trigger] v.recipients@[i]).device_id@ == keys[i].device_id@
            &&& forall|sk: Seq<u8>|
                box_pk_of(sk) == key_view(keys[i].key).enc ==> sealed_box_open_of(
                    v.recipients@[i].wrapped_key@,
                    key_view(keys[i].key).enc,
                    sk,
                ) == Some(sym)
        }
}

impl Vault {
/// Seals a plaintext to the given recipient keys under a fresh symmetric
/// key and nonce. The recipients keep the order of `keys`.
pub fn seal_vault(payload: &[u8], keys: &Vec<PublicKeyWrapper>) -> (r: Vault)
    requires
        forall|i: int| 0 <= i < keys@.len() ==> key_wf((#[trigger] keys@[i]).key),
    ensures
        r.ciphertext@.len() == payload@.len() + crypto::SYM_OVERHEAD,
        r.recipients@.len() == keys@.len(),
        forall|i: int|
            0 <= i < keys@.len() ==> (#[trigger] r.recipients@[i]).device_id == keys@[i].device_id,
        exists|sym: Seq<u8>| seal_rel(r, payload@, keys@, sym),
{
    let sym_key = crypto::secretbox_gen_key();
    let nonce = crypto::secretbox_gen_nonce();
    let ciphertext = crypto::secretbox_seal(payload, nonce.as_slice(), sym_key.as_slice());
    let mut recipients: Vec<Recipient> = Vec::new();
    let mut i: usize = 0;
    while i < keys.len()
        invariant
            i <= keys@.len(),
            sym_key@.len() == crypto::SYM_KEY_LEN,
            forall|k: int| 0 <= k < keys@.len() ==> key_wf((#[trigger] keys@[k]).key),
            recipients@.len() == i,
            forall|k: int|
                0 <= k < i ==> {
                    &&& (#[trigger] recipients@[k]).device_id == keys@[k].device_id
                    &&& forall|sk: Seq<u8>|
                        box_pk_of(sk) == key_view(keys@[k].key).enc ==> sealed_box_open_of(
                            recipients@[k].wrapped_key@,
                            key_view(keys@[k].key).enc,
                            sk,
                        ) == Some(sym_key@)
                },
        decreases keys@.len() - i,
    {
        let key = &keys[i];
        let wrapped = key.encrypt(sym_key.as_slice());
        recipients.push(Recipient { device_id: key.device_id.clone(), wrapped_key: wrapped });
        i = i + 1;
    }
    let r = Vault { nonce, ciphertext, recipients };
    proof {
        assert(seal_rel(r, payload@, keys@, sym_key@));
    }
    r
}
}

/// The first secret key an unlock list holds for a device id.
pub open spec fn sk_for(unlock: Seq<(String, Vec<u8>)>, id: Seq<char>) -> Option<Seq<u8>>
    decreases unlock.len(),
{
    if unlock.len() == 0 {
        Option::None
    } else if unlock.first().0@ == id {
        Option::Some(unlock.first().1@)
    } else {
        sk_for(unlock.drop_first(), id)
    }
}

/// What trying recipient `i` of a vault with an unlock list yields: the
/// plaintext, if the list has that device's key, the wrapped key unseals
/// under it, and the ciphertext opens under the unsealed symmetric key.
pub open spec fn try_open_at(v: Vault, unlock: Seq<(String, Vec<u8>)>, i: int) -> Option<Seq<u8>>
    recommends
        0 <= i < v.recipients@.len(),
{
    if v.nonce@.len() != crypto::SYM_NONCE_LEN {
        Option::None
    } else {
        match sk_for(unlock, v.recipients@[i].device_id@) {
            Option::None => Option::None,
            Option::Some(sk) => if sk.len() != crypto::BOX_SK_LEN {
                Option::None
            } else {
                match sealed_box_open_of(v.recipients@[i].wrapped_key@, box_pk_of(sk), sk) {
                    Option::None => Option::None,
                    Option::Some(sym) => if sym.len() != crypto::SYM_KEY_LEN {
                        Option::None
                    } else {
                        secretbox_open_of(v.ciphertext@, v.nonce@, sym)
                    },
                }
            },
        }
    }
}

/// What opening a vault yields, trying recipients from `i` on in stored
/// order: the first plaintext a recipient yields, else nothing.
pub open spec fn spec_open_vault(v: Vault, unlock: Seq<(String, Vec<u8>)>, i: int) -> Option<
    Seq<u8>,
>
    decreases v.recipients@.len() - i,
{
    if i < 0 || i >= v.recipients@.len() {
        Option::None
    } else {
        match try_open_at(v, unlock, i) {
            Option::Some(m) => Option::Some(m),
            Option::None => spec_open_vault(v, unlock, i + 1),
        }
    }
}

/// The first device id of `unlock` that equals `id`, as an index.
fn find_sk<'a>(unlock: &'a Vec<(String, Vec<u8>)>, id: &str) -> (r: Option<&'a Vec<u8>>)
    ensures
        match r {
            Option::Some(sk) => sk_for(unlock@, id@) == Some(sk@),
            Option::None => sk_for(unlock@, id@) is None,
        },
{
    let mut i: usize = 0;
    proof {
        assert(unlock@.skip(0) =~= unlock@);
    }
    while i < unlock.len()
        invariant
            i <= unlock@.len(),
            sk_for(unlock@, id@) == sk_for(unlock@.skip(i as int), id@),
        decreases unlock@.len() - i,
    {
        proof {
            assert(unlock@.skip(i as int).first() == unlock@[i as int]);
            assert(unlock@.skip(i as int).drop_first() =~= unlock@.skip(i + 1));
        }
        if util::str_eq(unlock[i].0.as_str(), id) {
            return Option::Some(&unlock[i].1);
        }
        i = i + 1;
    }
    proof {
        assert(unlock@.skip(unlock@.len() as int).len() == 0);
    }
    Option::None
}

impl Vault {
/// Opens a vault with the secret keys of an unlock list: recipients are
/// tried in stored order, a failure with one recipient moves on to the
/// next, and only when all are exhausted does the open fail.
pub fn open_vault(&self, unlock: &Vec<(String, Vec<u8>)>) -> (r: Option<Vec<u8>>)
    ensures
        match r {
            Option::Some(m) => spec_open_vault(*self, unlock@, 0) == Some(m@),
            Option::None => spec_open_vault(*self, unlock@, 0) is None,
        },
{
    let v = self;
    if v.nonce.len() != crypto::SYM_NONCE_LEN {
        proof {
            lemma_open_vault_bad_nonce(*v, unlock@, 0);
        }
        return Option::None;
    }
    let mut i: usize = 0;
    while i < v.recipients.len()
        invariant
            v == self,
            i <= v.recipients@.len(),
            v.nonce@.len() == crypto::SYM_NONCE_LEN,
            spec_open_vault(*v, unlock@, 0) == spec_open_vault(*v, unlock@, i as int),
        decreases v.recipients@.len() - i,
    {
        let rec = &v.recipients[i];
        let tried: Option<Vec<u8>> = match find_sk(unlock, rec.device_id.as_str()) {
            Option::None => Option::None,
            Option::Some(sk) => {
                if sk.len() != crypto::BOX_SK_LEN {
                    Option::None
                } else {
                    let pk = crypto::box_public_key(sk.as_slice());
                    match crypto::sealed_box_open(rec.wrapped_key.as_slice(), pk.as_slice(), sk.as_slice()) {
                        Option::None => Option::None,
                        Option::Some(sym) => {
                            if sym.len() != crypto::SYM_KEY_LEN {
                                Option::None
                            } else {
                                crypto::secretbox_open(
                                    v.ciphertext.as_slice(),
                                    v.nonce.as_slice(),
                                    sym.as_slice(),
                                )
                            }
                        },
                    }
                }
            },
        };
        match tried {
            Option::Some(m) => {
                proof {
                    assert(try_open_at(*v, unlock@, i as int) == Some(m@));
                }
                return Option::Some(m);
            },
            Option::None => {
                proof {
                    assert(try_open_at(*v, unlock@, i as int) is None);
                }
            },
        }
        i = i + 1;
    }
    Option::None
}
}

proof fn lemma_open_vault_bad_nonce(v: Vault, unlock: Seq<(String, Vec<u8>)>, i: int)
    requires
        v.nonce@.len() != crypto::SYM_NONCE_LEN,
    ensures
        spec_open_vault(v, unlock, i) is None,
    decreases v.recipients@.len() - i,
{
    if 0 <= i < v.recipients@.len() {
        lemma_open_vault_bad_nonce(v, unlock, i + 1);
    }
}

/// Whether an unlock list is truthful for the given recipient keys: any
/// secret key it offers under a device id is the counterpart of that
/// device's public encryption key.
pub open spec fn unlock_matches(unlock: Seq<(String, Vec<u8>)>, keys: Seq<PublicKeyWrapper>) -> bool {
    forall|i: int, j: int|
        0 <= i < keys.len() && 0 <= j < unlock.len() && (#[trigger] keys[i]).device_id@
            == (#[trigger] unlock[j]).0@ ==> unlock[j].1@.len() == crypto::BOX_SK_LEN && box_pk_of(
            unlock[j].1@,
        ) == key_view(keys[i].key).enc
}

proof fn lemma_sk_for_found(unlock: Seq<(String, Vec<u8>)>, id: Seq<char>)
    ensures
        sk_for(unlock, id) is Some ==> exists|j: int|
            0 <= j < unlock.len() && (#[trigger] unlock[j]).0@ == id && unlock[j].1@ == sk_for(
                unlock,
                id,
            )->Some_0,
    decreases unlock.len(),
{
    if unlock.len() > 0 {
        if unlock.first().0@ == id {
            assert(unlock[0].0@ == id && unlock[0].1@ == sk_for(unlock, id)->Some_0);
        } else {
            lemma_sk_for_found(unlock.drop_first(), id);
            if sk_for(unlock, id) is Some {
                let j = choose|j: int|
                    0 <= j < unlock.drop_first().len() && (#[trigger] unlock.drop_first()[j]).0@
                        == id && unlock.drop_first()[j].1@ == sk_for(unlock.drop_first(), id)->Some_0;
                assert(unlock[j + 1].0@ == id && unlock[j + 1].1@ == sk_for(unlock, id)->Some_0);
            }
        }
    }
}

/// Law (vault round trip): a vault sealed to a set of recipients opens to
/// the sealed plaintext with any single recipient's matching secret key —
/// whichever recipient that is, and whatever other truthful keys the unlock
/// list offers.
pub proof fn lemma_vault_round_trip(
    v: Vault,
    payload: Seq<u8>,
    keys: Seq<PublicKeyWrapper>,
    sym: Seq<u8>,
    unlock: Seq<(String, Vec<u8>)>,
    j: int,
)
    requires
        seal_rel(v, payload, keys, sym),
        unlock_matches(unlock, keys),
        0 <= j < keys.len(),
        sk_for(unlock, keys[j].device_id@) is Some,
    ensures
        spec_open_vault(v, unlock, 0) == Some(payload),
{
    assert forall|i: int| 0 <= i < v.recipients@.len() implies try_open_at(v, unlock, i) is None
        || try_open_at(v, unlock, i) == Some(payload) by {
        lemma_sk_for_found(unlock, v.recipients@[i].device_id@);
        if sk_for(unlock, v.recipients@[i].device_id@) is Some {
            let sk = sk_for(unlock, v.recipients@[i].device_id@)->Some_0;
            let jj = choose|jj: int|
                0 <= jj < unlock.len() && (#[trigger] unlock[jj]).0@ == v.recipients@[i].device_id@
                    && unlock[jj].1@ == sk;
            assert(keys[i].device_id@ == unlock[jj].0@);
            assert(box_pk_of(sk) == key_view(keys[i].key).enc);
        }
    }
    assert(try_open_at(v, unlock, j) == Some(payload)) by {
        lemma_sk_for_found(unlock, keys[j].device_id@);
        let sk = sk_for(unlock, keys[j].device_id@)->Some_0;
        let jj = choose|jj: int|
            0 <= jj < unlock.len() && (#[trigger] unlock[jj]).0@ == keys[j].device_id@
                && unlock[jj].1@ == sk;
        assert(box_pk_of(sk) == key_view(keys[j].key).enc);
    }
    lemma_open_vault_first_hit(v, unlock, 0, j, payload);
}

proof fn lemma_open_vault_first_hit(
    v: Vault,
    unlock: Seq<(String, Vec<u8>)>,
    i: int,
    j: int,
    payload: Seq<u8>,
)
    requires
        0 <= i <= j < v.recipients@.len(),
        try_open_at(v, unlock, j) == Some(payload),
        forall|k: int|
            0 <= k < v.recipients@.len() ==> try_open_at(v, unlock, k) is None || try_open_at(
                v,
                unlock,
                k,
            ) == Some(payload),
    ensures
        spec_open_vault(v, unlock, i) == Some(payload),
    decreases j - i,
{
    if i < j {
        if try_open_at(v, unlock, i) is None {
            lemma_open_vault_first_hit(v, unlock, i + 1, j, payload);
        }
    }
}

/// The mathematical content of a recipient entry.
pub ghost struct GRecipient {
    pub id: Seq<char>,
    pub wrapped: Seq<u8>,
}

/// The content of a recipient list.
pub open spec fn rec_views(s: Seq<Recipient>) -> Seq<GRecipient> {
    s.map_values(|r: Recipient| GRecipient { id: r.device_id@, wrapped: r.wrapped_key@ })
}

/// The set of device ids a list of names denotes.
pub open spec fn id_set(s: Seq<String>) -> Set<Seq<char>>
    decreases s.len(),
{
    if s.len() == 0 {
        Set::empty()
    } else {
        id_set(s.drop_last()).insert(s.last()@)
    }
}

/// The set of device ids a recipient list is sealed to.
pub open spec fn rec_id_set(s: Seq<GRecipient>) -> Set<Seq<char>>
    decreases s.len(),
{
    if s.len() == 0 {
        Set::empty()
    } else {
        rec_id_set(s.drop_last()).insert(s.last().id)
    }
}

pub proof fn lemma_id_set_contains(s: Seq<String>, x: Seq<char>)
    ensures
        id_set(s).contains(x) <==> exists|k: int| 0 <= k < s.len() && (#[trigger] s[k])@ == x,
    decreases s.len(),
{
    if s.len() > 0 {
        lemma_id_set_contains(s.drop_last(), x);
        if s.last()@ == x {
            assert(s[s.len() - 1]@ == x);
        } else if id_set(s).contains(x) {
            let k = choose|k: int|
                0 <= k < s.drop_last().len() && (#[trigger] s.drop_last()[k])@ == x;
            assert(s[k]@ == x);
        } else if exists|k: int| 0 <= k < s.len() && (#[trigger] s[k])@ == x {
            let k = choose|k: int| 0 <= k < s.len() && (#[trigger] s[k])@ == x;
            assert(s.drop_last()[k]@ == x);
        }
    }
}

pub proof fn lemma_rec_id_set_contains(s: Seq<GRecipient>, x: Seq<char>)
    ensures
        rec_id_set(s).contains(x) <==> exists|k: int| 0 <= k < s.len() && (#[trigger] s[k]).id == x,
    decreases s.len(),
{
    if s.len() > 0 {
        lemma_rec_id_set_contains(s.drop_last(), x);
        if s.last().id == x {
            assert(s[s.len() - 1].id == x);
        } else if rec_id_set(s).contains(x) {
            let k = choose|k: int|
                0 <= k < s.drop_last().len() && (#[trigger] s.drop_last()[k]).id == x;
            assert(s[k].id == x);
        } else if exists|k: int| 0 <= k < s.len() && (#[trigger] s[k]).id == x {
            let k = choose|k: int| 0 <= k < s.len() && (#[trigger] s[k]).id == x;
            assert(s.drop_last()[k].id == x);
        }
    }
}

/// Whether some name in the list holds the given characters.
fn names_contain(names: &Vec<String>, id: &str) -> (r: bool)
    ensures
        r == id_set(names@).contains(id@),
{
    let mut i: usize = 0;
    while i < names.len()
        invariant
            i <= names@.len(),
            forall|k: int| 0 <= k < i ==> (#[trigger] names@[k])@ != id@,
        decreases names@.len() - i,
    {
        if util::str_eq(names[i].as_str(), id) {
            proof {
                lemma_id_set_contains(names@, id@);
            }
            return true;
        }
        i = i + 1;
    }
    proof {
        lemma_id_set_contains(names@, id@);
    }
    false
}

/// Whether every id of `a` also stands in `b`.
fn ids_subset(a: &Vec<String>, b: &Vec<String>) -> (r: bool)
    ensures
        r == id_set(a@).subset_of(id_set(b@)),
{
    let mut i: usize = 0;
    while i < a.len()
        invariant
            i <= a@.len(),
            forall|k: int| 0 <= k < i ==> id_set(b@).contains((#[trigger] a@[k])@),
        decreases a@.len() - i,
    {
        if !names_contain(b, a[i].as_str()) {
            proof {
                lemma_id_set_contains(a@, a@[i as int]@);
                assert(id_set(a@).contains(a@[i as int]@));
            }
            return false;
        }
        i = i + 1;
    }
    proof {
        assert forall|x: Seq<char>| id_set(a@).contains(x) implies id_set(b@).contains(x) by {
            lemma_id_set_contains(a@, x);
            let k = choose|k: int| 0 <= k < a@.len() && (#[trigger] a@[k])@ == x;
        }
    }
    true
}

/// Whether two recipient-name lists name the same set of device ids.
pub fn key_names_equal(names1: &Vec<String>, names2: &Vec<String>) -> (r: bool)
    ensures
        r == (id_set(names1@) == id_set(names2@)),
{
    let r = ids_subset(names1, names2) && ids_subset(names2, names1);
    proof {
        if id_set(names1@).subset_of(id_set(names2@)) && id_set(names2@).subset_of(id_set(names1@)) {
            assert(id_set(names1@) =~= id_set(names2@));
        }
    }
    r
}

/// What the reencrypt engine does with one vault file.
pub enum ReencryptAction {
    /// The recipients already match the target: leave the file untouched.
    Keep,
    /// The target is a subset of the current recipients: drop the extra
    /// entries, no decryption needed.
    Strip,
    /// The target names someone new: open the vault and seal it afresh.
    Reseal,
}

/// The plan for a vault whose recipients are `current` when the resolver
/// wants `target`.
pub open spec fn spec_plan(current: Seq<String>, target: Seq<String>) -> ReencryptAction {
    if id_set(target) == id_set(current) {
        ReencryptAction::Keep
    } else if id_set(target).subset_of(id_set(current)) {
        ReencryptAction::Strip
    } else {
        ReencryptAction::Reseal
    }
}

/// Decides what the reencrypt engine must do with one vault.
pub fn plan_reencrypt(current: &Vec<String>, target: &Vec<String>) -> (r: ReencryptAction)
    ensures
        r == spec_plan(current@, target@),
{
    if key_names_equal(target, current) {
        ReencryptAction::Keep
    } else if ids_subset(target, current) {
        ReencryptAction::Strip
    } else {
        ReencryptAction::Reseal
    }
}

/// The recipient entries whose id the target keeps, in their stored order.
pub open spec fn spec_strip(s: Seq<GRecipient>, keep: Set<Seq<char>>) -> Seq<GRecipient>
    decreases s.len(),
{
    if s.len() == 0 {
        s
    } else if keep.contains(s.last().id) {
        spec_strip(s.drop_last(), keep).push(s.last())
    } else {
        spec_strip(s.drop_last(), keep)
    }
}

/// Drops every recipient the target does not name; ciphertext and nonce
/// stay as they are, so no decryption is needed.
pub fn strip_recipients(v: &Vault, target: &Vec<String>) -> (r: Vault)
    ensures
        r.nonce@ == v.nonce@,
        r.ciphertext@ == v.ciphertext@,
        rec_views(r.recipients@) == spec_strip(rec_views(v.recipients@), id_set(target@)),
{
    let mut kept: Vec<Recipient> = Vec::new();
    let mut i: usize = 0;
    proof {
        assert(rec_views(v.recipients@.take(0)) =~= Seq::<GRecipient>::empty());
        assert(rec_views(kept@) =~= spec_strip(rec_views(v.recipients@.take(0)), id_set(target@)));
    }
    while i < v.recipients.len()
        invariant
            i <= v.recipients@.len(),
            rec_views(kept@) == spec_strip(rec_views(v.recipients@.take(i as int)), id_set(target@)),
        decreases v.recipients@.len() - i,
    {
        let ghost pre = rec_views(v.recipients@.take(i as int));
        let ghost post = rec_views(v.recipients@.take(i + 1));
        proof {
            assert(post.drop_last() =~= pre);
            assert(post.last() == rec_views(v.recipients@)[i as int]);
        }
        let rec = &v.recipients[i];
        if names_contain(target, rec.device_id.as_str()) {
            kept.push(
                Recipient { device_id: rec.device_id.clone(), wrapped_key: rec.wrapped_key.clone() },
            );
            proof {
                assert(rec.wrapped_key@ =~= kept@.last().wrapped_key@);
                assert(rec_views(kept@).drop_last() =~= rec_views(kept@.drop_last()));
                assert(rec_views(kept@) =~= spec_strip(post, id_set(target@)));
            }
        } else {
            proof {
                assert(rec_views(kept@) =~= spec_strip(post, id_set(target@)));
            }
        }
        i = i + 1;
    }
    proof {
        assert(v.recipients@.take(v.recipients@.len() as int) =~= v.recipients@);
    }
    Vault { nonce: v.nonce.clone(), ciphertext: v.ciphertext.clone(), recipients: kept }
}

/// Law: stripping keeps exactly the ids the target names and the vault had.
pub proof fn lemma_strip_ids(s: Seq<GRecipient>, keep: Set<Seq<char>>)
    ensures
        rec_id_set(spec_strip(s, keep)) =~= rec_id_set(s).intersect(keep),
    decreases s.len(),
{
    if s.len() > 0 {
        lemma_strip_ids(s.drop_last(), keep);
        if keep.contains(s.last().id) {
            let t = spec_strip(s.drop_last(), keep).push(s.last());
            assert(t.drop_last() =~= spec_strip(s.drop_last(), keep));
        }
    }
}

/// Law (reencrypt idempotence): a vault whose recipient ids already equal
/// the target is kept as it is, so running the engine a second time over
/// its own output rewrites nothing.
pub proof fn lemma_reencrypt_idempotent(current: Seq<String>, target: Seq<String>)
    requires
        id_set(current) == id_set(target),
    ensures
        spec_plan(current, target) is Keep,
{
}

/// Opens a vault with the given unlock list and seals its plaintext afresh
/// to the target keys; fails exactly when the vault cannot be opened.
pub fn reencrypt_vault(
    v: &Vault,
    unlock: &Vec<(String, Vec<u8>)>,
    target: &Vec<PublicKeyWrapper>,
) -> (r: Option<Vault>)
    requires
        forall|i: int| 0 <= i < target@.len() ==> key_wf((#[trigger] target@[i]).key),
    ensures
        match r {
            Option::Some(v2) => {
                &&& spec_open_vault(*v, unlock@, 0) is Some
                &&& v2.recipients@.len() == target@.len()
                &&& exists|sym: Seq<u8>|
                    seal_rel(v2, spec_open_vault(*v, unlock@, 0)->Some_0, target@, sym)
            },
            Option::None => spec_open_vault(*v, unlock@, 0) is None,
        },
{
    match v.open_vault(unlock) {
        Option::None => Option::None,
        Option::Some(plaintext) => {
            let v2 = Vault::seal_vault(plaintext.as_slice(), target);
            proof {
                let sym = choose|sym: Seq<u8>| seal_rel(v2, plaintext@, target@, sym);
                assert(seal_rel(v2, spec_open_vault(*v, unlock@, 0)->Some_0, target@, sym));
            }
            Option::Some(v2)
        },
    }
}

} // verus!
