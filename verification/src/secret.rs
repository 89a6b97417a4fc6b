//! Reading and writing secrets: the resolver picks the recipients for a
//! store path, the vault envelope carries the bytes. These are the compute
//! halves of the agent's encrypt and decrypt requests; the files around
//! them are not the library's business.

use vstd::prelude::*;

use crate::errors::StoreError;
use crate::keychain::{gkey_wf, key_view, key_wf, GKey, TrustedKeys};
use crate::paths;
use crate::vault::{seal_rel, spec_open_vault, Recipient, Vault};

verus! {

use vstd::string::StringSliceAdditionalSpecFns;

/// The device ids of a recipient list, in its order.
pub open spec fn rec_names(s: Seq<Recipient>) -> Seq<String>
    decreases s.len(),
{
    if s.len() == 0 {
        Seq::empty()
    } else {
        rec_names(s.drop_last()).push(s.last().device_id)
    }
}

/// Whether every named key of the trusted set has well-shaped material.
pub open spec fn all_keys_wf(names: Seq<String>, t: Map<Seq<char>, GKey>) -> bool {
    forall|k: int| 0 <= k < names.len() ==> gkey_wf(t[(#[trigger] names[k])@])
}

/// Every name a trusted filter keeps is a key the trusted set knows.
proof fn lemma_filter_trusted_members(
    ns: Seq<String>,
    t: Map<Seq<char>, crate::keychain::GKey>,
)
    ensures
        forall|k: int|
            0 <= k < paths::spec_filter_trusted(ns, t).len() ==> t.contains_key(
                (#[trigger] paths::spec_filter_trusted(ns, t)[k])@,
            ),
    decreases ns.len(),
{
    if ns.len() > 0 {
        lemma_filter_trusted_members(ns.drop_last(), t);
        let f = paths::spec_filter_trusted(ns, t);
        let g = paths::spec_filter_trusted(ns.drop_last(), t);
        if t.contains_key(ns.last()@) {
            assert(f == g.push(ns.last()));
            assert(forall|k: int| 0 <= k < f.len() - 1 ==> #[trigger] f[k] == g[k]);
        }
    }
}

proof fn lemma_rec_names_pointwise(s: Seq<Recipient>, names: Seq<String>)
    requires
        s.len() == names.len(),
        forall|i: int| 0 <= i < s.len() ==> (#[trigger] s[i]).device_id == names[i],
    ensures
        rec_names(s) == names,
    decreases s.len(),
{
    if s.len() > 0 {
        assert(forall|i: int|
            0 <= i < s.len() - 1 ==> (#[trigger] s.drop_last()[i]).device_id == names.drop_last(
            )[i]);
        lemma_rec_names_pointwise(s.drop_last(), names.drop_last());
        assert(rec_names(s) =~= names);
    } else {
        assert(rec_names(s) =~= names);
    }
}

/// Seals a payload for a store path: the recipient names come from the
/// resolver, sorted into the stable recipient order, their keys from the
/// trusted set. A path that escapes the store is `PathEscape`, an empty
/// recipient set `NoRecipients`, a trusted key whose material has the
/// wrong shape `Format` — each exactly when its condition holds, and the
/// call succeeds whenever none does.
#[verifier::rlimit(100)]
pub fn write_secret(
    lists: &Vec<(String, Vec<String>)>,
    trusted: &TrustedKeys,
    path: &str,
    payload: &[u8],
) -> (r: Result<Vault, StoreError>)
    ensures
        r is Ok ==> {
            let v = r->Ok_0;
            &&& paths::spec_path_is_safe(path.spec_bytes())
            &&& v.recipients@.len() > 0
            &&& v.ciphertext@.len() == payload@.len() + crate::crypto::SYM_OVERHEAD
            &&& paths::names_sorted(rec_names(v.recipients@))
            &&& exists|keys: Seq<crate::keychain::PublicKeyWrapper>, sym: Seq<u8>|
                {
                    &&& #[trigger] seal_rel(v, payload@, keys, sym)
                    &&& forall|i: int|
                        0 <= i < keys.len() ==> trusted@.contains_key(
                            (#[trigger] keys[i]).device_id@,
                        ) && key_view(keys[i].key) == trusted@[keys[i].device_id@]
                }
        },
        r is Ok && paths::spec_resolve_from(lists@, path.spec_bytes(), path.spec_bytes().len() - 1)
            is Some ==> rec_names(r->Ok_0.recipients@).to_multiset()
            == paths::spec_filter_trusted(
            paths::spec_resolve_from(
                lists@,
                path.spec_bytes(),
                path.spec_bytes().len() - 1,
            )->Some_0,
            trusted@,
        ).to_multiset(),
        r is Ok && paths::spec_resolve_from(lists@, path.spec_bytes(), path.spec_bytes().len() - 1)
            is None ==> (forall|id: Seq<char>|
            trusted@.contains_key(id) ==> exists|i: int|
                0 <= i < r->Ok_0.recipients@.len() && (#[trigger] r->Ok_0.recipients@[i]).device_id@
                    == id),
        !paths::spec_path_is_safe(path.spec_bytes()) <==> r == Result::<Vault, StoreError>::Err(
            StoreError::PathEscape,
        ),
        r is Err && r->Err_0 == StoreError::NoRecipients ==> paths::spec_path_is_safe(
            path.spec_bytes(),
        ) && (match paths::spec_resolve_from(
            lists@,
            path.spec_bytes(),
            path.spec_bytes().len() - 1,
        ) {
            Option::Some(ns) => paths::spec_filter_trusted(ns, trusted@).len() == 0,
            Option::None => trusted@.dom() =~= Set::<Seq<char>>::empty(),
        }),
        r is Err && r->Err_0 == StoreError::Format ==> paths::spec_path_is_safe(path.spec_bytes())
            && (match paths::spec_resolve_from(
            lists@,
            path.spec_bytes(),
            path.spec_bytes().len() - 1,
        ) {
            Option::Some(ns) => !all_keys_wf(paths::spec_filter_trusted(ns, trusted@), trusted@),
            Option::None => exists|id: Seq<char>|
                #[trigger] trusted@.contains_key(id) && !gkey_wf(trusted@[id]),
        }),
        paths::spec_path_is_safe(path.spec_bytes()) && (match paths::spec_resolve_from(
            lists@,
            path.spec_bytes(),
            path.spec_bytes().len() - 1,
        ) {
            Option::Some(ns) => paths::spec_filter_trusted(ns, trusted@).len() > 0 && all_keys_wf(
                paths::spec_filter_trusted(ns, trusted@),
                trusted@,
            ),
            Option::None => (exists|id: Seq<char>| trusted@.contains_key(id)) && (forall|
                id: Seq<char>,
            |
                #[trigger] trusted@.contains_key(id) ==> gkey_wf(trusted@[id])),
        }) ==> r is Ok,
        r is Err ==> (r->Err_0 == StoreError::PathEscape || r->Err_0 == StoreError::NoRecipients
            || r->Err_0 == StoreError::Format),
{
    let ghost b = path.spec_bytes();
    let ghost resolved = paths::spec_resolve_from(lists@, b, b.len() - 1);
    let names = match paths::get_key_names_for_path(lists, path, trusted) {
        Result::Ok(names) => names,
        Result::Err(e) => {
            return Result::Err(e);
        },
    };
    let ghost pre = names@;
    proof {
        if resolved is Some {
            lemma_filter_trusted_members(resolved->Some_0, trusted@);
        }
    }
    let names = paths::sort_names(names);
    proof {
        broadcast use vstd::seq_lib::group_to_multiset_ensures;

        assert forall|k: int| 0 <= k < names@.len() implies trusted@.contains_key(
            (#[trigger] names@[k])@,
        ) by {
            assert(names@.to_multiset().count(names@[k]) > 0);
            assert(pre.contains(names@[k]));
            let j = choose|j: int| 0 <= j < pre.len() && pre[j] == names@[k];
        }
    }
    let mut keys: Vec<crate::keychain::PublicKeyWrapper> = Vec::new();
    let mut i: usize = 0;
    while i < names.len()
        invariant
            i <= names@.len(),
            names@.len() > 0,
            b == path.spec_bytes(),
            resolved == paths::spec_resolve_from(lists@, b, b.len() - 1),
            paths::spec_path_is_safe(b),
            resolved is Some ==> names@.to_multiset() == paths::spec_filter_trusted(
                resolved->Some_0,
                trusted@,
            ).to_multiset(),
            forall|k: int| 0 <= k < names@.len() ==> trusted@.contains_key((#[trigger] names@[k])@),
            keys@.len() == i,
            forall|k: int|
                0 <= k < i ==> {
                    &&& (#[trigger] keys@[k]).device_id == names@[k]
                    &&& key_wf(keys@[k].key)
                    &&& trusted@.contains_key(keys@[k].device_id@)
                    &&& key_view(keys@[k].key) == trusted@[keys@[k].device_id@]
                },
        decreases names@.len() - i,
    {
        let name = &names[i];
        match trusted.get(name.as_str()) {
            Option::None => {
                // The resolver only returns names the trusted set knows.
                proof {
                    assert(trusted@.contains_key(names@[i as int]@));
                    assert(false);
                }
                return Result::Err(StoreError::Format);
            },
            Option::Some(key) => {
                let dup = key.duplicate();
                match &dup {
                    crate::keychain::PublicKey::Sodium(s) => {
                        if s.enc_key.len() != crate::crypto::BOX_PK_LEN || s.sign_key.len()
                            != crate::crypto::SIGN_PK_LEN {
                            proof {
                                broadcast use vstd::seq_lib::group_to_multiset_ensures;

                                assert(!gkey_wf(trusted@[names@[i as int]@]));
                                if resolved is Some {
                                    let f = paths::spec_filter_trusted(
                                        resolved->Some_0,
                                        trusted@,
                                    );
                                    assert(names@.to_multiset().count(names@[i as int]) > 0);
                                    assert(f.contains(names@[i as int]));
                                    let j = choose|j: int|
                                        0 <= j < f.len() && f[j] == names@[i as int];
                                    assert(!gkey_wf(trusted@[f[j]@]));
                                    assert(!all_keys_wf(f, trusted@));
                                }
                            }
                            return Result::Err(StoreError::Format);
                        }
                    },
                }
                keys.push(
                    crate::keychain::PublicKeyWrapper { device_id: name.clone(), key: dup },
                );
            },
        }
        i = i + 1;
    }
    let v = Vault::seal_vault(payload, &keys);
    proof {
        broadcast use vstd::seq_lib::group_to_multiset_ensures;

        let sym = choose|sym: Seq<u8>| seal_rel(v, payload@, keys@, sym);
        assert(seal_rel(v, payload@, keys@, sym));
        assert(forall|k: int|
            0 <= k < v.recipients@.len() ==> (#[trigger] v.recipients@[k]).device_id
                == names@[k]);
        lemma_rec_names_pointwise(v.recipients@, names@);
        if resolved is None {
            assert forall|id: Seq<char>| trusted@.contains_key(id) implies exists|k: int|
                0 <= k < v.recipients@.len() && (#[trigger] v.recipients@[k]).device_id@
                    == id by {
                let j0 = choose|j: int| 0 <= j < pre.len() && (#[trigger] pre[j])@ == id;
                assert(pre.to_multiset().count(pre[j0]) > 0);
                assert(names@.contains(pre[j0]));
                let k0 = choose|k: int| 0 <= k < names@.len() && names@[k] == pre[j0];
                assert(v.recipients@[k0].device_id@ == id);
            }
        }
    }
    let result: Result<Vault, StoreError> = Result::Ok(v);
    proof {
        assert(result is Ok && result->Ok_0 == v);
    }
    result
}

/// Opens the vault of a store path with the unlock list: the plaintext, or
/// `NoUsableKey` when no recipient's key opens it.
pub fn read_secret(vault: &Vault, unlock: &Vec<(String, Vec<u8>)>) -> (r: Result<
    Vec<u8>,
    StoreError,
>)
    ensures
        match r {
            Result::Ok(m) => spec_open_vault(*vault, unlock@, 0) == Some(m@),
            Result::Err(e) => e == StoreError::NoUsableKey && spec_open_vault(*vault, unlock@, 0)
                is None,
        },
{
    match vault.open_vault(unlock) {
        Option::Some(m) => Result::Ok(m),
        Option::None => Result::Err(StoreError::NoUsableKey),
    }
}

} // verus!
