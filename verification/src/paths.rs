//! Path safety: store paths are checked lexically so that no `..` chain
//! leaves the store, and a path is mapped to the recipient list of its
//! nearest ancestor directory.

use vstd::prelude::*;

use crate::errors::StoreError;
use crate::keychain::{names_cover, names_distinct, GKey, TrustedKeys};

verus! {

use vstd::multiset::Multiset;
use vstd::string::StringSliceAdditionalSpecFns;

/// How one path segment moves the depth: `..` up, `.` and the empty
/// segment nowhere, any other segment down into a directory.
pub open spec fn seg_delta(seg: Seq<u8>) -> int {
    if seg == seq![46u8, 46u8] {
        -1
    } else if seg == seq![46u8] || seg.len() == 0 {
        0
    } else {
        1
    }
}

/// Whether the rest of a path stays inside the store, given the bytes of
/// the segment read so far and the depth reached so far.
pub open spec fn spec_path_safe(b: Seq<u8>, seg: Seq<u8>, depth: int) -> bool
    decreases b.len(),
{
    if b.len() == 0 {
        depth + seg_delta(seg) >= 0
    } else if b.first() == 47 {
        let d2 = depth + seg_delta(seg);
        d2 >= 0 && spec_path_safe(b.drop_first(), Seq::empty(), d2)
    } else {
        spec_path_safe(b.drop_first(), seg.push(b.first()), depth)
    }
}

/// Whether a store-relative path stays inside the store: it is not
/// absolute, and no `..` chain climbs above the store root.
pub open spec fn spec_path_is_safe(b: Seq<u8>) -> bool {
    b.len() > 0 ==> (b.first() != 47 && spec_path_safe(b, Seq::empty(), 0))
}

proof fn lemma_seg_shape(seg: Seq<u8>, len: int, dots: bool)
    requires
        seg.len() == len,
        dots == (forall|k: int| 0 <= k < seg.len() ==> seg[k] == 46),
    ensures
        len == 2 && dots ==> seg_delta(seg) == -1,
        len == 0 || (len == 1 && dots) ==> seg_delta(seg) == 0,
        !(len == 2 && dots) && len != 0 && !(len == 1 && dots) ==> seg_delta(seg) == 1,
{
    if len == 2 && dots {
        assert(seg =~= seq![46u8, 46u8]);
    } else if len == 1 && dots {
        assert(seg =~= seq![46u8]);
    } else if len != 0 {
        if seg == seq![46u8, 46u8] {
            assert(seg[0] == 46 && seg[1] == 46);
            assert(forall|k: int| 0 <= k < seg.len() ==> seg[k] == 46);
            assert(false);
        }
        if seg == seq![46u8] {
            assert(seg[0] == 46);
            assert(forall|k: int| 0 <= k < seg.len() ==> seg[k] == 46);
            assert(false);
        }
        assert(seg_delta(seg) == 1);
    }
}

/// Whether a store-relative path stays inside the store.
pub fn path_is_safe(p: &str) -> (r: bool)
    ensures
        r == spec_path_is_safe(p.spec_bytes()),
{
    let bs = p.as_bytes();
    let ghost all = bs@;
    if bs.len() == 0 {
        return true;
    }
    if bs[0] == 47 {
        return false;
    }
    let mut depth: usize = 0;
    let mut seg_len: usize = 0;
    let mut all_dots = true;
    let mut i: usize = 0;
    let ghost mut seg_start: int = 0;
    proof {
        assert(all.skip(0) =~= all);
        assert(all.subrange(0, 0) =~= Seq::<u8>::empty());
    }
    while i < bs.len()
        invariant
            bs@ == all,
            all == p.spec_bytes(),
            all.len() > 0,
            all.first() != 47,
            0 <= seg_start <= i as int <= all.len(),
            2 * (depth as int) <= seg_start,
            seg_len == i as int - seg_start,
            all_dots == (forall|k: int|
                seg_start <= k < i as int ==> all[k] == 46),
            forall|k: int| seg_start <= k < i as int ==> all[k] != 47,
            spec_path_safe(all, Seq::empty(), 0) <==> spec_path_safe(
                all.skip(i as int),
                all.subrange(seg_start, i as int),
                depth as int,
            ),
        decreases all.len() - i,
    {
        let ghost seg = all.subrange(seg_start, i as int);
        proof {
            assert(all.skip(i as int).first() == all[i as int]);
            assert(all.skip(i as int).drop_first() =~= all.skip(i + 1));
            assert(forall|k: int| 0 <= k < seg.len() ==> seg[k] == all[seg_start + k]);
            if all_dots {
                assert forall|k: int| 0 <= k < seg.len() implies seg[k] == 46 by {
                    assert(seg[k] == all[seg_start + k]);
                }
            } else {
                let k0 = choose|k: int| seg_start <= k < i as int && all[k] != 46;
                assert(seg[k0 - seg_start] != 46);
            }
            lemma_seg_shape(seg, seg_len as int, all_dots);
        }
        let b = bs[i];
        if b == 47 {
            let d: usize = if seg_len == 2 && all_dots {
                if depth == 0 {
                    return false;
                }
                depth - 1
            } else if seg_len == 0 || (seg_len == 1 && all_dots) {
                depth
            } else {
                proof {
                    assert(2 * (depth as int) <= seg_start);
                    assert(seg_start + 1 <= i as int);
                }
                depth + 1
            };
            depth = d;
            seg_len = 0;
            all_dots = true;
            proof {
                seg_start = i + 1;
                assert(all.subrange(seg_start, i + 1) =~= Seq::<u8>::empty());
            }
        } else {
            if b != 46 {
                all_dots = false;
            }
            seg_len = seg_len + 1;
            proof {
                assert(all.subrange(seg_start, i + 1) =~= seg.push(all[i as int]));
            }
        }
        i = i + 1;
    }
    let ghost seg = all.subrange(seg_start, all.len() as int);
    proof {
        assert(all.skip(all.len() as int).len() == 0);
        assert(forall|k: int| 0 <= k < seg.len() ==> seg[k] == all[seg_start + k]);
        if all_dots {
            assert forall|k: int| 0 <= k < seg.len() implies seg[k] == 46 by {
                assert(seg[k] == all[seg_start + k]);
            }
        } else {
            let k0 = choose|k: int| seg_start <= k < all.len() as int && all[k] != 46;
            assert(seg[k0 - seg_start] != 46);
        }
        lemma_seg_shape(seg, seg_len as int, all_dots);
    }
    if seg_len == 2 && all_dots {
        if depth == 0 {
            return false;
        }
        return true;
    }
    true
}

/// The first recipient list recorded under exactly the directory named by
/// the byte string `dir`.
pub open spec fn spec_lookup(lists: Seq<(String, Vec<String>)>, dir: Seq<u8>) -> Option<
    Seq<String>,
>
    decreases lists.len(),
{
    if lists.len() == 0 {
        Option::None
    } else if vstd::utf8::encode_utf8(lists.first().0@) == dir {
        Option::Some(lists.first().1@)
    } else {
        spec_lookup(lists.drop_first(), dir)
    }
}

/// The recipient list of the nearest ancestor directory of the path whose
/// bytes are `b`, walking the cut positions from `c` down: a cut is the
/// store root or a `/`, and the directory is what stands before the cut.
pub open spec fn spec_resolve_from(
    lists: Seq<(String, Vec<String>)>,
    b: Seq<u8>,
    c: int,
) -> Option<Seq<String>>
    decreases c + 1,
{
    if c < 0 {
        Option::None
    } else if (0 <= c < b.len() && b[c] == 47) || c == 0 {
        match spec_lookup(lists, b.take(c)) {
            Option::Some(n) => Option::Some(n),
            Option::None => spec_resolve_from(lists, b, c - 1),
        }
    } else {
        spec_resolve_from(lists, b, c - 1)
    }
}

/// The names of `ns` that the trusted set knows, in their given order.
pub open spec fn spec_filter_trusted(ns: Seq<String>, t: Map<Seq<char>, GKey>) -> Seq<String>
    decreases ns.len(),
{
    if ns.len() == 0 {
        ns
    } else if t.contains_key(ns.last()@) {
        spec_filter_trusted(ns.drop_last(), t).push(ns.last())
    } else {
        spec_filter_trusted(ns.drop_last(), t)
    }
}

/// Whether a string holds exactly the first `c` bytes of `b`.
fn is_prefix_at(s: &str, b: &[u8], c: usize) -> (r: bool)
    requires
        c <= b@.len(),
    ensures
        r == (s.spec_bytes() == b@.take(c as int)),
{
    let sb = s.as_bytes();
    if sb.len() != c {
        proof {
            assert(b@.take(c as int).len() == c as int);
        }
        return false;
    }
    let mut i: usize = 0;
    while i < c
        invariant
            i <= c <= b@.len(),
            sb@ == s.spec_bytes(),
            sb@.len() == c,
            forall|k: int| 0 <= k < i ==> sb@[k] == b@[k],
        decreases c - i,
    {
        if sb[i] != b[i] {
            proof {
                assert(b@.take(c as int)[i as int] == b@[i as int]);
            }
            return false;
        }
        i = i + 1;
    }
    proof {
        assert(sb@ =~= b@.take(c as int));
    }
    true
}

/// The recipient list recorded under the directory `b[..c]`, if any.
fn lookup_list<'a>(lists: &'a Vec<(String, Vec<String>)>, b: &[u8], c: usize) -> (r: Option<
    &'a Vec<String>,
>)
    requires
        c <= b@.len(),
    ensures
        match r {
            Option::Some(n) => spec_lookup(lists@, b@.take(c as int)) == Some(n@),
            Option::None => spec_lookup(lists@, b@.take(c as int)) is None,
        },
{
    let ghost dir = b@.take(c as int);
    let mut i: usize = 0;
    proof {
        assert(lists@.skip(0) =~= lists@);
    }
    while i < lists.len()
        invariant
            i <= lists@.len(),
            c <= b@.len(),
            dir == b@.take(c as int),
            spec_lookup(lists@, dir) == spec_lookup(lists@.skip(i as int), dir),
        decreases lists@.len() - i,
    {
        proof {
            assert(lists@.skip(i as int).first() == lists@[i as int]);
            assert(lists@.skip(i as int).drop_first() =~= lists@.skip(i + 1));
        }
        if is_prefix_at(lists[i].0.as_str(), b, c) {
            return Option::Some(&lists[i].1);
        }
        i = i + 1;
    }
    proof {
        assert(lists@.skip(lists@.len() as int).len() == 0);
    }
    Option::None
}

/// The names of `ns` that the trusted set knows, in their given order.
fn filter_trusted(ns: &Vec<String>, trusted: &TrustedKeys) -> (r: Vec<String>)
    ensures
        r@ == spec_filter_trusted(ns@, trusted@),
{
    let mut out: Vec<String> = Vec::new();
    let mut i: usize = 0;
    proof {
        assert(ns@.take(0) =~= Seq::<String>::empty());
        assert(out@ =~= spec_filter_trusted(ns@.take(0), trusted@));
    }
    while i < ns.len()
        invariant
            i <= ns@.len(),
            out@ == spec_filter_trusted(ns@.take(i as int), trusted@),
        decreases ns@.len() - i,
    {
        proof {
            assert(ns@.take(i + 1).drop_last() =~= ns@.take(i as int));
            assert(ns@.take(i + 1).last() == ns@[i as int]);
        }
        if trusted.contains_key(ns[i].as_str()) {
            out.push(ns[i].clone());
        }
        i = i + 1;
    }
    proof {
        assert(ns@.take(ns@.len() as int) =~= ns@);
    }
    out
}

/// Lexicographic order on byte strings: the shorter of two equal-prefix
/// strings comes first.
pub open spec fn bytes_le(a: Seq<u8>, b: Seq<u8>) -> bool
    decreases a.len(),
{
    if a.len() == 0 {
        true
    } else if b.len() == 0 {
        false
    } else if a.first() != b.first() {
        a.first() < b.first()
    } else {
        bytes_le(a.drop_first(), b.drop_first())
    }
}

/// Lexicographic order on names, over their bytes.
pub open spec fn name_le(a: String, b: String) -> bool {
    bytes_le(vstd::utf8::encode_utf8(a@), vstd::utf8::encode_utf8(b@))
}

/// A name list in nondecreasing order.
pub open spec fn names_sorted(s: Seq<String>) -> bool {
    forall|k: int| 0 <= k < s.len() - 1 ==> name_le(#[trigger] s[k], s[k + 1])
}

proof fn lemma_bytes_le_total(a: Seq<u8>, b: Seq<u8>)
    ensures
        bytes_le(a, b) || bytes_le(b, a),
    decreases a.len(),
{
    if a.len() > 0 && b.len() > 0 && a.first() == b.first() {
        lemma_bytes_le_total(a.drop_first(), b.drop_first());
    }
}

/// Whether `a` comes no later than `b` in the recipient order.
fn str_le(a: &str, b: &str) -> (r: bool)
    ensures
        r == bytes_le(a.spec_bytes(), b.spec_bytes()),
{
    let ab = a.as_bytes();
    let bb = b.as_bytes();
    let ghost sa = a.spec_bytes();
    let ghost sb = b.spec_bytes();
    let mut i: usize = 0;
    proof {
        assert(sa.skip(0) =~= sa);
        assert(sb.skip(0) =~= sb);
    }
    while i < ab.len() && i < bb.len()
        invariant
            i <= ab@.len(),
            i <= bb@.len(),
            ab@ == sa,
            bb@ == sb,
            sa == a.spec_bytes(),
            sb == b.spec_bytes(),
            bytes_le(sa, sb) == bytes_le(sa.skip(i as int), sb.skip(i as int)),
        decreases ab@.len() - i,
    {
        proof {
            assert(sa.skip(i as int).first() == sa[i as int]);
            assert(sb.skip(i as int).first() == sb[i as int]);
            assert(sa.skip(i as int).drop_first() =~= sa.skip(i + 1));
            assert(sb.skip(i as int).drop_first() =~= sb.skip(i + 1));
        }
        if ab[i] != bb[i] {
            proof {
                assert(bytes_le(sa.skip(i as int), sb.skip(i as int)) == (sa[i as int]
                    < sb[i as int]));
            }
            return ab[i] < bb[i];
        }
        i = i + 1;
    }
    proof {
        if i >= ab@.len() {
            assert(sa.skip(i as int).len() == 0);
        } else {
            assert(sb.skip(i as int).len() == 0);
            assert(sa.skip(i as int).len() > 0);
        }
    }
    ab.len() <= bb.len()
}

proof fn lemma_empty_to_multiset()
    ensures
        Seq::<String>::empty().to_multiset() == Multiset::<String>::empty(),
{
    broadcast use vstd::seq_lib::group_to_multiset_ensures;
    broadcast use vstd::multiset::group_multiset_axioms;

    let e = Seq::<String>::empty();
    assert forall|y: String| e.to_multiset().count(y) == 0 by {
        assert(!e.contains(y));
    }
    assert(e.to_multiset() =~= Multiset::<String>::empty());
}

proof fn lemma_seq_insert_multiset(s: Seq<String>, j: int, x: String)
    requires
        0 <= j <= s.len(),
    ensures
        s.insert(j, x).to_multiset() == s.to_multiset().insert(x),
{
    broadcast use vstd::seq_lib::group_to_multiset_ensures;
    broadcast use vstd::multiset::group_multiset_axioms;

    let left = s.take(j);
    let right = s.skip(j);
    assert(s.insert(j, x) =~= left + (seq![x] + right));
    vstd::seq_lib::lemma_multiset_commutative(left, seq![x] + right);
    vstd::seq_lib::lemma_multiset_commutative(seq![x], right);
    assert(s =~= left + right);
    vstd::seq_lib::lemma_multiset_commutative(left, right);
    assert(seq![x].to_multiset() =~= Multiset::<String>::empty().insert(x)) by {
        lemma_empty_to_multiset();
        assert(seq![x] =~= Seq::<String>::empty().push(x));
        assert(Seq::<String>::empty().push(x).to_multiset() =~= Seq::<
            String,
        >::empty().to_multiset().insert(x));
    }
    assert(s.insert(j, x).to_multiset() =~= s.to_multiset().insert(x));
}

/// Sorts recipient names into the stable order vaults are written with:
/// nondecreasing by name, the same names kept.
pub fn sort_names(names: Vec<String>) -> (r: Vec<String>)
    ensures
        names_sorted(r@),
        r@.to_multiset() == names@.to_multiset(),
        r@.len() == names@.len(),
{
    let mut input = names;
    let ghost all = input@;
    let mut out: Vec<String> = Vec::new();
    proof {
        broadcast use vstd::multiset::group_multiset_axioms;

        lemma_empty_to_multiset();
        assert(out@ =~= Seq::<String>::empty());
        assert(all.to_multiset() =~= out@.to_multiset().add(input@.to_multiset()));
    }
    while input.len() > 0
        invariant
            names_sorted(out@),
            all.to_multiset() == out@.to_multiset().add(input@.to_multiset()),
            all.len() == out@.len() + input@.len(),
        decreases input@.len(),
    {
        let ghost prev_input = input@;
        let x = input.remove(0);
        proof {
            broadcast use vstd::seq_lib::group_to_multiset_ensures;
            broadcast use vstd::multiset::group_multiset_axioms;

            assert(input@ =~= prev_input.remove(0));
            assert(x == prev_input[0]);
            assert(prev_input.remove(0).to_multiset() =~= prev_input.to_multiset().remove(
                prev_input[0],
            ));
            assert(prev_input.contains(x));
            assert(prev_input.to_multiset().count(x) > 0);
            assert(prev_input.to_multiset() =~= input@.to_multiset().insert(x));
        }
        let mut j: usize = 0;
        while j < out.len() && str_le(out[j].as_str(), x.as_str())
            invariant
                j <= out@.len(),
                forall|k: int| 0 <= k < j ==> name_le(#[trigger] out@[k], x),
            decreases out@.len() - j,
        {
            j = j + 1;
        }
        let ghost before = out@;
        proof {
            if j < out@.len() {
                lemma_bytes_le_total(
                    vstd::utf8::encode_utf8(x@),
                    vstd::utf8::encode_utf8(out@[j as int]@),
                );
            }
        }
        out.insert(j, x);
        proof {
            assert(out@ == before.insert(j as int, x));
            lemma_seq_insert_multiset(before, j as int, x);
            assert(out@.to_multiset() =~= before.to_multiset().insert(x));
            assert(out@.to_multiset().add(input@.to_multiset()) =~= before.to_multiset().add(
                input@.to_multiset().insert(x),
            ));
            assert forall|k: int| 0 <= k < out@.len() - 1 implies name_le(
                #[trigger] out@[k],
                out@[k + 1],
            ) by {
                if k + 1 < j {
                    assert(out@[k] == before[k] && out@[k + 1] == before[k + 1]);
                } else if k + 1 == j {
                    assert(out@[k] == before[k] && out@[k + 1] == x);
                } else if k == j {
                    assert(out@[k] == x && out@[k + 1] == before[k]);
                } else {
                    assert(out@[k] == before[k - 1] && out@[k + 1] == before[k]);
                }
            }
        }
    }
    proof {
        broadcast use vstd::multiset::group_multiset_axioms;

        lemma_empty_to_multiset();
        assert(input@ =~= Seq::<String>::empty());
        assert(all.to_multiset() =~= out@.to_multiset());
        broadcast use vstd::seq_lib::group_to_multiset_ensures;

        assert(all.len() == all.to_multiset().len() && out@.len() == out@.to_multiset().len());
    }
    out
}

/// All device ids of the trusted set, each once.
pub fn get_all_key_names(trusted: &TrustedKeys) -> (r: Vec<String>)
    ensures
        names_cover(r@, trusted@),
        names_distinct(r@),
{
    trusted.key_names()
}

/// The recipient names for a store path: the nearest ancestor directory's
/// recorded list, or every trusted key where no directory records one,
/// with names the trusted set does not know dropped. A path that escapes
/// the store is refused with `PathEscape`; an empty outcome with
/// `NoRecipients`.
pub fn get_key_names_for_path(
    lists: &Vec<(String, Vec<String>)>,
    path: &str,
    trusted: &TrustedKeys,
) -> (r: Result<Vec<String>, StoreError>)
    ensures
        r is Ok ==> spec_path_is_safe(path.spec_bytes()),
        r is Ok ==> r->Ok_0@.len() > 0,
        r is Ok && spec_resolve_from(lists@, path.spec_bytes(), path.spec_bytes().len() - 1)
            is Some ==> r->Ok_0@ == spec_filter_trusted(
            spec_resolve_from(lists@, path.spec_bytes(), path.spec_bytes().len() - 1)->Some_0,
            trusted@,
        ),
        r is Ok && spec_resolve_from(lists@, path.spec_bytes(), path.spec_bytes().len() - 1)
            is None ==> names_cover(r->Ok_0@, trusted@) && names_distinct(r->Ok_0@),
        r is Err ==> {
            ||| (r->Err_0 == StoreError::PathEscape && !spec_path_is_safe(path.spec_bytes()))
            ||| (r->Err_0 == StoreError::NoRecipients && spec_path_is_safe(path.spec_bytes())
                && match spec_resolve_from(
                lists@,
                path.spec_bytes(),
                path.spec_bytes().len() - 1,
            ) {
                Option::Some(ns) => spec_filter_trusted(ns, trusted@).len() == 0,
                Option::None => trusted@.dom() =~= Set::<Seq<char>>::empty(),
            })
        },
{
    if !path_is_safe(path) {
        return Result::Err(StoreError::PathEscape);
    }
    let bs = path.as_bytes();
    let ghost all = bs@;
    let mut ci: usize = bs.len();
    let mut found: Option<&Vec<String>> = Option::None;
    while ci > 0
        invariant
            ci <= bs@.len(),
            bs@ == all,
            match found {
                Option::Some(n) => spec_resolve_from(lists@, all, all.len() - 1) == Some(n@),
                Option::None => spec_resolve_from(lists@, all, all.len() - 1)
                    == spec_resolve_from(lists@, all, ci as int - 1),
            },
        decreases ci,
    {
        let c = ci - 1;
        let is_cut = c == 0 || bs[c] == 47;
        if is_cut {
            match found {
                Option::None => {
                    match lookup_list(lists, bs, c) {
                        Option::Some(n) => {
                            found = Option::Some(n);
                        },
                        Option::None => {},
                    }
                },
                Option::Some(_) => {},
            }
        }
        ci = c;
    }
    let base: Vec<String> = match found {
        Option::Some(ns) => filter_trusted(ns, trusted),
        Option::None => trusted.key_names(),
    };
    if base.len() == 0 {
        proof {
            if found is None {
                assert(trusted@.dom() =~= Set::<Seq<char>>::empty()) by {
                    if exists|id: Seq<char>| trusted@.dom().contains(id) {
                        let id = choose|id: Seq<char>| trusted@.dom().contains(id);
                        assert(trusted@.contains_key(id));
                    }
                }
            }
        }
        return Result::Err(StoreError::NoRecipients);
    }
    proof {
        let b = path.spec_bytes();
        let resolved = spec_resolve_from(lists@, b, b.len() - 1);
        match found {
            Option::Some(n) => {
                assert(resolved == Some(n@));
                assert(base@ == spec_filter_trusted(resolved->Some_0, trusted@));
            },
            Option::None => {
                assert(resolved is None);
                assert(names_cover(base@, trusted@));
            },
        }
    }
    Result::Ok(base)
}

} // verus!
