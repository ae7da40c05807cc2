//! Objects as the fixups read and write them: looking a member up, taking
//! it out, and setting it the way an ordered map does.
use vstd::prelude::*;

use crate::gltf::text::{
    bytes_less, lemma_bytes_less_irreflexive, lemma_bytes_less_total, lemma_bytes_less_transitive,
    lemma_text_bytes_injective, same_text, text_bytes, text_less,
};
use crate::gltf::{members, model, Json, JsonModel, Members};

verus! {

/// Position of the first element of `s` satisfying `p`
#[verifier::opaque]
pub open spec fn first_of<A>(s: Seq<A>, p: spec_fn(A) -> bool) -> Option<int> {
    if exists|i: int| 0 <= i < s.len() && p(#[trigger] s[i]) {
        Some(choose|i: int| 0 <= i < s.len() && p(#[trigger] s[i]) && forall|j: int| 0 <= j < i ==> !p(#[trigger] s[j]))
    } else {
        None
    }
}

/// A element satisfying `p` has a first one before or at it
proof fn lemma_least<A>(s: Seq<A>, p: spec_fn(A) -> bool, i: int)
    requires
        0 <= i < s.len(),
        p(s[i]),
    ensures
        exists|c: int| 0 <= c < s.len() && p(#[trigger] s[c]) && forall|j: int| 0 <= j < c ==> !p(#[trigger] s[j]),
    decreases i,
{
    if exists|j: int| 0 <= j < i && p(#[trigger] s[j]) {
        let j = choose|j: int| 0 <= j < i && p(#[trigger] s[j]);
        lemma_least(s, p, j);
    } else {
        assert(p(s[i]) && forall|j: int| 0 <= j < i ==> !p(#[trigger] s[j]));
    }
}

/// What `first_of` finds: an element satisfying `p` with none before it
pub proof fn lemma_first_of<A>(s: Seq<A>, p: spec_fn(A) -> bool)
    ensures
        match first_of(s, p) {
            Some(i) => 0 <= i < s.len() && p(s[i]) && forall|j: int| 0 <= j < i ==> !p(#[trigger] s[j]),
            None => forall|j: int| 0 <= j < s.len() ==> !p(#[trigger] s[j]),
        },
{
    reveal(first_of);
    if exists|i: int| 0 <= i < s.len() && p(#[trigger] s[i]) {
        let i = choose|i: int| 0 <= i < s.len() && p(#[trigger] s[i]);
        lemma_least(s, p, i);
    }
}

/// An element satisfying `p` with none before it is what `first_of` finds
pub proof fn lemma_first_of_found<A>(s: Seq<A>, p: spec_fn(A) -> bool, i: int)
    requires
        0 <= i < s.len(),
        p(s[i]),
        forall|j: int| 0 <= j < i ==> !p(#[trigger] s[j]),
    ensures
        first_of(s, p) == Some(i),
{
    reveal(first_of);
    let c = choose|c: int| 0 <= c < s.len() && p(#[trigger] s[c]) && forall|j: int| 0 <= j < c ==> !p(#[trigger] s[j]);
    assert(p(s[i]));
    if c < i {
        assert(!p(s[c]));
    }
    if i < c {
        assert(!p(s[i]));
    }
}

/// Members whose key is `k`
pub open spec fn has_key(k: Seq<char>) -> spec_fn((Seq<char>, JsonModel)) -> bool {
    |e: (Seq<char>, JsonModel)| e.0 == k
}

/// Members whose key sorts after `k`
pub open spec fn key_after(k: Seq<char>) -> spec_fn((Seq<char>, JsonModel)) -> bool {
    |e: (Seq<char>, JsonModel)| bytes_less(text_bytes(k), text_bytes(e.0))
}

/// The value of member `k` of `m`
pub open spec fn obj_get(m: Members, k: Seq<char>) -> Option<JsonModel> {
    match first_of(m, has_key(k)) {
        Some(i) => Some(m[i].1),
        None => None,
    }
}

/// `m` without member `k`
pub open spec fn obj_remove(m: Members, k: Seq<char>) -> Members {
    match first_of(m, has_key(k)) {
        Some(i) => m.remove(i),
        None => m,
    }
}

/// `m` with member `k` set to `v`, as an ordered map sets it: replaced where
/// `k` is a key of `m`, else added before the first member whose key sorts
/// after `k`
pub open spec fn obj_insert(m: Members, k: Seq<char>, v: JsonModel) -> Members {
    match first_of(m, has_key(k)) {
        Some(i) => m.update(i, (k, v)),
        None => match first_of(m, key_after(k)) {
            Some(j) => m.insert(j, (k, v)),
            None => m.push((k, v)),
        },
    }
}

/// Every member of `obj_remove(m, k)` is a member of `m`
pub proof fn lemma_obj_remove_members(m: Members, k: Seq<char>)
    ensures
        forall|i: int| 0 <= i < obj_remove(m, k).len() ==> m.contains(#[trigger] obj_remove(m, k)[i]),
{
    lemma_first_of(m, has_key(k));
    match first_of(m, has_key(k)) {
        Some(x) => {
            assert forall|i: int| 0 <= i < obj_remove(m, k).len() implies m.contains(#[trigger] obj_remove(m, k)[i]) by {
                if i < x {
                    assert(obj_remove(m, k)[i] == m[i]);
                } else {
                    assert(obj_remove(m, k)[i] == m[i + 1]);
                }
            }
        },
        None => {
            assert forall|i: int| 0 <= i < obj_remove(m, k).len() implies m.contains(#[trigger] obj_remove(m, k)[i]) by {
                assert(obj_remove(m, k)[i] == m[i]);
            }
        },
    }
}

/// Every member of `obj_insert(m, k, v)` is a member of `m` or `(k, v)`
pub proof fn lemma_obj_insert_members(m: Members, k: Seq<char>, v: JsonModel)
    ensures
        forall|i: int| 0 <= i < obj_insert(m, k, v).len() ==> m.contains(#[trigger] obj_insert(m, k, v)[i]) || obj_insert(m, k, v)[i] == (k, v),
        obj_insert(m, k, v).contains((k, v)),
{
    lemma_first_of(m, has_key(k));
    lemma_first_of(m, key_after(k));
    let r = obj_insert(m, k, v);
    match first_of(m, has_key(k)) {
        Some(x) => {
            assert(r[x] == (k, v));
            assert forall|i: int| 0 <= i < r.len() implies m.contains(#[trigger] r[i]) || r[i] == (k, v) by {
                if i != x {
                    assert(r[i] == m[i]);
                }
            }
        },
        None => match first_of(m, key_after(k)) {
            Some(x) => {
                assert(r[x] == (k, v));
                assert forall|i: int| 0 <= i < r.len() implies m.contains(#[trigger] r[i]) || r[i] == (k, v) by {
                    if i < x {
                        assert(r[i] == m[i]);
                    } else if i > x {
                        assert(r[i] == m[i - 1]);
                    }
                }
            },
            None => {
                assert(r[m.len() as int] == (k, v));
                assert forall|i: int| 0 <= i < r.len() implies m.contains(#[trigger] r[i]) || r[i] == (k, v) by {
                    if i < m.len() {
                        assert(r[i] == m[i]);
                    }
                }
            },
        },
    }
}

/// Position of the first member with key `k`
pub fn find_key(m: &Vec<(String, Json)>, k: &str) -> (r: Option<usize>)
    ensures
        match first_of(members(m@), has_key(k@)) {
            Some(i) => r is Some && r->0 == i && i < m@.len(),
            None => r is None,
        },
{
    let mut i: usize = 0;
    while i < m.len()
        invariant
            i <= m@.len(),
            forall|j: int| 0 <= j < i ==> !has_key(k@)(#[trigger] members(m@)[j]),
        decreases m@.len() - i,
    {
        if same_text(m[i].0.as_str(), k) {
            proof {
                lemma_first_of_found(members(m@), has_key(k@), i as int);
            }
            return Some(i);
        }
        i = i + 1;
    }
    proof {
        lemma_first_of(members(m@), has_key(k@));
    }
    None
}

/// Position of the first member whose key sorts after `k`
fn find_key_after(m: &Vec<(String, Json)>, k: &str) -> (r: Option<usize>)
    ensures
        match first_of(members(m@), key_after(k@)) {
            Some(i) => r is Some && r->0 == i && i < m@.len(),
            None => r is None,
        },
{
    let mut i: usize = 0;
    while i < m.len()
        invariant
            i <= m@.len(),
            forall|j: int| 0 <= j < i ==> !key_after(k@)(#[trigger] members(m@)[j]),
        decreases m@.len() - i,
    {
        if text_less(k, m[i].0.as_str()) {
            proof {
                lemma_first_of_found(members(m@), key_after(k@), i as int);
            }
            return Some(i);
        }
        i = i + 1;
    }
    proof {
        lemma_first_of(members(m@), key_after(k@));
    }
    None
}

/// The value of member `k` of `m`
pub fn get_member<'a>(m: &'a Vec<(String, Json)>, k: &str) -> (r: Option<&'a Json>)
    ensures
        match obj_get(members(m@), k@) {
            Some(x) => r is Some && model(*r->0) == x,
            None => r is None,
        },
{
    let found = find_key(m, k);
    proof {
        lemma_first_of(members(m@), has_key(k@));
    }
    match found {
        Some(i) => {
            assert(members(m@)[i as int].1 == model(m@[i as int].1));
            Some(&m[i].1)
        },
        None => None,
    }
}

/// Takes member `k` out of `m`, returning its value
pub fn take_member(m: &mut Vec<(String, Json)>, k: &str) -> (r: Option<Json>)
    ensures
        match obj_get(members(old(m)@), k@) {
            Some(x) => r is Some && model(r->0) == x,
            None => r is None,
        },
        members(final(m)@) == obj_remove(members(old(m)@), k@),
{
    let found = find_key(m, k);
    proof {
        lemma_first_of(members(old(m)@), has_key(k@));
    }
    match found {
        Some(i) => {
            let (_, v) = m.remove(i);
            assert(members(m@) =~= members(old(m)@).remove(i as int));
            Some(v)
        },
        None => None,
    }
}

/// Sets member `key` of `m` to `v`
pub fn put_member(m: &mut Vec<(String, Json)>, key: String, v: Json)
    ensures
        members(final(m)@) == obj_insert(members(old(m)@), key@, model(v)),
{
    let found = find_key(m, key.as_str());
    let after = find_key_after(m, key.as_str());
    proof {
        lemma_first_of(members(old(m)@), has_key(key@));
        lemma_first_of(members(old(m)@), key_after(key@));
    }
    let ghost e = (key@, model(v));
    match found {
        Some(i) => {
            m.remove(i);
            m.insert(i, (key, v));
            assert(members(m@) =~= members(old(m)@).update(i as int, e));
            assert(members(m@) == obj_insert(members(old(m)@), key@, model(v)));
        },
        None => match after {
            Some(j) => {
                m.insert(j, (key, v));
                assert(members(m@) =~= members(old(m)@).insert(j as int, e));
                assert(members(m@) == obj_insert(members(old(m)@), key@, model(v)));
            },
            None => {
                m.push((key, v));
                assert(members(m@) =~= members(old(m)@).push(e));
                assert(members(m@) == obj_insert(members(old(m)@), key@, model(v)));
            },
        },
    }
}

/// Reading a member just set gives back the value set, and setting a
/// member leaves the value read under every other key unchanged
pub proof fn law_obj_insert_get(m: Members, k: Seq<char>, v: JsonModel, other: Seq<char>)
    requires
        other != k,
    ensures
        obj_get(obj_insert(m, k, v), k) == Some(v),
        obj_get(obj_insert(m, k, v), other) == obj_get(m, other),
{
    let r = obj_insert(m, k, v);
    lemma_first_of(m, has_key(k));
    lemma_first_of(m, key_after(k));
    lemma_first_of(m, has_key(other));
    lemma_first_of(r, has_key(k));
    lemma_first_of(r, has_key(other));
    match first_of(m, has_key(k)) {
        Some(i) => {
            assert(has_key(k)(r[i]));
            assert forall|j: int| 0 <= j < i implies !has_key(k)(#[trigger] r[j]) by {
                assert(r[j] == m[j]);
            }
            lemma_first_of_found(r, has_key(k), i);
            match first_of(m, has_key(other)) {
                Some(o) => {
                    assert(o != i);
                    assert forall|j: int| 0 <= j < o implies !has_key(other)(#[trigger] r[j]) by {
                        if j != i {
                            assert(r[j] == m[j]);
                        }
                    }
                    assert(r[o] == m[o]);
                    lemma_first_of_found(r, has_key(other), o);
                },
                None => {
                    assert forall|j: int| 0 <= j < r.len() implies !has_key(other)(#[trigger] r[j]) by {
                        if j != i {
                            assert(r[j] == m[j]);
                        }
                    }
                },
            }
        },
        None => {
            let p = match first_of(m, key_after(k)) {
                Some(j) => j,
                None => m.len() as int,
            };
            assert(r =~= m.insert(p, (k, v)));
            assert(has_key(k)(r[p]));
            assert forall|j: int| 0 <= j < p implies !has_key(k)(#[trigger] r[j]) by {
                assert(r[j] == m[j]);
            }
            lemma_first_of_found(r, has_key(k), p);
            match first_of(m, has_key(other)) {
                Some(o) => {
                    let o2 = if o < p { o } else { o + 1 };
                    assert(r[o2] == m[o]);
                    assert forall|j: int| 0 <= j < o2 implies !has_key(other)(#[trigger] r[j]) by {
                        if j < p {
                            assert(r[j] == m[j]);
                        } else if j > p {
                            assert(r[j] == m[j - 1]);
                        }
                    }
                    lemma_first_of_found(r, has_key(other), o2);
                },
                None => {
                    assert forall|j: int| 0 <= j < r.len() implies !has_key(other)(#[trigger] r[j]) by {
                        if j < p {
                            assert(r[j] == m[j]);
                        } else if j > p {
                            assert(r[j] == m[j - 1]);
                        }
                    }
                },
            }
        },
    }
}

/// Keys that occur once each
pub open spec fn unique_keys(m: Members) -> bool {
    forall|i: int, j: int| 0 <= i < j < m.len() ==> m[i].0 != m[j].0
}

/// In an object whose keys occur once each, a member taken out is gone,
/// and the other members read as before
pub proof fn law_obj_remove_get(m: Members, k: Seq<char>, other: Seq<char>)
    requires
        unique_keys(m),
        other != k,
    ensures
        obj_get(obj_remove(m, k), k) is None,
        obj_get(obj_remove(m, k), other) == obj_get(m, other),
{
    let r = obj_remove(m, k);
    lemma_first_of(m, has_key(k));
    lemma_first_of(m, has_key(other));
    lemma_first_of(r, has_key(k));
    lemma_first_of(r, has_key(other));
    match first_of(m, has_key(k)) {
        Some(i) => {
            assert forall|j: int| 0 <= j < r.len() implies !has_key(k)(#[trigger] r[j]) by {
                if j < i {
                    assert(r[j] == m[j]);
                } else {
                    assert(r[j] == m[j + 1]);
                    assert(m[i].0 != m[j + 1].0);
                }
            }
            match first_of(m, has_key(other)) {
                Some(o) => {
                    assert(o != i);
                    let o2 = if o < i { o } else { o - 1 };
                    assert(r[o2] == m[o]);
                    assert forall|j: int| 0 <= j < o2 implies !has_key(other)(#[trigger] r[j]) by {
                        if j < i {
                            assert(r[j] == m[j]);
                        } else {
                            assert(r[j] == m[j + 1]);
                        }
                    }
                    lemma_first_of_found(r, has_key(other), o2);
                },
                None => {
                    assert forall|j: int| 0 <= j < r.len() implies !has_key(other)(#[trigger] r[j]) by {
                        if j < i {
                            assert(r[j] == m[j]);
                        } else {
                            assert(r[j] == m[j + 1]);
                        }
                    }
                },
            }
        },
        None => {},
    }
}

/// Keys in strictly increasing byte order, as an ordered map holds them
pub open spec fn keys_ordered(m: Members) -> bool {
    forall|i: int, j: int| 0 <= i < j < m.len() ==> bytes_less(text_bytes(m[i].0), text_bytes(m[j].0))
}

/// Keys in increasing order occur once each
pub proof fn law_ordered_keys_unique(m: Members)
    requires
        keys_ordered(m),
    ensures
        unique_keys(m),
{
    assert forall|i: int, j: int| 0 <= i < j < m.len() implies m[i].0 != m[j].0 by {
        if m[i].0 == m[j].0 {
            lemma_bytes_less_irreflexive(text_bytes(m[i].0));
        }
    }
}

/// Taking a member out of an ordered object, or setting one, leaves its
/// keys ordered
pub proof fn law_ordered_objects_stay_ordered(m: Members, k: Seq<char>, v: JsonModel)
    requires
        keys_ordered(m),
    ensures
        keys_ordered(obj_remove(m, k)),
        keys_ordered(obj_insert(m, k, v)),
{
    lemma_first_of(m, has_key(k));
    lemma_first_of(m, key_after(k));
    let r = obj_remove(m, k);
    match first_of(m, has_key(k)) {
        Some(x) => {
            assert forall|i: int, j: int| 0 <= i < j < r.len() implies bytes_less(text_bytes(r[i].0), text_bytes(r[j].0)) by {
                let i0 = if i < x { i } else { i + 1 };
                let j0 = if j < x { j } else { j + 1 };
                assert(r[i] == m[i0] && r[j] == m[j0]);
            }
            let w = obj_insert(m, k, v);
            assert forall|i: int, j: int| 0 <= i < j < w.len() implies bytes_less(text_bytes(w[i].0), text_bytes(w[j].0)) by {
                assert(w[i].0 == m[i].0 && w[j].0 == m[j].0);
            }
        },
        None => {
            let w = obj_insert(m, k, v);
            let p = match first_of(m, key_after(k)) {
                Some(j) => j,
                None => m.len() as int,
            };
            assert(w =~= m.insert(p, (k, v)));
            assert forall|q: int| 0 <= q < p implies bytes_less(text_bytes(m[q].0), text_bytes(k)) by {
                assert(!has_key(k)(m[q]));
                assert(!key_after(k)(m[q]));
                lemma_text_bytes_injective(m[q].0, k);
                lemma_bytes_less_total(text_bytes(m[q].0), text_bytes(k));
            }
            assert forall|q: int| p <= q < m.len() implies bytes_less(text_bytes(k), text_bytes(m[q].0)) by {
                if q > p {
                    lemma_bytes_less_transitive(text_bytes(k), text_bytes(m[p].0), text_bytes(m[q].0));
                }
            }
            assert forall|i: int, j: int| 0 <= i < j < w.len() implies bytes_less(text_bytes(w[i].0), text_bytes(w[j].0)) by {
                if j < p {
                    assert(w[i] == m[i] && w[j] == m[j]);
                } else if j == p {
                    assert(w[i] == m[i]);
                } else if i < p {
                    assert(w[i] == m[i] && w[j] == m[j - 1]);
                    lemma_bytes_less_transitive(text_bytes(m[i].0), text_bytes(k), text_bytes(m[j - 1].0));
                } else if i == p {
                    assert(w[j] == m[j - 1]);
                } else {
                    assert(w[i] == m[i - 1] && w[j] == m[j - 1]);
                }
            }
        },
    }
}

} // verus!
