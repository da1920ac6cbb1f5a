//! Mathematical model of the registry.
//!
//! A registry state is a sequence of `(identity, weight)` pairs, ordered by
//! first insertion of each identity. Identities are byte strings, weights are
//! unbounded naturals. The executable types in `registry` abstract to this
//! model through their views.

use vstd::prelude::*;

verus! {

/// The abstract value of a big-endian magnitude byte string.
pub open spec fn be_nat(s: Seq<u8>) -> nat
    decreases s.len(),
{
    if s.len() == 0 {
        0
    } else {
        (256 * be_nat(s.drop_last()) + s.last()) as nat
    }
}

/// The identities of a registry state, in iteration order.
pub open spec fn reg_keys(s: Seq<(Seq<u8>, nat)>) -> Seq<Seq<u8>> {
    s.map_values(|p: (Seq<u8>, nat)| p.0)
}

/// Each identity occurs at most once.
pub open spec fn distinct_keys(s: Seq<(Seq<u8>, nat)>) -> bool {
    forall|i: int, j: int| 0 <= i < j < s.len() ==> s[i].0 != s[j].0
}

/// Index of the first entry whose identity is `k`, or `-1` if there is none.
pub open spec fn key_index(s: Seq<(Seq<u8>, nat)>, k: Seq<u8>) -> int
    decreases s.len(),
{
    if s.len() == 0 {
        -1
    } else if s[0].0 == k {
        0
    } else if key_index(s.drop_first(), k) < 0 {
        -1
    } else {
        key_index(s.drop_first(), k) + 1
    }
}

/// Whether `k` is present in the registry state.
pub open spec fn has_key(s: Seq<(Seq<u8>, nat)>, k: Seq<u8>) -> bool {
    key_index(s, k) >= 0
}

/// The weight recorded for `k`; absent identities resolve to zero.
pub open spec fn reg_lookup(s: Seq<(Seq<u8>, nat)>, k: Seq<u8>) -> nat {
    if has_key(s, k) {
        s[key_index(s, k)].1
    } else {
        0
    }
}

/// One upsert: overwrite the weight in place if `k` is present, else append.
pub open spec fn reg_upsert(s: Seq<(Seq<u8>, nat)>, k: Seq<u8>, w: nat) -> Seq<(Seq<u8>, nat)> {
    if has_key(s, k) {
        s.update(key_index(s, k), (k, w))
    } else {
        s.push((k, w))
    }
}

/// A batch of upserts, applied in order.
pub open spec fn reg_batch(s: Seq<(Seq<u8>, nat)>, es: Seq<(Seq<u8>, nat)>) -> Seq<(Seq<u8>, nat)>
    decreases es.len(),
{
    if es.len() == 0 {
        s
    } else {
        reg_upsert(reg_batch(s, es.drop_last()), es.last().0, es.last().1)
    }
}

/// Whether some pair of the batch mentions identity `k`.
pub open spec fn batch_has(es: Seq<(Seq<u8>, nat)>, k: Seq<u8>) -> bool
    decreases es.len(),
{
    if es.len() == 0 {
        false
    } else {
        es.last().0 == k || batch_has(es.drop_last(), k)
    }
}

/// The weight of the last pair of the batch that mentions `k` (zero if none).
pub open spec fn last_write(es: Seq<(Seq<u8>, nat)>, k: Seq<u8>) -> nat
    decreases es.len(),
{
    if es.len() == 0 {
        0
    } else if es.last().0 == k {
        es.last().1
    } else {
        last_write(es.drop_last(), k)
    }
}

/// `key_index` finds exactly the first occurrence of `k`, and a negative
/// result means `k` does not occur at all.
pub proof fn lemma_key_index_props(s: Seq<(Seq<u8>, nat)>, k: Seq<u8>)
    ensures
        -1 <= key_index(s, k) < s.len(),
        key_index(s, k) >= 0 ==> s[key_index(s, k)].0 == k,
        forall|j: int| 0 <= j < s.len() && s[j].0 == k ==> key_index(s, k) >= 0 && key_index(s, k) <= j,
        forall|j: int| 0 <= j < key_index(s, k) ==> s[j].0 != k,
    decreases s.len(),
{
    if s.len() == 0 {
    } else if s[0].0 == k {
    } else {
        let t = s.drop_first();
        lemma_key_index_props(t, k);
        assert forall|j: int| 0 <= j < s.len() && s[j].0 == k implies key_index(s, k) >= 0
            && key_index(s, k) <= j by {
            assert(j != 0);
            assert(t[j - 1].0 == k);
        }
        assert forall|j: int| 0 <= j < key_index(s, k) implies s[j].0 != k by {
            if j > 0 {
                assert(t[j - 1].0 != k);
            }
        }
    }
}

/// Where an identity stands in the order depends on the key sequence alone.
pub proof fn lemma_key_index_keys_only(s1: Seq<(Seq<u8>, nat)>, s2: Seq<(Seq<u8>, nat)>, k: Seq<u8>)
    requires
        reg_keys(s1) == reg_keys(s2),
    ensures
        key_index(s1, k) == key_index(s2, k),
    decreases s1.len(),
{
    assert(s1.len() == reg_keys(s1).len());
    assert(s2.len() == reg_keys(s2).len());
    if s1.len() == 0 {
    } else {
        assert(s1[0].0 == reg_keys(s1)[0]);
        assert(s2[0].0 == reg_keys(s2)[0]);
        assert(reg_keys(s1.drop_first()) =~= reg_keys(s2.drop_first())) by {
            assert forall|j: int| 0 <= j < s1.len() - 1 implies reg_keys(s1.drop_first())[j]
                == reg_keys(s2.drop_first())[j] by {
                assert(reg_keys(s1)[j + 1] == reg_keys(s2)[j + 1]);
            }
        }
        lemma_key_index_keys_only(s1.drop_first(), s2.drop_first(), k);
    }
}

/// Appending an entry leaves the position of every present identity alone and
/// gives a new identity the final position.
pub proof fn lemma_key_index_push(s: Seq<(Seq<u8>, nat)>, e: (Seq<u8>, nat), k: Seq<u8>)
    ensures
        key_index(s.push(e), k) == (if key_index(s, k) >= 0 {
            key_index(s, k)
        } else if e.0 == k {
            s.len() as int
        } else {
            -1
        }),
    decreases s.len(),
{
    let p = s.push(e);
    assert(p.len() == s.len() + 1);
    if s.len() == 0 {
        assert(p[0] == e);
        assert(p.drop_first() =~= Seq::<(Seq<u8>, nat)>::empty());
        assert(key_index(p.drop_first(), k) == -1);
        if e.0 == k {
            assert(key_index(p, k) == 0);
        } else {
            assert(key_index(p, k) == -1);
        }
    } else {
        assert(p[0] == s[0]);
        assert(p.drop_first() =~= s.drop_first().push(e));
        lemma_key_index_push(s.drop_first(), e, k);
        if s[0].0 == k {
            assert(key_index(p, k) == 0);
            assert(key_index(s, k) == 0);
        } else {
            assert(key_index(p.drop_first(), k) == key_index(s.drop_first().push(e), k));
            assert(key_index(s.drop_first(), k) >= 0 ==> key_index(p, k) == key_index(s, k));
        }
    }
}

} // verus!
