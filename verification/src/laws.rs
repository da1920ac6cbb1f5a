//! Proved laws of the registry model: how one upsert and a whole batch act on
//! the key order and on lookups, and the consequences — last write wins,
//! applying a batch twice changes nothing further, enumeration round-trips,
//! and absent identities read as zero.

use vstd::prelude::*;

use crate::model::batch_has;
use crate::model::distinct_keys;
use crate::model::has_key;
use crate::model::key_index;
use crate::model::last_write;
use crate::model::lemma_key_index_keys_only;
use crate::model::lemma_key_index_props;
use crate::model::lemma_key_index_push;
use crate::model::reg_batch;
use crate::model::reg_keys;
use crate::model::reg_lookup;
use crate::model::reg_upsert;

verus! {

/// One upsert keeps every present identity at its position: an existing
/// identity's weight is overwritten in place, a new identity is appended at
/// the end, and no other identity's presence or weight changes.
pub proof fn lemma_upsert_properties(s: Seq<(Seq<u8>, nat)>, k: Seq<u8>, w: nat)
    requires
        distinct_keys(s),
    ensures
        distinct_keys(reg_upsert(s, k, w)),
        reg_keys(reg_upsert(s, k, w)) == (if has_key(s, k) {
            reg_keys(s)
        } else {
            reg_keys(s).push(k)
        }),
        has_key(reg_upsert(s, k, w), k),
        reg_lookup(reg_upsert(s, k, w), k) == w,
        forall|k2: Seq<u8>| k2 != k ==> #[trigger] has_key(reg_upsert(s, k, w), k2) == has_key(s, k2),
        forall|k2: Seq<u8>| k2 != k ==> #[trigger] reg_lookup(reg_upsert(s, k, w), k2) == reg_lookup(
            s,
            k2,
        ),
{
    let up = reg_upsert(s, k, w);
    lemma_key_index_props(s, k);
    if has_key(s, k) {
        let i = key_index(s, k);
        assert(up == s.update(i, (k, w)));
        assert(reg_keys(up) =~= reg_keys(s)) by {
            assert forall|j: int| 0 <= j < s.len() implies reg_keys(up)[j] == reg_keys(s)[j] by {
                assert(up[j].0 == (if j == i {
                    k
                } else {
                    s[j].0
                }));
                assert(s[i].0 == k);
            }
        }
        lemma_key_index_keys_only(up, s, k);
        assert(up[i] == (k, w));
        assert forall|k2: Seq<u8>| k2 != k implies #[trigger] has_key(up, k2) == has_key(s, k2) by {
            lemma_key_index_keys_only(up, s, k2);
        }
        assert forall|k2: Seq<u8>| k2 != k implies #[trigger] reg_lookup(up, k2) == reg_lookup(
            s,
            k2,
        ) by {
            lemma_key_index_keys_only(up, s, k2);
            if has_key(s, k2) {
                lemma_key_index_props(s, k2);
                let j = key_index(s, k2);
                assert(j != i);
                assert(up[j] == s[j]);
            }
        }
    } else {
        assert(up == s.push((k, w)));
        lemma_key_index_push(s, (k, w), k);
        assert(key_index(up, k) == s.len());
        assert(up[s.len() as int] == (k, w));
        assert(reg_keys(up) =~= reg_keys(s).push(k)) by {
            assert forall|j: int| 0 <= j < up.len() implies reg_keys(up)[j] == reg_keys(s).push(k)[j]
                by {
                if j < s.len() {
                    assert(up[j] == s[j]);
                }
            }
        }
        assert(distinct_keys(up)) by {
            assert forall|i: int, j: int| 0 <= i < j < up.len() implies up[i].0 != up[j].0 by {
                if j < s.len() {
                    assert(s[i].0 != s[j].0);
                } else {
                    assert(up[j].0 == k);
                    assert(s[i].0 != k);
                }
            }
        }
        assert forall|k2: Seq<u8>| k2 != k implies #[trigger] has_key(up, k2) == has_key(s, k2) by {
            lemma_key_index_push(s, (k, w), k2);
        }
        assert forall|k2: Seq<u8>| k2 != k implies #[trigger] reg_lookup(up, k2) == reg_lookup(
            s,
            k2,
        ) by {
            lemma_key_index_push(s, (k, w), k2);
            if has_key(s, k2) {
                lemma_key_index_props(s, k2);
                let j = key_index(s, k2);
                assert(up[j] == s[j]);
            }
        }
    }
}

/// How a whole batch acts on the registry: last write wins — after the batch,
/// an identity mentioned by the batch reads as the weight of the last pair
/// that mentions it, every other identity is untouched, no identity is ever
/// removed, and the key order of the starting state stays a prefix of the key
/// order afterwards.
pub proof fn lemma_batch_properties(s: Seq<(Seq<u8>, nat)>, es: Seq<(Seq<u8>, nat)>)
    requires
        distinct_keys(s),
    ensures
        distinct_keys(reg_batch(s, es)),
        forall|k: Seq<u8>| #[trigger] has_key(reg_batch(s, es), k) == (has_key(s, k) || batch_has(
            es,
            k,
        )),
        forall|k: Seq<u8>| #[trigger] reg_lookup(reg_batch(s, es), k) == (if batch_has(es, k) {
            last_write(es, k)
        } else {
            reg_lookup(s, k)
        }),
        reg_keys(s).is_prefix_of(reg_keys(reg_batch(s, es))),
    decreases es.len(),
{
    let t = reg_batch(s, es);
    if es.len() == 0 {
        assert(reg_keys(s) =~= reg_keys(t).subrange(0, reg_keys(s).len() as int));
    } else {
        let prior = es.drop_last();
        let t1 = reg_batch(s, prior);
        let k0 = es.last().0;
        let w0 = es.last().1;
        lemma_batch_properties(s, prior);
        lemma_upsert_properties(t1, k0, w0);
        assert(t == reg_upsert(t1, k0, w0));
        assert forall|k: Seq<u8>| #[trigger] has_key(t, k) == (has_key(s, k) || batch_has(es, k)) by {
            if k != k0 {
                assert(has_key(t, k) == has_key(t1, k));
                assert(batch_has(es, k) == batch_has(prior, k));
            } else {
                assert(batch_has(es, k));
            }
        }
        assert forall|k: Seq<u8>| #[trigger] reg_lookup(t, k) == (if batch_has(es, k) {
            last_write(es, k)
        } else {
            reg_lookup(s, k)
        }) by {
            if k != k0 {
                assert(reg_lookup(t, k) == reg_lookup(t1, k));
                assert(batch_has(es, k) == batch_has(prior, k));
                assert(batch_has(prior, k) ==> last_write(es, k) == last_write(prior, k));
            } else {
                assert(reg_lookup(t, k) == w0);
                assert(last_write(es, k) == w0);
            }
        }
        let ks = reg_keys(s);
        let k1 = reg_keys(t1);
        let kt = reg_keys(t);
        assert(ks.is_prefix_of(kt)) by {
            assert(ks =~= k1.subrange(0, ks.len() as int));
            if has_key(t1, k0) {
                assert(kt == k1);
            } else {
                assert(kt == k1.push(k0));
                assert(ks =~= kt.subrange(0, ks.len() as int));
            }
        }
    }
}

/// When every identity a batch mentions is already present, the batch moves
/// no identity: the key order is exactly the one before.
pub proof fn lemma_batch_keys_stable(s: Seq<(Seq<u8>, nat)>, es: Seq<(Seq<u8>, nat)>)
    requires
        distinct_keys(s),
        forall|k: Seq<u8>| #[trigger] batch_has(es, k) ==> has_key(s, k),
    ensures
        reg_keys(reg_batch(s, es)) == reg_keys(s),
    decreases es.len(),
{
    if es.len() == 0 {
    } else {
        let prior = es.drop_last();
        let t1 = reg_batch(s, prior);
        let k0 = es.last().0;
        let w0 = es.last().1;
        assert forall|k: Seq<u8>| #[trigger] batch_has(prior, k) implies has_key(s, k) by {
            assert(batch_has(es, k));
        }
        lemma_batch_keys_stable(s, prior);
        lemma_batch_properties(s, prior);
        assert(batch_has(es, k0));
        assert(has_key(s, k0));
        lemma_key_index_keys_only(t1, s, k0);
        assert(has_key(t1, k0));
        lemma_upsert_properties(t1, k0, w0);
    }
}

/// In a registry with distinct identities, the entry at any position is the
/// one that lookup finds for its identity.
pub proof fn lemma_entry_at_index(s: Seq<(Seq<u8>, nat)>, i: int)
    requires
        distinct_keys(s),
        0 <= i < s.len(),
    ensures
        key_index(s, s[i].0) == i,
        has_key(s, s[i].0),
        reg_lookup(s, s[i].0) == s[i].1,
{
    lemma_key_index_props(s, s[i].0);
    let ki = key_index(s, s[i].0);
    assert(ki >= 0 && ki <= i);
    if ki < i {
        assert(s[ki].0 == s[i].0);
        assert(false);
    }
}

/// Two registries with distinct identities, the same key order and the same
/// lookup results are the same state.
pub proof fn lemma_registry_extensional(a: Seq<(Seq<u8>, nat)>, b: Seq<(Seq<u8>, nat)>)
    requires
        distinct_keys(a),
        distinct_keys(b),
        reg_keys(a) == reg_keys(b),
        forall|k: Seq<u8>| #[trigger] reg_lookup(a, k) == reg_lookup(b, k),
    ensures
        a == b,
{
    assert(a.len() == reg_keys(a).len());
    assert(b.len() == reg_keys(b).len());
    assert forall|i: int| 0 <= i < a.len() implies a[i] == b[i] by {
        lemma_entry_at_index(a, i);
        assert(a[i].0 == reg_keys(a)[i]);
        assert(b[i].0 == reg_keys(b)[i]);
        lemma_entry_at_index(b, i);
        assert(reg_lookup(a, a[i].0) == reg_lookup(b, a[i].0));
        assert(a[i].1 == b[i].1);
        assert(a[i] =~= b[i]);
    }
    assert(a =~= b);
}

/// A batch mentions an identity exactly when one of its pairs carries it.
pub proof fn lemma_batch_has_exists(es: Seq<(Seq<u8>, nat)>, k: Seq<u8>)
    ensures
        batch_has(es, k) <==> exists|i: int| 0 <= i < es.len() && es[i].0 == k,
    decreases es.len(),
{
    if es.len() == 0 {
    } else {
        let prior = es.drop_last();
        lemma_batch_has_exists(prior, k);
        if batch_has(es, k) {
            if es.last().0 == k {
                assert(es[es.len() - 1].0 == k);
            } else {
                let i = choose|i: int| 0 <= i < prior.len() && prior[i].0 == k;
                assert(es[i].0 == k);
            }
        }
        if exists|i: int| 0 <= i < es.len() && es[i].0 == k {
            let i = choose|i: int| 0 <= i < es.len() && es[i].0 == k;
            if i < es.len() - 1 {
                assert(prior[i].0 == k);
            } else {
                assert(es.last().0 == k);
            }
        }
    }
}

/// Order preservation for fresh identities: a batch all of whose identities
/// are new to the registry and pairwise distinct appends them at the end, in
/// the batch's own order.
pub proof fn lemma_new_keys_append_in_order(s: Seq<(Seq<u8>, nat)>, es: Seq<(Seq<u8>, nat)>)
    requires
        distinct_keys(s),
        forall|i: int| 0 <= i < es.len() ==> !has_key(s, #[trigger] es[i].0),
        distinct_keys(es),
    ensures
        reg_keys(reg_batch(s, es)) == reg_keys(s) + reg_keys(es),
    decreases es.len(),
{
    if es.len() == 0 {
        assert(reg_keys(reg_batch(s, es)) =~= reg_keys(s) + reg_keys(es));
    } else {
        let prior = es.drop_last();
        let k0 = es.last().0;
        let w0 = es.last().1;
        assert forall|i: int| 0 <= i < prior.len() implies !has_key(s, #[trigger] prior[i].0) by {
            assert(prior[i] == es[i]);
        }
        lemma_new_keys_append_in_order(s, prior);
        lemma_batch_properties(s, prior);
        let t1 = reg_batch(s, prior);
        assert(!has_key(s, k0)) by {
            assert(es[es.len() - 1].0 == k0);
        }
        assert(!batch_has(prior, k0)) by {
            lemma_batch_has_exists(prior, k0);
            if exists|i: int| 0 <= i < prior.len() && prior[i].0 == k0 {
                let i = choose|i: int| 0 <= i < prior.len() && prior[i].0 == k0;
                assert(es[i].0 == es[es.len() - 1].0);
                assert(false);
            }
        }
        assert(!has_key(t1, k0));
        lemma_upsert_properties(t1, k0, w0);
        assert(reg_keys(reg_batch(s, es)) =~= reg_keys(s) + reg_keys(es)) by {
            assert(reg_keys(reg_batch(s, es)) == reg_keys(t1).push(k0));
            assert(reg_keys(t1) == reg_keys(s) + reg_keys(prior));
            assert forall|j: int| 0 <= j < reg_keys(reg_batch(s, es)).len() implies reg_keys(
                reg_batch(s, es),
            )[j] == (reg_keys(s) + reg_keys(es))[j] by {
                if j < s.len() + prior.len() {
                    assert((reg_keys(s) + reg_keys(prior))[j] == reg_keys(t1)[j]);
                    if j >= s.len() {
                        assert(prior[j - s.len()] == es[j - s.len()]);
                    }
                } else {
                    assert(reg_keys(es)[es.len() - 1] == k0);
                }
            }
        }
    }
}

/// Applying the same batch twice yields the same final state as applying it
/// once.
pub proof fn lemma_batch_idempotent(s: Seq<(Seq<u8>, nat)>, es: Seq<(Seq<u8>, nat)>)
    requires
        distinct_keys(s),
    ensures
        reg_batch(reg_batch(s, es), es) == reg_batch(s, es),
{
    let t = reg_batch(s, es);
    let u = reg_batch(t, es);
    lemma_batch_properties(s, es);
    lemma_batch_properties(t, es);
    assert forall|k: Seq<u8>| #[trigger] batch_has(es, k) implies has_key(t, k) by {
        assert(has_key(t, k) == (has_key(s, k) || batch_has(es, k)));
    }
    lemma_batch_keys_stable(t, es);
    assert forall|k: Seq<u8>| #[trigger] reg_lookup(u, k) == reg_lookup(t, k) by {
        if batch_has(es, k) {
            assert(reg_lookup(t, k) == last_write(es, k));
            assert(reg_lookup(u, k) == last_write(es, k));
        } else {
            assert(reg_lookup(u, k) == reg_lookup(t, k));
        }
    }
    lemma_registry_extensional(u, t);
}

/// The empty registry holds no identity, and every lookup in it yields zero.
pub proof fn lemma_empty_registry(k: Seq<u8>)
    ensures
        !has_key(Seq::<(Seq<u8>, nat)>::empty(), k),
        reg_lookup(Seq::<(Seq<u8>, nat)>::empty(), k) == 0,
{
    assert(key_index(Seq::<(Seq<u8>, nat)>::empty(), k) == -1);
}

/// An absent identity always reads as weight zero.
pub proof fn lemma_absent_reads_zero(s: Seq<(Seq<u8>, nat)>, k: Seq<u8>)
    requires
        !has_key(s, k),
    ensures
        reg_lookup(s, k) == 0,
{
}

/// Round trip: populating an empty registry with a batch and enumerating it
/// gives, for each enumerated entry, exactly the weight of the last pair of
/// the batch that mentions its identity — and only identities the batch
/// mentions appear.
pub proof fn lemma_round_trip(es: Seq<(Seq<u8>, nat)>)
    ensures
        forall|i: int|
            0 <= i < reg_batch(Seq::<(Seq<u8>, nat)>::empty(), es).len() ==> batch_has(
                es,
                #[trigger] reg_batch(Seq::<(Seq<u8>, nat)>::empty(), es)[i].0,
            ),
        forall|i: int|
            0 <= i < reg_batch(Seq::<(Seq<u8>, nat)>::empty(), es).len() ==> (
            #[trigger] reg_batch(Seq::<(Seq<u8>, nat)>::empty(), es)[i]).1 == last_write(
                es,
                reg_batch(Seq::<(Seq<u8>, nat)>::empty(), es)[i].0,
            ),
        forall|k: Seq<u8>| !batch_has(es, k) ==> !#[trigger] has_key(
            reg_batch(Seq::<(Seq<u8>, nat)>::empty(), es),
            k,
        ),
        forall|k: Seq<u8>| #[trigger] batch_has(es, k) ==> has_key(
            reg_batch(Seq::<(Seq<u8>, nat)>::empty(), es),
            k,
        ),
{
    let e = Seq::<(Seq<u8>, nat)>::empty();
    let r = reg_batch(e, es);
    lemma_batch_properties(e, es);
    assert forall|k: Seq<u8>| true implies !#[trigger] has_key(e, k) by {
        lemma_empty_registry(k);
    }
    assert forall|i: int| 0 <= i < r.len() implies batch_has(es, #[trigger] r[i].0) && r[i].1
        == last_write(es, r[i].0) by {
        lemma_entry_at_index(r, i);
        assert(has_key(r, r[i].0));
        assert(!has_key(e, r[i].0));
        assert(reg_lookup(r, r[i].0) == last_write(es, r[i].0));
    }
}

} // verus!
