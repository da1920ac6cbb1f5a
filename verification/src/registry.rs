//! The executable registry: participant identities, arbitrary-precision
//! weights, the `Plug` interface with its three operations — owner-gated
//! batch upsert, open single lookup with a zero default, and open enumeration
//! in insertion order — and the `MembershipRegistry` that implements it.

use vstd::prelude::*;

use crate::model::be_nat;
use crate::model::distinct_keys;
use crate::model::has_key;
use crate::model::key_index;
use crate::model::lemma_key_index_props;
use crate::model::reg_batch;
use crate::model::reg_lookup;
use crate::model::reg_upsert;
use crate::laws::lemma_upsert_properties;

verus! {

/// Length in bytes of a participant identity.
pub const ADDRESS_LEN: usize = 32;

/// An opaque, fixed-format account identifier.
#[derive(Debug, PartialEq, Eq)]
pub struct Address {
    bytes: Vec<u8>,
}

impl View for Address {
    type V = Seq<u8>;

    closed spec fn view(&self) -> Seq<u8> {
        self.bytes@
    }
}

impl Address {
    #[verifier::type_invariant]
    spec fn fixed_format(self) -> bool {
        self.bytes@.len() == ADDRESS_LEN
    }

    /// Builds an identity from its raw bytes; exactly the byte strings of the
    /// fixed format are accepted.
    pub fn from_bytes(bytes: Vec<u8>) -> (result: Option<Address>)
        ensures
            result is Some <==> bytes@.len() == ADDRESS_LEN,
            result matches Some(a) ==> a@ == bytes@,
    {
        if bytes.len() == ADDRESS_LEN {
            Some(Address { bytes })
        } else {
            None
        }
    }

    /// The raw bytes of the identity.
    pub fn bytes(&self) -> (result: &Vec<u8>)
        ensures
            result@ == self@,
    {
        &self.bytes
    }

    /// Whether two identities are the same account.
    pub fn matches(&self, other: &Address) -> (result: bool)
        ensures
            result == (self@ == other@),
    {
        bytes_eq(&self.bytes, &other.bytes)
    }
}

impl Clone for Address {
    fn clone(&self) -> (result: Self)
        ensures
            result@ == self@,
    {
        proof {
            use_type_invariant(&*self);
        }
        Address { bytes: clone_bytes(&self.bytes) }
    }
}

/// A non-negative, arbitrary-precision voting weight, kept as big-endian
/// magnitude bytes; its abstract value is the natural number they denote.
#[derive(Debug, PartialEq, Eq)]
pub struct Weight {
    bytes: Vec<u8>,
}

impl View for Weight {
    type V = nat;

    closed spec fn view(&self) -> nat {
        be_nat(self.bytes@)
    }
}

impl Weight {
    /// The weight zero, the value every absent identity reads as.
    pub fn zero() -> (result: Weight)
        ensures
            result@ == 0,
    {
        Weight { bytes: Vec::new() }
    }

    /// Builds a weight from big-endian magnitude bytes, taken as given: the
    /// weight is caller-trusted and nothing is validated.
    pub fn from_bytes_be(bytes: Vec<u8>) -> (result: Weight)
        ensures
            result@ == be_nat(bytes@),
    {
        Weight { bytes }
    }

    /// The big-endian magnitude bytes of the weight.
    pub fn bytes_be(&self) -> (result: &Vec<u8>)
        ensures
            be_nat(result@) == self@,
    {
        &self.bytes
    }
}

impl Clone for Weight {
    fn clone(&self) -> (result: Self)
        ensures
            result@ == self@,
    {
        Weight { bytes: clone_bytes(&self.bytes) }
    }
}

/// An optional token/context hint, accepted by the read operations for
/// interface shape only and never inspected.
#[derive(Debug, PartialEq, Eq)]
pub struct TokenId {
    pub bytes: Vec<u8>,
}

impl View for TokenId {
    type V = Seq<u8>;

    open spec fn view(&self) -> Seq<u8> {
        self.bytes@
    }
}

/// One `(identity, weight)` pair of the registry.
#[derive(Debug, PartialEq, Eq)]
pub struct MemberEntry {
    pub identity: Address,
    pub weight: Weight,
}

impl View for MemberEntry {
    type V = (Seq<u8>, nat);

    open spec fn view(&self) -> (Seq<u8>, nat) {
        (self.identity@, self.weight@)
    }
}

impl Clone for MemberEntry {
    fn clone(&self) -> (result: Self)
        ensures
            result@ == self@,
    {
        let result = MemberEntry { identity: self.identity.clone(), weight: self.weight.clone() };
        proof {
            assert(result@ =~= self@);
        }
        result
    }
}

/// The abstract value of a sequence of entries.
pub open spec fn entries_view(s: Seq<MemberEntry>) -> Seq<(Seq<u8>, nat)> {
    s.map_values(|e: MemberEntry| e@)
}

/// The one way the mutating operation fails: the caller is not the owner.
#[derive(Clone, Copy, Debug, PartialEq, Eq, Structural)]
pub enum RegistryError {
    Unauthorized,
}

/// The registry's interface: authenticated batch upsert, open lookup with a
/// zero default, and open enumeration in insertion order.
pub trait Plug: Sized {
    /// The identity recorded as the only principal allowed to mutate.
    spec fn owner_view(&self) -> Seq<u8>;

    /// The abstract registry state: `(identity, weight)` pairs in iteration
    /// order.
    spec fn members_view(&self) -> Seq<(Seq<u8>, nat)>;

    /// Initialization: an empty registry whose owner is the initializing
    /// caller.
    fn init(owner: Address) -> (plug: Self)
        ensures
            plug.owner_view() == owner@,
            plug.members_view() == Seq::<(Seq<u8>, nat)>::empty(),
    ;

    /// Batch upsert. Only the owner may call: any other caller is refused
    /// with `Unauthorized` and the registry is left exactly as it was. For
    /// the owner, the pairs are applied in order — a new identity is appended,
    /// an existing one has its weight overwritten in place, and of duplicate
    /// identities within the batch the later pair wins.
    fn register_members_snapshot_batch_endpoint(
        &mut self,
        caller: &Address,
        entries: Vec<MemberEntry>,
    ) -> (result: Result<(), RegistryError>)
        ensures
            final(self).owner_view() == old(self).owner_view(),
            result is Ok <==> caller@ == old(self).owner_view(),
            result is Ok ==> final(self).members_view() == reg_batch(
                old(self).members_view(),
                entries_view(entries@),
            ),
            result is Err ==> *final(self) == *old(self) && result == Err::<
                (),
                RegistryError,
            >(RegistryError::Unauthorized),
    ;

    /// Open lookup: the weight stored for `address`, or zero when the
    /// identity is absent. The token hint is accepted and ignored.
    fn get_dao_vote_weight_view(&self, address: &Address, token: Option<TokenId>) -> (weight:
        Weight)
        ensures
            weight@ == reg_lookup(self.members_view(), address@),
    ;

    /// Open enumeration: every `(identity, weight)` pair of the registry, in
    /// iteration order. The token hint is accepted and ignored.
    fn get_dao_members_view(&self, token: Option<TokenId>) -> (members: Vec<MemberEntry>)
        ensures
            entries_view(members@) == self.members_view(),
    ;
}

/// The membership registry: an insertion-ordered mapping from identities to
/// weights, writable only by the owner recorded at initialization.
pub struct MembershipRegistry {
    owner: Address,
    members: Vec<MemberEntry>,
}

impl MembershipRegistry {
    #[verifier::type_invariant]
    spec fn wf(self) -> bool {
        distinct_keys(entries_view(self.members@))
    }

    /// The recorded owner identity.
    pub fn owner(&self) -> (result: &Address)
        ensures
            result@ == self.owner_view(),
    {
        &self.owner
    }
}

impl Plug for MembershipRegistry {
    closed spec fn owner_view(&self) -> Seq<u8> {
        self.owner@
    }

    closed spec fn members_view(&self) -> Seq<(Seq<u8>, nat)> {
        entries_view(self.members@)
    }

    fn init(owner: Address) -> (plug: Self) {
        let plug = MembershipRegistry { owner, members: Vec::new() };
        proof {
            assert(plug.members_view() =~= Seq::<(Seq<u8>, nat)>::empty());
        }
        plug
    }

    fn register_members_snapshot_batch_endpoint(
        &mut self,
        caller: &Address,
        entries: Vec<MemberEntry>,
    ) -> (result: Result<(), RegistryError>) {
        proof {
            use_type_invariant(&*self);
        }
        if !caller.matches(&self.owner) {
            return Err(RegistryError::Unauthorized);
        }
        let ghost s0 = self.members_view();
        let ghost evs = entries_view(entries@);
        let mut members: Vec<MemberEntry> = Vec::new();
        core::mem::swap(&mut members, &mut self.members);
        proof {
            assert(entries_view(Seq::<MemberEntry>::empty()) =~= Seq::<(Seq<u8>, nat)>::empty());
            assert(evs.take(0) =~= Seq::<(Seq<u8>, nat)>::empty());
        }
        let n = entries.len();
        let mut i: usize = 0;
        while i < n
            invariant
                i <= n,
                n == entries.len(),
                evs == entries_view(entries@),
                distinct_keys(entries_view(members@)),
                entries_view(members@) == reg_batch(s0, evs.take(i as int)),
            decreases n - i,
        {
            let identity = entries[i].identity.clone();
            let weight = entries[i].weight.clone();
            proof {
                assert(evs[i as int] == (identity@, weight@));
            }
            upsert_entry(&mut members, identity, weight);
            proof {
                assert(evs.take(i + 1).drop_last() =~= evs.take(i as int));
                assert(evs.take(i + 1).last() == evs[i as int]);
            }
            i += 1;
        }
        proof {
            assert(evs.take(n as int) =~= evs);
        }
        self.members = members;
        Ok(())
    }

    fn get_dao_vote_weight_view(&self, address: &Address, _token: Option<TokenId>) -> (weight:
        Weight) {
        let ghost s = self.members_view();
        let n = self.members.len();
        let mut i: usize = 0;
        while i < n
            invariant
                i <= n,
                n == self.members.len(),
                s == self.members_view(),
                forall|j: int| 0 <= j < i ==> s[j].0 != address@,
            decreases n - i,
        {
            if self.members[i].identity.matches(address) {
                proof {
                    lemma_key_index_props(s, address@);
                    assert(s[i as int].0 == address@);
                    assert(key_index(s, address@) == i);
                }
                return self.members[i].weight.clone();
            }
            i += 1;
        }
        proof {
            lemma_key_index_props(s, address@);
            assert(!has_key(s, address@));
        }
        Weight::zero()
    }

    fn get_dao_members_view(&self, _token: Option<TokenId>) -> (members: Vec<MemberEntry>) {
        let ghost s = self.members_view();
        let mut out: Vec<MemberEntry> = Vec::new();
        let n = self.members.len();
        let mut i: usize = 0;
        while i < n
            invariant
                i <= n,
                n == self.members.len(),
                s == self.members_view(),
                out@.len() == i,
                forall|j: int| 0 <= j < i ==> (#[trigger] out@[j])@ == s[j],
            decreases n - i,
        {
            let entry = self.members[i].clone();
            proof {
                assert(entry@ == s[i as int]);
            }
            out.push(entry);
            i += 1;
        }
        proof {
            assert(entries_view(out@) =~= s) by {
                assert forall|j: int| 0 <= j < out@.len() implies entries_view(out@)[j] == s[j] by {
                    assert((out@[j])@ == s[j]);
                }
            }
        }
        out
    }
}

/// Byte-string equality, the identity test the registry keys on.
fn bytes_eq(a: &Vec<u8>, b: &Vec<u8>) -> (result: bool)
    ensures
        result == (a@ == b@),
{
    if a.len() != b.len() {
        return false;
    }
    let n = a.len();
    let mut i: usize = 0;
    while i < n
        invariant
            i <= n,
            n == a.len(),
            a.len() == b.len(),
            forall|j: int| 0 <= j < i ==> a@[j] == b@[j],
        decreases n - i,
    {
        if a[i] != b[i] {
            return false;
        }
        i += 1;
    }
    proof {
        assert(a@ =~= b@);
    }
    true
}

/// An exact copy of a byte string.
fn clone_bytes(v: &Vec<u8>) -> (result: Vec<u8>)
    ensures
        result@ == v@,
{
    let mut out: Vec<u8> = Vec::new();
    let n = v.len();
    let mut i: usize = 0;
    while i < n
        invariant
            i <= n,
            n == v.len(),
            out@ == v@.take(i as int),
        decreases n - i,
    {
        out.push(v[i]);
        proof {
            assert(out@ =~= v@.take(i + 1));
        }
        i += 1;
    }
    proof {
        assert(v@.take(n as int) =~= v@);
    }
    out
}

/// One upsert on the entry vector: overwrite in place when the identity is
/// present, append when it is new.
fn upsert_entry(members: &mut Vec<MemberEntry>, identity: Address, weight: Weight)
    requires
        distinct_keys(entries_view(old(members)@)),
    ensures
        entries_view(final(members)@) == reg_upsert(
            entries_view(old(members)@),
            identity@,
            weight@,
        ),
        distinct_keys(entries_view(final(members)@)),
{
    let ghost s = entries_view(members@);
    proof {
        lemma_upsert_properties(s, identity@, weight@);
    }
    let n = members.len();
    let mut i: usize = 0;
    while i < n
        invariant
            i <= n,
            n == members.len(),
            s == entries_view(members@),
            s == entries_view(old(members)@),
            distinct_keys(s),
            forall|j: int| 0 <= j < i ==> s[j].0 != identity@,
        decreases n - i,
    {
        if members[i].identity.matches(&identity) {
            proof {
                lemma_key_index_props(s, identity@);
                assert(s[i as int].0 == identity@);
                assert(key_index(s, identity@) == i);
            }
            let ghost id_view = identity@;
            let ghost w_view = weight@;
            members.set(i, MemberEntry { identity, weight });
            proof {
                assert(entries_view(members@) =~= s.update(i as int, (id_view, w_view))) by {
                    assert forall|j: int| 0 <= j < members@.len() implies entries_view(members@)[j]
                        == s.update(i as int, (id_view, w_view))[j] by {
                        assert((members@[j])@ == (if j == i {
                            (id_view, w_view)
                        } else {
                            s[j]
                        }));
                    }
                }
                assert(has_key(s, id_view));
                assert(reg_upsert(s, id_view, w_view) == s.update(i as int, (id_view, w_view)));
            }
            return;
        }
        i += 1;
    }
    proof {
        lemma_key_index_props(s, identity@);
        assert(!has_key(s, identity@));
    }
    let ghost id_view = identity@;
    let ghost w_view = weight@;
    members.push(MemberEntry { identity, weight });
    proof {
        assert(entries_view(members@) =~= s.push((id_view, w_view)));
    }
}

} // verus!
