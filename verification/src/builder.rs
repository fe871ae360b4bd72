//! Building the actions of a transaction from notes to spend and recipients
//! to pay.

use crate::bundle::{Action, Authorization, Authorized, Bundle, Flags, Proof};
use crate::keys::{
    Address, FullViewingKey, OutgoingViewingKey, Signature, SigningKey, SpendValidatingKey,
};
use crate::note::Note;
use crate::tree::{Anchor, MerklePath};
use crate::value::{NoteValue, OverflowError, ValueCommitTrapdoor, ValueSum};
use vstd::prelude::*;

verus! {

/// The least number of actions in a bundle.
pub const MIN_ACTIONS: usize = 2;

/// A note to be spent in an action.
#[derive(Debug)]
pub struct SpendInfo {
    pub fvk: FullViewingKey,
    pub note: Note,
    pub merkle_path: MerklePath,
}

/// A recipient to receive funds in an action.
#[derive(Debug)]
pub struct RecipientInfo {
    pub ovk: Option<OutgoingViewingKey>,
    pub recipient: Address,
    pub value: NoteValue,
    pub memo: Option<()>,
}

/// An action that is planned: a spend, an output and the randomness of its
/// value commitment.
#[derive(Debug)]
pub struct ActionInfo {
    pub spend: SpendInfo,
    pub output: RecipientInfo,
    pub rcv: ValueCommitTrapdoor,
}

/// The net value of a spend and an output: what is spent less what is
/// created, where both fit in 63 bits.
pub open spec fn net_value(spent: NoteValue, created: NoteValue) -> Option<int> {
    if spent.0 <= i64::MAX && created.0 <= i64::MAX {
        Some(spent.0 - created.0)
    } else {
        None
    }
}

impl ActionInfo {
    /// The net value of this action.
    pub fn value_sum(&self) -> (r: Result<ValueSum, OverflowError>)
        ensures
            (match r {
                Ok(v) => Some(v.0 as int),
                Err(_) => None,
            }) == net_value(self.spend.note.value, self.output.value),
    {
        self.spend.note.value().minus(self.output.value)
    }
}

/// A builder that collects the notes to spend and the recipients to pay.
pub struct Builder {
    spends: Vec<SpendInfo>,
    recipients: Vec<RecipientInfo>,
    flags: Flags,
    anchor: Anchor,
}

/// The value spent in action `i`: that of spend `i`, or nothing where the
/// action has a dummy spend.
pub open spec fn spent_at(spends: Seq<SpendInfo>, i: int) -> NoteValue {
    if i < spends.len() {
        spends[i].note.value
    } else {
        NoteValue(0)
    }
}

/// The value created in action `i`: that of recipient `i`, or nothing where
/// the action has a dummy output.
pub open spec fn created_at(recipients: Seq<RecipientInfo>, i: int) -> NoteValue {
    if i < recipients.len() {
        recipients[i].value
    } else {
        NoteValue(0)
    }
}

/// The number of actions for the given numbers of spends and recipients.
pub open spec fn action_count(spends: nat, recipients: nat) -> nat {
    if spends >= recipients && spends >= MIN_ACTIONS {
        spends
    } else if recipients >= MIN_ACTIONS {
        recipients
    } else {
        MIN_ACTIONS as nat
    }
}

/// The balance of the first `n` actions, summed in order; none once a value
/// or a partial sum leaves its range.
pub open spec fn balance(spends: Seq<SpendInfo>, recipients: Seq<RecipientInfo>, n: nat) -> Option<
    int,
>
    decreases n,
{
    if n == 0 {
        Some(0int)
    } else {
        match (
            balance(spends, recipients, (n - 1) as nat),
            net_value(spent_at(spends, n - 1), created_at(recipients, n - 1)),
        ) {
            (Some(acc), Some(v)) => if i64::MIN <= acc + v <= i64::MAX {
                Some(acc + v)
            } else {
                None
            },
            _ => None,
        }
    }
}

impl Builder {
    /// The notes to spend, in the order in which they were added.
    pub closed spec fn spends(&self) -> Seq<SpendInfo> {
        self.spends@
    }

    /// The recipients, in the order in which they were added.
    pub closed spec fn recipients(&self) -> Seq<RecipientInfo> {
        self.recipients@
    }

    /// The flags of the bundle to build.
    pub closed spec fn flags(&self) -> Flags {
        self.flags
    }

    /// The anchor of the bundle to build.
    pub closed spec fn anchor(&self) -> Anchor {
        self.anchor
    }

    /// A builder with no spends and no recipients.
    pub fn new(flags: Flags, anchor: Anchor) -> (r: Self)
        ensures
            r.spends() == Seq::<SpendInfo>::empty(),
            r.recipients() == Seq::<RecipientInfo>::empty(),
            r.flags() == flags,
            r.anchor() == anchor,
    {
        Builder { spends: Vec::new(), recipients: Vec::new(), flags, anchor }
    }

    /// Adds a note to be spent in this transaction.
    pub fn add_spend(&mut self, fvk: FullViewingKey, note: Note, merkle_path: MerklePath) -> (r:
        Result<(), &'static str>)
        ensures
            r is Ok,
            final(self).spends() == old(self).spends().push(SpendInfo { fvk, note, merkle_path }),
            final(self).recipients() == old(self).recipients(),
            final(self).flags() == old(self).flags(),
            final(self).anchor() == old(self).anchor(),
    {
        self.spends.push(SpendInfo { fvk, note, merkle_path });
        Ok(())
    }

    /// Adds an address which will receive funds in this transaction.
    pub fn add_recipient(
        &mut self,
        ovk: Option<OutgoingViewingKey>,
        recipient: Address,
        value: NoteValue,
        memo: Option<()>,
    )
        ensures
            final(self).recipients() == old(self).recipients().push(
                RecipientInfo { ovk, recipient, value, memo },
            ),
            final(self).spends() == old(self).spends(),
            final(self).flags() == old(self).flags(),
            final(self).anchor() == old(self).anchor(),
    {
        self.recipients.push(RecipientInfo { ovk, recipient, value, memo });
    }

    /// The number of actions of the bundle: one for each spend or recipient,
    /// whichever are more, and at least two.
    pub fn num_actions(&self) -> (r: usize)
        ensures
            r == action_count(self.spends().len(), self.recipients().len()),
    {
        let s = self.spends.len();
        let t = self.recipients.len();
        if s >= t && s >= MIN_ACTIONS {
            s
        } else if t >= MIN_ACTIONS {
            t
        } else {
            MIN_ACTIONS
        }
    }

    /// The value balance of the bundle: the net values of its actions,
    /// summed in order, spends and recipients paired as they were added and
    /// the shorter list filled up with dummies of value zero.
    pub fn value_balance(&self) -> (r: Result<ValueSum, OverflowError>)
        ensures
            (match r {
                Ok(v) => Some(v.0 as int),
                Err(_) => None,
            }) == balance(
                self.spends(),
                self.recipients(),
                action_count(self.spends().len(), self.recipients().len()),
            ),
    {
        let n = self.num_actions();
        let mut acc = ValueSum(0);
        let mut i: usize = 0;
        while i < n
            invariant
                i <= n,
                n == action_count(self.spends().len(), self.recipients().len()),
                balance(self.spends(), self.recipients(), i as nat) == Some(acc.0 as int),
            decreases n - i,
        {
            let spent = if i < self.spends.len() {
                self.spends[i].note.value()
            } else {
                NoteValue(0)
            };
            let created = if i < self.recipients.len() {
                self.recipients[i].value
            } else {
                NoteValue(0)
            };
            proof {
                assert(spent == spent_at(self.spends(), i as int));
                assert(created == created_at(self.recipients(), i as int));
                assert(balance(self.spends(), self.recipients(), (i + 1) as nat) == match (
                    balance(self.spends(), self.recipients(), i as nat),
                    net_value(spent, created),
                ) {
                    (Some(a), Some(v)) => if i64::MIN <= a + v <= i64::MAX {
                        Some(a + v)
                    } else {
                        None
                    },
                    _ => None,
                });
            }
            let net = match spent.minus(created) {
                Ok(v) => v,
                Err(e) => {
                    proof {
                        lemma_balance_fails(self.spends(), self.recipients(), (i + 1) as nat, n as nat);
                    }
                    return Err(e);
                },
            };
            acc = match acc.plus(net) {
                Ok(v) => v,
                Err(e) => {
                    proof {
                        lemma_balance_fails(self.spends(), self.recipients(), (i + 1) as nat, n as nat);
                    }
                    return Err(e);
                },
            };
            i = i + 1;
        }
        Ok(acc)
    }
}

/// A balance that has left its range stays out of it.
proof fn lemma_balance_fails(spends: Seq<SpendInfo>, recipients: Seq<RecipientInfo>, i: nat, n: nat)
    requires
        i <= n,
        balance(spends, recipients, i) is None,
    ensures
        balance(spends, recipients, n) is None,
    decreases n - i,
{
    if i < n {
        lemma_balance_fails(spends, recipients, i, (n - 1) as nat);
    }
}

/// Marker for an unauthorized bundle, with a proof but no signatures.
#[derive(Debug)]
pub struct Unauthorized {
    pub proof: Proof,
    pub bsk: SigningKey,
}

impl Authorization for Unauthorized {
    type SpendAuth = SpendValidatingKey;
}

/// Marker for a partially-authorized bundle, in the process of being signed.
#[derive(Debug)]
pub struct PartiallyAuthorized {
    pub proof: Proof,
    pub binding_signature: Signature,
    pub sighash: [u8; 32],
}

impl Authorization for PartiallyAuthorized {
    type SpendAuth = (Option<Signature>, SpendValidatingKey);
}

/// What can go wrong while a bundle is built and signed.
#[derive(Debug)]
pub enum Error {
    /// An action has no signature.
    MissingSignatures,
    /// The proof could not be made.
    Proof(crate::ecc::error::Error),
    /// The values of the actions do not add up within their range.
    ValueSum(OverflowError),
}

/// Whether two keys are the same.
pub fn same_key(a: &SpendValidatingKey, b: &SpendValidatingKey) -> (r: bool)
    ensures
        r == (*a == *b),
{
    let mut i: usize = 0;
    while i < 32
        invariant
            i <= 32,
            forall|j: int| 0 <= j < i ==> a.0.0[j] == b.0.0[j],
        decreases 32 - i,
    {
        if a.0.0[i] != b.0.0[i] {
            return false;
        }
        i = i + 1;
    }
    proof {
        assert(a.0.0 =~= b.0.0);
    }
    true
}

/// What signing for the key `ak` makes of the authorization of one action:
/// an action that is signed keeps its signature, one that `ak` validates
/// gets a signature, and any other stays unsigned.
pub open spec fn signed_for(
    ak: SpendValidatingKey,
    before: (Option<Signature>, SpendValidatingKey),
    after: (Option<Signature>, SpendValidatingKey),
) -> bool {
    &&& after.1 == before.1
    &&& before.0 is Some ==> after.0 == before.0
    &&& before.0 is None ==> (after.0 is Some <==> before.1 == ak)
}

/// The bundle of the given parts, which hold an action.
fn assemble<T: Authorization>(
    actions: Vec<Action<T::SpendAuth>>,
    flags: Flags,
    value_balance: ValueSum,
    anchor: Anchor,
    authorization: T,
) -> (r: Bundle<T>)
    requires
        actions@.len() > 0,
    ensures
        r.actions() == actions@,
        r.flags() == flags,
        r.value_balance() == value_balance,
        r.anchor() == anchor,
        r.auth() == authorization,
{
    match Bundle::from_parts(actions, flags, value_balance, anchor, authorization) {
        Some(bundle) => bundle,
        None => vstd::pervasive::unreached(),
    }
}

impl Bundle<Unauthorized> {
    /// Loads the sighash into the bundle, which prepares it for signing:
    /// no action is signed yet, and the bundle carries its proof, the
    /// sighash and the binding signature over it.
    pub fn prepare(self, binding_signature: Signature, sighash: [u8; 32]) -> (r: Bundle<
        PartiallyAuthorized,
    >)
        ensures
            r.actions().len() == self.actions().len(),
            forall|i: int|
                0 <= i < self.actions().len() ==> (#[trigger] r.actions()[i]).parts()
                    == self.actions()[i].parts() && r.actions()[i].auth() == (
                    None::<Signature>,
                    self.actions()[i].auth(),
                ),
            r.auth() == (PartiallyAuthorized {
                proof: self.auth().proof,
                binding_signature,
                sighash,
            }),
            r.flags() == self.flags(),
            r.value_balance() == self.value_balance(),
            r.anchor() == self.anchor(),
    {
        let ghost before = self.actions();
        let (actions, flags, value_balance, anchor, unauth) = self.into_parts();
        let mut rest = actions;
        let mut done: Vec<Action<(Option<Signature>, SpendValidatingKey)>> = Vec::new();
        while rest.len() > 0
            invariant
                done@.len() + rest@.len() == before.len(),
                rest@ == before.skip(done@.len() as int),
                forall|i: int|
                    0 <= i < done@.len() ==> (#[trigger] done@[i]).parts() == before[i].parts()
                        && done@[i].auth() == (None::<Signature>, before[i].auth()),
            decreases rest@.len(),
        {
            let ghost k = done@.len() as int;
            let action = rest.remove(0);
            proof {
                assert(action == before[k]);
                assert(rest@ =~= before.skip(k + 1));
            }
            let (parts, ak) = action.into_parts();
            done.push(Action::with_parts(parts, (None, ak)));
        }
        let partial = PartiallyAuthorized { proof: unauth.proof, binding_signature, sighash };
        assemble(done, flags, value_balance, anchor, partial)
    }
}

/// What signing for the first `n` of the keys makes of the signature of an
/// action that the key `ak` validates: the signature that `signer` made for
/// one of them that is `ak`, or none where none of them is.
pub open spec fn signed_by<F: Fn(&SpendValidatingKey, &[u8; 32]) -> Signature>(
    signer: F,
    keys: Seq<SpendValidatingKey>,
    n: int,
    sighash: [u8; 32],
    ak: SpendValidatingKey,
    signature: Option<Signature>,
) -> bool {
    match signature {
        Some(sig) => exists|j: int|
            0 <= j < n && (#[trigger] keys[j]) == ak && call_ensures(
                signer,
                (&keys[j], &sighash),
                sig,
            ),
        None => forall|j: int| 0 <= j < n ==> (#[trigger] keys[j]) != ak,
    }
}

impl Bundle<Unauthorized> {
    /// Applies signatures to the bundle, in order to authorize it: the
    /// bundle is prepared with the sighash and the binding signature over
    /// it, signed for each of the keys in turn, and finalized. Every action
    /// must be validated by one of the keys.
    pub fn apply_signatures<F: Fn(&SpendValidatingKey, &[u8; 32]) -> Signature>(
        self,
        binding_signature: Signature,
        sighash: [u8; 32],
        keys: &Vec<SpendValidatingKey>,
        signer: &F,
    ) -> (r: Result<Bundle<Authorized>, Error>)
        requires
            forall|j: int|
                0 <= j < keys@.len() ==> call_requires(*signer, (&#[trigger] keys@[j], &sighash)),
        ensures
            r is Ok <==> forall|i: int|
                0 <= i < self.actions().len() ==> keys@.contains(
                    (#[trigger] self.actions()[i]).auth(),
                ),
            r matches Ok(b) ==> {
                &&& b.actions().len() == self.actions().len()
                &&& forall|i: int|
                    0 <= i < self.actions().len() ==> (#[trigger] b.actions()[i]).parts()
                        == self.actions()[i].parts() && signed_by(
                        *signer,
                        keys@,
                        keys@.len() as int,
                        sighash,
                        self.actions()[i].auth(),
                        Some(b.actions()[i].auth()),
                    )
                &&& b.auth() == (Authorized { proof: self.auth().proof, binding_signature })
                &&& b.flags() == self.flags()
                &&& b.value_balance() == self.value_balance()
                &&& b.anchor() == self.anchor()
            },
            r matches Err(e) ==> e is MissingSignatures,
    {
        let ghost before = self.actions();
        let ghost unauth = self.auth();
        let ghost (flags, value_balance, anchor) = (
            self.flags(),
            self.value_balance(),
            self.anchor(),
        );
        let mut partial = self.prepare(binding_signature, sighash);
        let mut j: usize = 0;
        while j < keys.len()
            invariant
                j <= keys@.len(),
                forall|k: int|
                    0 <= k < keys@.len() ==> call_requires(
                        *signer,
                        (&#[trigger] keys@[k], &sighash),
                    ),
                partial.actions().len() == before.len(),
                forall|i: int|
                    0 <= i < before.len() ==> {
                        let auth = (#[trigger] partial.actions()[i]).auth();
                        &&& partial.actions()[i].parts() == before[i].parts()
                        &&& auth.1 == before[i].auth()
                        &&& signed_by(*signer, keys@, j as int, sighash, auth.1, auth.0)
                    },
                partial.auth() == (PartiallyAuthorized {
                    proof: unauth.proof,
                    binding_signature,
                    sighash,
                }),
                partial.flags() == flags,
                partial.value_balance() == value_balance,
                partial.anchor() == anchor,
            decreases keys@.len() - j,
        {
            let ghost old_actions = partial.actions();
            partial = partial.sign(&keys[j], signer);
            proof {
                assert forall|i: int| 0 <= i < before.len() implies {
                    let auth = (#[trigger] partial.actions()[i]).auth();
                    &&& partial.actions()[i].parts() == before[i].parts()
                    &&& auth.1 == before[i].auth()
                    &&& signed_by(*signer, keys@, j + 1, sighash, auth.1, auth.0)
                } by {
                    let old_auth = old_actions[i].auth();
                    let auth = partial.actions()[i].auth();
                    assert(signed_for(keys@[j as int], old_auth, auth));
                    if old_auth.0 is None && old_auth.1 == keys@[j as int] {
                        assert(keys@[j as int] == auth.1);
                    }
                }
            }
            j = j + 1;
        }
        let ghost signed = partial.actions();
        proof {
            assert forall|i: int| 0 <= i < before.len() implies ((#[trigger] signed[i]).auth().0
                is Some <==> keys@.contains(before[i].auth())) by {
                let auth = signed[i].auth();
                assert(signed_by(*signer, keys@, keys@.len() as int, sighash, auth.1, auth.0));
                if keys@.contains(before[i].auth()) {
                    let k = choose|k: int| 0 <= k < keys@.len() && keys@[k] == before[i].auth();
                    assert(keys@[k] == auth.1);
                }
            }
        }
        let r = partial.finalize();
        proof {
            let all_signed = forall|i: int|
                0 <= i < signed.len() ==> (#[trigger] signed[i]).auth().0 is Some;
            let all_validated = forall|i: int|
                0 <= i < before.len() ==> keys@.contains((#[trigger] before[i]).auth());
            if all_signed {
                assert forall|i: int| 0 <= i < before.len() implies keys@.contains(
                    (#[trigger] before[i]).auth(),
                ) by {
                    assert(signed[i].auth().0 is Some);
                }
            }
            if all_validated {
                assert forall|i: int| 0 <= i < signed.len() implies (#[trigger] signed[i]).auth().0
                    is Some by {
                    assert(keys@.contains(before[i].auth()));
                }
            }
            assert(all_signed == all_validated);
        }
        r
    }
}

impl Bundle<PartiallyAuthorized> {
    /// Signs the bundle for the key `ak`: every action that is not signed
    /// yet and that `ak` validates gets a signature that `signer` makes
    /// for the key over the sighash, and every other action stays as it is.
    pub fn sign<F: Fn(&SpendValidatingKey, &[u8; 32]) -> Signature>(
        self,
        ak: &SpendValidatingKey,
        signer: &F,
    ) -> (r: Self)
        requires
            call_requires(*signer, (ak, &self.auth().sighash)),
        ensures
            r.actions().len() == self.actions().len(),
            forall|i: int|
                0 <= i < self.actions().len() ==> {
                    let before = self.actions()[i].auth();
                    let after = (#[trigger] r.actions()[i]).auth();
                    &&& r.actions()[i].parts() == self.actions()[i].parts()
                    &&& signed_for(*ak, before, after)
                    &&& before.0 is None && before.1 == *ak ==> call_ensures(
                        *signer,
                        (ak, &self.auth().sighash),
                        after.0.unwrap(),
                    )
                },
            r.auth() == self.auth(),
            r.flags() == self.flags(),
            r.value_balance() == self.value_balance(),
            r.anchor() == self.anchor(),
    {
        let ghost before = self.actions();
        let (actions, flags, value_balance, anchor, partial) = self.into_parts();
        let mut rest = actions;
        let mut done: Vec<Action<(Option<Signature>, SpendValidatingKey)>> = Vec::new();
        while rest.len() > 0
            invariant
                done@.len() + rest@.len() == before.len(),
                rest@ == before.skip(done@.len() as int),
                call_requires(*signer, (ak, &partial.sighash)),
                forall|i: int|
                    0 <= i < done@.len() ==> {
                        let old_auth = before[i].auth();
                        let new_auth = (#[trigger] done@[i]).auth();
                        &&& done@[i].parts() == before[i].parts()
                        &&& signed_for(*ak, old_auth, new_auth)
                        &&& old_auth.0 is None && old_auth.1 == *ak ==> call_ensures(
                            *signer,
                            (ak, &partial.sighash),
                            new_auth.0.unwrap(),
                        )
                    },
            decreases rest@.len(),
        {
            let ghost k = done@.len() as int;
            let action = rest.remove(0);
            proof {
                assert(action == before[k]);
                assert(rest@ =~= before.skip(k + 1));
            }
            let (parts, auth) = action.into_parts();
            let signature = match auth.0 {
                Some(sig) => Some(sig),
                None => {
                    if same_key(&auth.1, ak) {
                        Some(signer(ak, &partial.sighash))
                    } else {
                        None
                    }
                },
            };
            done.push(Action::with_parts(parts, (signature, auth.1)));
        }
        assemble(done, flags, value_balance, anchor, partial)
    }

    /// Finalizes the bundle, so that it can stand in a transaction: every
    /// action must be signed.
    pub fn finalize(self) -> (r: Result<Bundle<Authorized>, Error>)
        ensures
            r is Ok <==> forall|i: int|
                0 <= i < self.actions().len() ==> (#[trigger] self.actions()[i]).auth().0 is Some,
            r matches Ok(b) ==> {
                &&& b.actions().len() == self.actions().len()
                &&& forall|i: int|
                    0 <= i < self.actions().len() ==> (#[trigger] b.actions()[i]).parts()
                        == self.actions()[i].parts() && Some(b.actions()[i].auth())
                        == self.actions()[i].auth().0
                &&& b.auth() == (Authorized {
                    proof: self.auth().proof,
                    binding_signature: self.auth().binding_signature,
                })
                &&& b.flags() == self.flags()
                &&& b.value_balance() == self.value_balance()
                &&& b.anchor() == self.anchor()
            },
            r matches Err(e) ==> e is MissingSignatures,
    {
        let ghost before = self.actions();
        let (actions, flags, value_balance, anchor, partial) = self.into_parts();
        let mut rest = actions;
        let mut done: Vec<Action<Signature>> = Vec::new();
        while rest.len() > 0
            invariant
                before == self.actions(),
                done@.len() + rest@.len() == before.len(),
                rest@ == before.skip(done@.len() as int),
                forall|i: int|
                    0 <= i < done@.len() ==> (#[trigger] done@[i]).parts() == before[i].parts()
                        && Some(done@[i].auth()) == before[i].auth().0,
            decreases rest@.len(),
        {
            let ghost k = done@.len() as int;
            let action = rest.remove(0);
            proof {
                assert(action == before[k]);
                assert(rest@ =~= before.skip(k + 1));
            }
            let (parts, auth) = action.into_parts();
            match auth.0 {
                Some(sig) => {
                    done.push(Action::with_parts(parts, sig));
                },
                None => {
                    proof {
                        assert(self.actions()[k].auth().0 is None);
                    }
                    return Err(Error::MissingSignatures);
                },
            }
        }
        let authorized = Authorized {
            proof: partial.proof,
            binding_signature: partial.binding_signature,
        };
        proof {
            assert forall|i: int| 0 <= i < before.len() implies (#[trigger] before[i]).auth().0
                is Some by {
                assert(Some(done@[i].auth()) == before[i].auth().0);
            }
        }
        Ok(assemble(done, flags, value_balance, anchor, authorized))
    }
}

} // verus!
