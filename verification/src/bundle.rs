//! Bundles of actions: what one action publishes, and how its authorization
//! moves from one state to the next.

use crate::keys::{Signature, VerificationKey};
use crate::note::{EncryptedNote, NoteCommitment, Nullifier};
use crate::tree::Anchor;
use crate::value::{ValueCommitment, ValueSum};
use vstd::prelude::*;

verus! {

/// What an action publishes besides its authorization.
pub struct ActionParts {
    /// The nullifier of the note being spent.
    pub nf_old: Nullifier,
    /// The randomized verification key for the note being spent.
    pub rk: VerificationKey,
    /// A commitment to the new note being created.
    pub cm_new: NoteCommitment,
    /// The encrypted output note.
    pub encrypted_note: EncryptedNote,
    /// A commitment to the net value created or consumed by this action.
    pub cv_net: ValueCommitment,
}

/// An action applied to the ledger: it spends one note and creates another.
#[derive(Debug)]
pub struct Action<T> {
    nf_old: Nullifier,
    rk: VerificationKey,
    cm_new: NoteCommitment,
    encrypted_note: EncryptedNote,
    cv_net: ValueCommitment,
    authorization: T,
}

/// The flags of a bundle.
#[derive(Clone, Copy, Debug)]
pub struct Flags {
    pub spends_enabled: bool,
    pub outputs_enabled: bool,
}

/// The authorization state of a bundle, which fixes what authorizes each of
/// its actions.
pub trait Authorization {
    /// The authorization of one action.
    type SpendAuth;
}

/// What the proof of an action states in public.
pub struct Instance {
    pub anchor: Anchor,
    pub cv_net: ValueCommitment,
    pub nf_old: Nullifier,
    pub rk: VerificationKey,
    pub cm_new: NoteCommitment,
    pub enable_spend: bool,
    pub enable_output: bool,
}

impl<T> Action<T> {
    /// What the action publishes besides its authorization.
    pub closed spec fn parts(&self) -> ActionParts {
        ActionParts {
            nf_old: self.nf_old,
            rk: self.rk,
            cm_new: self.cm_new,
            encrypted_note: self.encrypted_note,
            cv_net: self.cv_net,
        }
    }

    /// The authorization of the action.
    pub closed spec fn auth(&self) -> T {
        self.authorization
    }

    /// The action with the given parts.
    pub fn from_parts(
        nf_old: Nullifier,
        rk: VerificationKey,
        cm_new: NoteCommitment,
        encrypted_note: EncryptedNote,
        cv_net: ValueCommitment,
        authorization: T,
    ) -> (r: Self)
        ensures
            r.parts() == (ActionParts { nf_old, rk, cm_new, encrypted_note, cv_net }),
            r.auth() == authorization,
    {
        Action { nf_old, rk, cm_new, encrypted_note, cv_net, authorization }
    }

    /// The action with what it publishes and its authorization.
    pub fn with_parts(parts: ActionParts, authorization: T) -> (r: Self)
        ensures
            r.parts() == parts,
            r.auth() == authorization,
    {
        Action {
            nf_old: parts.nf_old,
            rk: parts.rk,
            cm_new: parts.cm_new,
            encrypted_note: parts.encrypted_note,
            cv_net: parts.cv_net,
            authorization,
        }
    }

    /// What the action publishes, and its authorization.
    pub fn into_parts(self) -> (r: (ActionParts, T))
        ensures
            r.0 == self.parts(),
            r.1 == self.auth(),
    {
        (
            ActionParts {
                nf_old: self.nf_old,
                rk: self.rk,
                cm_new: self.cm_new,
                encrypted_note: self.encrypted_note,
                cv_net: self.cv_net,
            },
            self.authorization,
        )
    }

    /// The commitment to the net value of this action.
    pub fn cv_net(&self) -> (r: &ValueCommitment)
        ensures
            *r == self.parts().cv_net,
    {
        &self.cv_net
    }

    /// The public statement of the action's proof under the given flags and
    /// anchor.
    pub fn to_instance(&self, flags: Flags, anchor: Anchor) -> (r: Instance)
        ensures
            r == (Instance {
                anchor,
                cv_net: self.parts().cv_net,
                nf_old: self.parts().nf_old,
                rk: self.parts().rk,
                cm_new: self.parts().cm_new,
                enable_spend: flags.spends_enabled,
                enable_output: flags.outputs_enabled,
            }),
    {
        Instance {
            anchor,
            cv_net: self.cv_net,
            nf_old: self.nf_old,
            rk: self.rk,
            cm_new: self.cm_new,
            enable_spend: flags.spends_enabled,
            enable_output: flags.outputs_enabled,
        }
    }

    /// Moves the action from one authorization state to another: `step`
    /// gives the new authorization, and nothing else changes.
    pub fn map<P: Authorization<SpendAuth = T>, U>(
        self,
        parent: &P,
        step: impl FnOnce(&P, T) -> U,
    ) -> (r: Action<U>)
        requires
            step.requires((parent, self.auth())),
        ensures
            r.parts() == self.parts(),
            step.ensures((parent, self.auth()), r.auth()),
    {
        Action {
            nf_old: self.nf_old,
            rk: self.rk,
            cm_new: self.cm_new,
            encrypted_note: self.encrypted_note,
            cv_net: self.cv_net,
            authorization: step(parent, self.authorization),
        }
    }

    /// Moves the action from one authorization state to another, unless
    /// `step` fails; its failure is handed on.
    pub fn try_map<P: Authorization<SpendAuth = T>, U, E>(
        self,
        parent: &P,
        step: impl FnOnce(&P, T) -> Result<U, E>,
    ) -> (r: Result<Action<U>, E>)
        requires
            step.requires((parent, self.auth())),
        ensures
            match r {
                Ok(a) => a.parts() == self.parts() && step.ensures(
                    (parent, self.auth()),
                    Ok(a.auth()),
                ),
                Err(e) => step.ensures((parent, self.auth()), Err(e)),
            },
    {
        match step(parent, self.authorization) {
            Ok(authorization) => Ok(
                Action {
                    nf_old: self.nf_old,
                    rk: self.rk,
                    cm_new: self.cm_new,
                    encrypted_note: self.encrypted_note,
                    cv_net: self.cv_net,
                    authorization,
                },
            ),
            Err(e) => Err(e),
        }
    }
}

/// Whether `step` can give a new authorization for the old one.
pub open spec fn can_succeed<P, A, B, E, F: Fn(&P, A) -> Result<B, E>>(
    step: F,
    parent: P,
    old_auth: A,
) -> bool {
    exists|new_auth: B| call_ensures(step, (&parent, old_auth), Ok::<B, E>(new_auth))
}

/// A bundle of actions to be applied to the ledger. It holds at least one
/// action.
pub struct Bundle<T: Authorization> {
    actions: Vec<Action<T::SpendAuth>>,
    flags: Flags,
    value_balance: ValueSum,
    anchor: Anchor,
    authorization: T,
}

impl<T: Authorization> Bundle<T> {
    #[verifier::type_invariant]
    spec fn has_action(&self) -> bool {
        self.actions@.len() > 0
    }

    /// The actions of the bundle, in their order.
    pub closed spec fn actions(&self) -> Seq<Action<T::SpendAuth>> {
        self.actions@
    }

    /// The flags of the bundle.
    pub closed spec fn flags(&self) -> Flags {
        self.flags
    }

    /// The net value that the bundle moves.
    pub closed spec fn value_balance(&self) -> ValueSum {
        self.value_balance
    }

    /// The anchor of the bundle.
    pub closed spec fn anchor(&self) -> Anchor {
        self.anchor
    }

    /// The authorization of the bundle.
    pub closed spec fn auth(&self) -> T {
        self.authorization
    }

    /// The bundle with the given parts, if there is an action among them.
    pub fn from_parts(
        actions: Vec<Action<T::SpendAuth>>,
        flags: Flags,
        value_balance: ValueSum,
        anchor: Anchor,
        authorization: T,
    ) -> (r: Option<Self>)
        ensures
            r is Some <==> actions@.len() > 0,
            r matches Some(b) ==> b.actions() == actions@ && b.flags() == flags
                && b.value_balance() == value_balance && b.anchor() == anchor && b.auth()
                == authorization,
    {
        if actions.len() == 0 {
            return None;
        }
        Some(Bundle { actions, flags, value_balance, anchor, authorization })
    }

    /// The parts of the bundle.
    pub fn into_parts(self) -> (r: (Vec<Action<T::SpendAuth>>, Flags, ValueSum, Anchor, T))
        ensures
            r.0@ == self.actions(),
            r.0@.len() > 0,
            r.1 == self.flags(),
            r.2 == self.value_balance(),
            r.3 == self.anchor(),
            r.4 == self.auth(),
    {
        proof {
            use_type_invariant(&self);
        }
        (self.actions, self.flags, self.value_balance, self.anchor, self.authorization)
    }

    /// The number of actions of the bundle.
    pub fn num_actions(&self) -> (r: usize)
        ensures
            r == self.actions().len(),
            r > 0,
    {
        proof {
            use_type_invariant(self);
        }
        self.actions.len()
    }

    /// Action `i` of the bundle.
    pub fn action(&self, i: usize) -> (r: &Action<T::SpendAuth>)
        requires
            i < self.actions().len(),
        ensures
            *r == self.actions()[i as int],
    {
        &self.actions[i]
    }

    /// The net value that the bundle moves.
    pub fn balance(&self) -> (r: ValueSum)
        ensures
            r == self.value_balance(),
    {
        self.value_balance
    }

    /// Moves the bundle from one authorization state to another:
    /// `spend_auth` gives the new authorization of each action, in their
    /// order, `step` that of the bundle, and nothing else changes.
    pub fn map<U: Authorization>(
        self,
        spend_auth: impl Fn(&T, T::SpendAuth) -> U::SpendAuth,
        step: impl FnOnce(T) -> U,
    ) -> (r: Bundle<U>)
        requires
            forall|i: int|
                0 <= i < self.actions().len() ==> call_requires(
                    spend_auth,
                    (&self.auth(), (#[trigger] self.actions()[i]).auth()),
                ),
            call_requires(step, (self.auth(),)),
        ensures
            r.actions().len() == self.actions().len(),
            forall|i: int|
                0 <= i < self.actions().len() ==> (#[trigger] r.actions()[i]).parts()
                    == self.actions()[i].parts() && call_ensures(
                    spend_auth,
                    (&self.auth(), self.actions()[i].auth()),
                    r.actions()[i].auth(),
                ),
            call_ensures(step, (self.auth(),), r.auth()),
            r.flags() == self.flags(),
            r.value_balance() == self.value_balance(),
            r.anchor() == self.anchor(),
    {
        let ghost before = self.actions@;
        proof {
            use_type_invariant(&self);
        }
        let Bundle { actions, flags, value_balance, anchor, authorization } = self;
        let mut rest = actions;
        let mut done: Vec<Action<U::SpendAuth>> = Vec::new();
        while rest.len() > 0
            invariant
                done@.len() + rest@.len() == before.len(),
                rest@ == before.skip(done@.len() as int),
                forall|i: int|
                    0 <= i < before.len() ==> call_requires(
                        spend_auth,
                        (&authorization, (#[trigger] before[i]).auth()),
                    ),
                forall|i: int|
                    0 <= i < done@.len() ==> (#[trigger] done@[i]).parts() == before[i].parts()
                        && call_ensures(
                        spend_auth,
                        (&authorization, before[i].auth()),
                        done@[i].auth(),
                    ),
            decreases rest@.len(),
        {
            let ghost k = done@.len() as int;
            let a = rest.remove(0);
            proof {
                assert(a == before[k]);
                assert(rest@ =~= before.skip(k + 1));
            }
            let Action { nf_old, rk, cm_new, encrypted_note, cv_net, authorization: old_auth } = a;
            let new_auth = spend_auth(&authorization, old_auth);
            done.push(
                Action { nf_old, rk, cm_new, encrypted_note, cv_net, authorization: new_auth },
            );
        }
        Bundle { actions: done, flags, value_balance, anchor, authorization: step(authorization) }
    }

    /// Moves the bundle from one authorization state to another, unless a
    /// step fails: the actions are taken in their order, then the bundle,
    /// and the first failure is handed on.
    pub fn try_map<U: Authorization, E>(
        self,
        spend_auth: impl Fn(&T, T::SpendAuth) -> Result<U::SpendAuth, E>,
        step: impl FnOnce(T) -> Result<U, E>,
    ) -> (r: Result<Bundle<U>, E>)
        requires
            forall|i: int|
                0 <= i < self.actions().len() ==> call_requires(
                    spend_auth,
                    (&self.auth(), (#[trigger] self.actions()[i]).auth()),
                ),
            call_requires(step, (self.auth(),)),
        ensures
            r matches Ok(b) ==> {
                &&& b.actions().len() == self.actions().len()
                &&& forall|i: int|
                    0 <= i < self.actions().len() ==> (#[trigger] b.actions()[i]).parts()
                        == self.actions()[i].parts() && call_ensures(
                        spend_auth,
                        (&self.auth(), self.actions()[i].auth()),
                        Ok(b.actions()[i].auth()),
                    )
                &&& call_ensures(step, (self.auth(),), Ok(b.auth()))
                &&& b.flags() == self.flags()
                &&& b.value_balance() == self.value_balance()
                &&& b.anchor() == self.anchor()
            },
            r matches Err(e) ==> (exists|i: int|
                0 <= i < self.actions().len() && call_ensures(
                    spend_auth,
                    (&self.auth(), (#[trigger] self.actions()[i]).auth()),
                    Err(e),
                ) && forall|j: int|
                    0 <= j < i ==> can_succeed(
                        spend_auth,
                        self.auth(),
                        (#[trigger] self.actions()[j]).auth(),
                    )) || (call_ensures(step, (self.auth(),), Err(e)) && forall|j: int|
                0 <= j < self.actions().len() ==> can_succeed(
                    spend_auth,
                    self.auth(),
                    (#[trigger] self.actions()[j]).auth(),
                )),
    {
        let ghost before = self.actions@;
        proof {
            use_type_invariant(&self);
        }
        let Bundle { actions, flags, value_balance, anchor, authorization } = self;
        let mut rest = actions;
        let mut done: Vec<Action<U::SpendAuth>> = Vec::new();
        while rest.len() > 0
            invariant
                before == self.actions(),
                authorization == self.auth(),
                done@.len() + rest@.len() == before.len(),
                rest@ == before.skip(done@.len() as int),
                forall|i: int|
                    0 <= i < before.len() ==> call_requires(
                        spend_auth,
                        (&authorization, (#[trigger] before[i]).auth()),
                    ),
                forall|i: int|
                    0 <= i < done@.len() ==> (#[trigger] done@[i]).parts() == before[i].parts()
                        && call_ensures(
                        spend_auth,
                        (&authorization, before[i].auth()),
                        Ok(done@[i].auth()),
                    ),
                forall|j: int|
                    0 <= j < done@.len() ==> can_succeed(
                        spend_auth,
                        authorization,
                        (#[trigger] before[j]).auth(),
                    ),
            decreases rest@.len(),
        {
            let ghost k = done@.len() as int;
            let a = rest.remove(0);
            proof {
                assert(a == before[k]);
                assert(rest@ =~= before.skip(k + 1));
            }
            let Action { nf_old, rk, cm_new, encrypted_note, cv_net, authorization: old_auth } = a;
            match spend_auth(&authorization, old_auth) {
                Ok(new_auth) => {
                    proof {
                        assert(call_ensures(
                            spend_auth,
                            (&authorization, before[k].auth()),
                            Ok::<U::SpendAuth, E>(new_auth),
                        ));
                    }
                    done.push(
                        Action {
                            nf_old,
                            rk,
                            cm_new,
                            encrypted_note,
                            cv_net,
                            authorization: new_auth,
                        },
                    );
                },
                Err(e) => {
                    proof {
                        assert(call_ensures(
                            spend_auth,
                            (&self.auth(), self.actions()[k].auth()),
                            Err::<U::SpendAuth, E>(e),
                        ));
                    }
                    return Err(e);
                },
            }
        }
        match step(authorization) {
            Ok(next) => Ok(
                Bundle { actions: done, flags, value_balance, anchor, authorization: next },
            ),
            Err(e) => Err(e),
        }
    }
}

/// The proof of a bundle.
#[derive(Debug)]
pub struct Proof(pub Vec<u8>);

/// Authorizing data for a bundle of actions, ready to be committed to the
/// ledger.
#[derive(Debug)]
pub struct Authorized {
    pub proof: Proof,
    pub binding_signature: Signature,
}

impl Authorization for Authorized {
    type SpendAuth = Signature;
}

/// A commitment to a bundle of actions.
#[derive(Debug)]
pub struct BundleCommitment;

/// A commitment to the authorizing data within a bundle of actions.
#[derive(Debug)]
pub struct BundleAuthorizingCommitment;

} // verus!
