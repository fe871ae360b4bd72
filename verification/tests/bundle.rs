use orchard::builder::{
    same_key, ActionInfo, Builder, Error, PartiallyAuthorized, RecipientInfo, SpendInfo, Unauthorized,
};
use orchard::bundle::{Action, Bundle, Flags, Proof};
use orchard::ecc::curve::Affine;
use orchard::field::FieldElement;
use orchard::keys::{
    Address, FullViewingKey, OutgoingViewingKey, Signature, SigningKey, SpendValidatingKey,
    VerificationKey,
};
use orchard::note::{EncryptedNote, Note, NoteCommitment, Nullifier};
use orchard::pallas::{Base, Scalar};
use orchard::sinsemilla::{lebs2ip_32, message_words};
use orchard::tree::{Anchor, MerklePath};
use orchard::value::{NoteValue, OverflowError, ValueCommitTrapdoor, ValueCommitment, ValueSum};

fn note(value: u64) -> Note {
    Note { recipient: Address([1; 43]), value: NoteValue(value), rho: Nullifier(Base::from_u64(9)) }
}

fn flags() -> Flags {
    Flags { spends_enabled: true, outputs_enabled: true }
}

fn action<T>(authorization: T) -> Action<T> {
    let point = Affine { x: Base::from_u64(3), y: Base::from_u64(4) };
    Action::from_parts(
        Nullifier(Base::from_u64(1)),
        VerificationKey([2; 32]),
        NoteCommitment(point),
        EncryptedNote,
        ValueCommitment(point),
        authorization,
    )
}

#[test]
fn simple_bundle() {
    let builder = Builder::new(flags(), Anchor);
    assert_eq!(builder.num_actions(), 2);
    assert_eq!(builder.value_balance(), Ok(ValueSum(0)));
}

#[test]
fn the_balance_pairs_spends_with_recipients() {
    let mut builder = Builder::new(flags(), Anchor);
    assert!(builder.add_spend(FullViewingKey([0; 96]), note(100), MerklePath).is_ok());
    assert!(builder.add_spend(FullViewingKey([0; 96]), note(50), MerklePath).is_ok());
    assert!(builder.add_spend(FullViewingKey([0; 96]), note(7), MerklePath).is_ok());
    builder.add_recipient(Some(OutgoingViewingKey([0; 32])), Address([2; 43]), NoteValue(120), None);
    assert_eq!(builder.num_actions(), 3);
    assert_eq!(builder.value_balance(), Ok(ValueSum(37)));
    builder.add_recipient(None, Address([2; 43]), NoteValue(200), Some(()));
    assert_eq!(builder.value_balance(), Ok(ValueSum(-163)));
}

#[test]
fn a_value_beyond_63_bits_overflows() {
    let mut builder = Builder::new(flags(), Anchor);
    builder.add_recipient(None, Address([2; 43]), NoteValue(1 << 63), None);
    assert_eq!(builder.value_balance(), Err(OverflowError));
    assert_eq!(NoteValue(5).minus(NoteValue(7)), Ok(ValueSum(-2)));
    assert_eq!(NoteValue(u64::MAX).minus(NoteValue(0)), Err(OverflowError));
    assert_eq!(ValueSum(i64::MAX).plus(ValueSum(1)), Err(OverflowError));
    assert_eq!(ValueSum(i64::MIN).plus(ValueSum(-1)), Err(OverflowError));
    assert_eq!(ValueSum(-4).plus(ValueSum(9)), Ok(ValueSum(5)));
}

#[test]
fn a_sum_of_balances_overflows() {
    let mut builder = Builder::new(flags(), Anchor);
    for _ in 0..3 {
        assert!(builder.add_spend(FullViewingKey([0; 96]), note(i64::MAX as u64), MerklePath).is_ok());
    }
    assert_eq!(builder.num_actions(), 3);
    assert_eq!(builder.value_balance(), Err(OverflowError));
}

#[test]
fn the_net_value_of_an_action() {
    let info = ActionInfo {
        spend: SpendInfo { fvk: FullViewingKey([0; 96]), note: note(10), merkle_path: MerklePath },
        output: RecipientInfo { ovk: None, recipient: Address([2; 43]), value: NoteValue(25), memo: None },
        rcv: ValueCommitTrapdoor(Scalar::from_u64(1)),
    };
    assert_eq!(info.value_sum(), Ok(ValueSum(-15)));
}

#[test]
fn an_action_moves_between_authorizations() {
    let unauthorized = Unauthorized { proof: Proof(vec![1, 2, 3]), bsk: SigningKey([7; 32]) };
    let a = action(SpendValidatingKey(VerificationKey([5; 32])));
    let cv = a.cv_net().0.x.to_limbs();
    let moved = a.map(&unauthorized, |parent, ak| (parent.bsk.0[0], ak.0 .0[0]));
    assert_eq!(moved.cv_net().0.x.to_limbs(), cv);
    let instance = moved.to_instance(flags(), Anchor);
    assert!(instance.enable_spend && instance.enable_output);
    assert_eq!(instance.nf_old.0.to_limbs(), [1, 0, 0, 0]);
}

#[test]
fn a_failed_step_is_handed_on() {
    let partial = PartiallyAuthorized {
        proof: Proof(vec![]),
        binding_signature: Signature([0; 64]),
        sighash: [9; 32],
    };
    let unsigned = action((None::<Signature>, SpendValidatingKey(VerificationKey([5; 32]))));
    let failed = unsigned.try_map(&partial, |_, (sig, _)| sig.ok_or("missing signature"));
    assert_eq!(failed.map(|_| ()), Err("missing signature"));
    let signed = action((Some(Signature([3; 64])), SpendValidatingKey(VerificationKey([5; 32]))));
    let done = signed.try_map(&partial, |p, (sig, _)| sig.map(|s| s.0[0] + p.sighash[0]).ok_or(()));
    assert!(done.is_ok());
}

#[test]
fn words_of_a_message() {
    assert_eq!(lebs2ip_32(&[true, false, true, true]), 13);
    assert_eq!(lebs2ip_32(&[]), 0);
    assert_eq!(lebs2ip_32(&[true; 32]), u32::MAX);
    // twelve bits are padded with two and cut into words of ten and four
    let mut message = vec![false; 12];
    message[0] = true;
    message[9] = true;
    message[11] = true;
    assert_eq!(message_words(&message), Some(vec![513, 2]));
    assert_eq!(message_words(&vec![]), Some(vec![]));
    assert_eq!(message_words(&vec![true; 2530]).map(|w| w.len()), Some(253));
    assert_eq!(message_words(&vec![true; 2531]), None);
}

fn key(byte: u8) -> SpendValidatingKey {
    SpendValidatingKey(VerificationKey([byte; 32]))
}

/// A stand-in for signing: the key's first byte and the sighash's.
fn signer(ak: &SpendValidatingKey, sighash: &[u8; 32]) -> Signature {
    let mut bytes = [0u8; 64];
    bytes[0] = ak.0 .0[0];
    bytes[1] = sighash[0];
    Signature(bytes)
}

fn unauthorized(keys: &[u8]) -> Bundle<Unauthorized> {
    let actions = keys.iter().map(|k| action(key(*k))).collect();
    let state = Unauthorized { proof: Proof(vec![1, 2, 3]), bsk: SigningKey([7; 32]) };
    Bundle::from_parts(actions, flags(), ValueSum(-5), Anchor, state).unwrap()
}

#[test]
fn a_bundle_holds_an_action() {
    let state = Unauthorized { proof: Proof(vec![]), bsk: SigningKey([7; 32]) };
    let none: Vec<Action<SpendValidatingKey>> = Vec::new();
    assert!(Bundle::from_parts(none, flags(), ValueSum(0), Anchor, state).is_none());
    let bundle = unauthorized(&[4, 5, 6]);
    assert_eq!(bundle.num_actions(), 3);
    assert_eq!(bundle.balance(), ValueSum(-5));
    assert_eq!(bundle.action(1).cv_net().0.x.to_limbs(), [3, 0, 0, 0]);
    let (actions, _, balance, _, state) = bundle.into_parts();
    assert_eq!(actions.len(), 3);
    assert_eq!(balance, ValueSum(-5));
    assert_eq!(state.proof.0, vec![1, 2, 3]);
}

#[test]
fn a_bundle_moves_between_authorizations() {
    let bundle = unauthorized(&[4, 5, 6]);
    let moved: Bundle<PartiallyAuthorized> = bundle.map(
        |parent: &Unauthorized, ak| (Some(Signature([parent.bsk.0[0]; 64])), ak),
        |state| PartiallyAuthorized {
            proof: state.proof,
            binding_signature: Signature([1; 64]),
            sighash: [2; 32],
        },
    );
    assert_eq!(moved.num_actions(), 3);
    let (actions, _, balance, _, state) = moved.into_parts();
    assert_eq!(balance, ValueSum(-5));
    assert_eq!(state.sighash, [2; 32]);
    for (action, byte) in actions.into_iter().zip([4u8, 5, 6]) {
        let (parts, (signature, ak)) = action.into_parts();
        assert_eq!(parts.rk.0, [2; 32]);
        assert_eq!(signature.unwrap().0[0], 7);
        assert_eq!(ak.0 .0, [byte; 32]);
    }
}

#[test]
fn the_first_failure_of_a_bundle_is_handed_on() {
    let bundle = unauthorized(&[4, 5, 6, 5]);
    let failed: Result<Bundle<PartiallyAuthorized>, u8> = bundle.try_map(
        |_, ak| if ak.0 .0[0] >= 5 { Err(ak.0 .0[0]) } else { Ok((None, ak)) },
        |_| Err(0),
    );
    assert_eq!(failed.map(|_| ()), Err(5));
    let bundle = unauthorized(&[4, 4]);
    let failed: Result<Bundle<PartiallyAuthorized>, u8> =
        bundle.try_map(|_, ak| Ok((None, ak)), |_| Err(0));
    assert_eq!(failed.map(|_| ()), Err(0));
}

#[test]
fn signing_leaves_the_actions_of_other_keys() {
    let prepared = unauthorized(&[4, 5, 4]).prepare(Signature([8; 64]), [9; 32]);
    let signed = prepared.sign(&key(4), &signer);
    let (actions, _, _, _, state) = signed.into_parts();
    assert_eq!(state.binding_signature.0, [8; 64]);
    assert_eq!(state.sighash, [9; 32]);
    let signatures: Vec<Option<[u8; 2]>> = actions
        .into_iter()
        .map(|a| a.into_parts().1 .0.map(|s| [s.0[0], s.0[1]]))
        .collect();
    assert_eq!(signatures, vec![Some([4, 9]), None, Some([4, 9])]);
}

#[test]
fn a_bundle_with_an_unsigned_action_is_not_finalized() {
    let prepared = unauthorized(&[4, 5]).prepare(Signature([8; 64]), [9; 32]);
    assert!(matches!(prepared.finalize(), Err(Error::MissingSignatures)));
    let half = unauthorized(&[4, 5]).prepare(Signature([8; 64]), [9; 32]).sign(&key(5), &signer);
    assert!(matches!(half.finalize(), Err(Error::MissingSignatures)));
    let whole = unauthorized(&[4, 5])
        .prepare(Signature([8; 64]), [9; 32])
        .sign(&key(5), &signer)
        .sign(&key(4), &signer);
    let done = whole.finalize().unwrap();
    let (actions, _, balance, _, state) = done.into_parts();
    assert_eq!(balance, ValueSum(-5));
    assert_eq!(state.proof.0, vec![1, 2, 3]);
    assert_eq!(state.binding_signature.0, [8; 64]);
    let first: Vec<u8> = actions.into_iter().map(|a| a.into_parts().1 .0[0]).collect();
    assert_eq!(first, vec![4, 5]);
}

#[test]
fn signatures_are_applied_for_every_key() {
    let keys = vec![key(6), key(4), key(5)];
    let done = unauthorized(&[4, 5, 4]).apply_signatures(Signature([8; 64]), [9; 32], &keys, &signer);
    let (actions, _, _, _, _) = done.unwrap().into_parts();
    let first: Vec<u8> = actions.into_iter().map(|a| a.into_parts().1 .0[0]).collect();
    assert_eq!(first, vec![4, 5, 4]);
    // no key for the second action
    let keys = vec![key(4)];
    let failed = unauthorized(&[4, 5]).apply_signatures(Signature([8; 64]), [9; 32], &keys, &signer);
    assert!(matches!(failed, Err(Error::MissingSignatures)));
    assert!(same_key(&key(3), &key(3)) && !same_key(&key(3), &key(4)));
}
