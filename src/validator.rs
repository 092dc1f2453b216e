//! Transaction validation against a read-only view of the state.
use crate::bytes::eq32;
use crate::crypto::{embedded_key, sha256, verify_signature, HASH_INPUT_LIMIT};
use crate::ledger::{
    encode_transaction_content, transaction_content, StateObjectView, Transaction,
    TransactionView,
};
use crate::state_db::{StateDB, StateError, StateErrorView};
use vstd::prelude::*;

verus! {

/// Every reason a transaction can be rejected.
#[derive(Debug, PartialEq, Eq)]
pub enum ValidationError {
    /// The id is not the hash of the transaction's content.
    MismatchedId,
    /// The signature was not made by the owner of the inputs.
    InvalidSignature,
    /// An input names no object of the state.
    InputNotFound(crate::crypto::Hash),
    /// The transaction consumes nothing and so has no authority.
    NoInputs,
    /// The inputs do not all have the same owner.
    MultipleOwners,
    /// A state database operation failed.
    StateError(StateError),
}

/// The abstract value of a [`ValidationError`].
pub enum ValidationErrorView {
    MismatchedId,
    InvalidSignature,
    InputNotFound(Seq<u8>),
    NoInputs,
    MultipleOwners,
    StateError(StateErrorView),
}

impl View for ValidationError {
    type V = ValidationErrorView;

    open spec fn view(&self) -> ValidationErrorView {
        match self {
            ValidationError::MismatchedId => ValidationErrorView::MismatchedId,
            ValidationError::InvalidSignature => ValidationErrorView::InvalidSignature,
            ValidationError::InputNotFound(h) => ValidationErrorView::InputNotFound(h@),
            ValidationError::NoInputs => ValidationErrorView::NoInputs,
            ValidationError::MultipleOwners => ValidationErrorView::MultipleOwners,
            ValidationError::StateError(e) => ValidationErrorView::StateError(e@),
        }
    }
}

/// True when the transaction's id is the hash of its content.
pub open spec fn id_matches(tx: TransactionView) -> bool {
    let content = transaction_content(tx.inputs, tx.outputs, tx.causal_links);
    content.len() < HASH_INPUT_LIMIT && tx.id == sha256(content)
}

/// The first id of `ids` that the state does not hold.
pub open spec fn first_missing(
    state: Map<Seq<u8>, StateObjectView>,
    ids: Seq<Seq<u8>>,
) -> Option<Seq<u8>>
    decreases ids.len(),
{
    if ids.len() == 0 {
        None
    } else if !state.contains_key(ids[0]) {
        Some(ids[0])
    } else {
        first_missing(state, ids.drop_first())
    }
}

/// True when every id of `ids` names an object owned by `owner`.
pub open spec fn all_owned_by(
    state: Map<Seq<u8>, StateObjectView>,
    ids: Seq<Seq<u8>>,
    owner: Seq<u8>,
) -> bool {
    forall|i: int| 0 <= i < ids.len() ==> #[trigger] state[ids[i]].owner == owner
}

/// The outcome of validating `tx` against `state`: the checks run in order
/// and the first failing one decides.
pub open spec fn validation_outcome(
    state: Map<Seq<u8>, StateObjectView>,
    tx: TransactionView,
) -> Result<(), ValidationErrorView> {
    if !id_matches(tx) {
        Err(ValidationErrorView::MismatchedId)
    } else if tx.inputs.len() == 0 {
        Err(ValidationErrorView::NoInputs)
    } else if let Some(missing) = first_missing(state, tx.inputs) {
        Err(ValidationErrorView::InputNotFound(missing))
    } else if !all_owned_by(state, tx.inputs, state[tx.inputs[0]].owner) {
        Err(ValidationErrorView::MultipleOwners)
    } else if embedded_key(tx.signature) != state[tx.inputs[0]].owner {
        Err(ValidationErrorView::InvalidSignature)
    } else {
        Ok(())
    }
}

/// Validation depends on nothing but the state snapshot and the
/// transaction: equal snapshots and equal transactions get equal verdicts,
/// and a verdict names the same error each time.
pub proof fn lemma_validation_deterministic(
    s1: Map<Seq<u8>, StateObjectView>,
    s2: Map<Seq<u8>, StateObjectView>,
    t1: TransactionView,
    t2: TransactionView,
)
    requires
        s1 == s2,
        t1 == t2,
    ensures
        validation_outcome(s1, t1) == validation_outcome(s2, t2),
{
}

/// Checks transactions against one state snapshot.
pub struct TransactionValidator<'a> {
    state_db: &'a StateDB,
}

impl<'a> TransactionValidator<'a> {
    /// The state the validator reads.
    pub closed spec fn state(&self) -> Map<Seq<u8>, StateObjectView> {
        self.state_db@
    }

    /// True when the state it reads is well formed.
    pub closed spec fn wf(&self) -> bool {
        self.state_db.wf()
    }

    pub fn new(state_db: &'a StateDB) -> (r: Self)
        ensures
            r.state() == state_db@,
            r.wf() == state_db.wf(),
    {
        TransactionValidator { state_db }
    }

    /// Runs the checks in order (id, inputs, ownership, signature) and
    /// returns the first failure.
    pub fn validate_transaction(&self, tx: &Transaction) -> (r: Result<(), ValidationError>)
        requires
            self.wf(),
        ensures
            match r {
                Ok(()) => validation_outcome(self.state(), tx@) is Ok,
                Err(e) => validation_outcome(self.state(), tx@) == Err::<(), ValidationErrorView>(e@),
            },
    {
        self.check_id_hash(tx)?;
        self.check_inputs_exist(tx)?;
        self.check_signature(tx)
    }

    /// The id must be the hash of the content.
    fn check_id_hash(&self, tx: &Transaction) -> (r: Result<(), ValidationError>)
        ensures
            r is Ok <==> id_matches(tx@),
            r is Err ==> r == Err::<(), ValidationError>(ValidationError::MismatchedId),
    {
        let bytes = encode_transaction_content(&tx.inputs, &tx.outputs, &tx.causal_links);
        if bytes.len() as u64 >= HASH_INPUT_LIMIT {
            return Err(ValidationError::MismatchedId);
        }
        let expected = crate::crypto::hash_data(bytes.as_slice());
        if !eq32(&tx.id, &expected) {
            return Err(ValidationError::MismatchedId);
        }
        Ok(())
    }

    /// There must be inputs, and each must name an object of the state.
    fn check_inputs_exist(&self, tx: &Transaction) -> (r: Result<(), ValidationError>)
        requires
            self.wf(),
        ensures
            r is Ok <==> (tx@.inputs.len() > 0 && first_missing(self.state(), tx@.inputs) is None),
            r matches Err(e) ==> (tx@.inputs.len() == 0 && e@ == ValidationErrorView::NoInputs) || (
            tx@.inputs.len() > 0 && first_missing(self.state(), tx@.inputs) == Some(
                match e@ {
                    ValidationErrorView::InputNotFound(h) => h,
                    _ => Seq::<u8>::empty(),
                },
            ) && e@ is InputNotFound),
    {
        if tx.inputs.len() == 0 {
            return Err(ValidationError::NoInputs);
        }
        let ghost ids = tx@.inputs;
        assert(ids.skip(0) =~= ids);
        let mut i: usize = 0;
        while i < tx.inputs.len()
            invariant
                self.wf(),
                i <= tx.inputs@.len(),
                ids == tx@.inputs,
                ids.len() == tx.inputs@.len(),
                first_missing(self.state(), ids) == first_missing(self.state(), ids.skip(i as int)),
            decreases tx.inputs@.len() - i,
        {
            let input = &tx.inputs[i];
            proof {
                assert(ids.skip(i as int)[0] == ids[i as int]);
                assert(ids.skip(i as int).drop_first() =~= ids.skip(i + 1));
            }
            if !self.state_db.contains(input) {
                return Err(ValidationError::InputNotFound(*input));
            }
            i = i + 1;
        }
        assert(ids.skip(i as int).len() == 0);
        Ok(())
    }

    /// All inputs must share the first input's owner, and the signature must
    /// be that owner's.
    fn check_signature(&self, tx: &Transaction) -> (r: Result<(), ValidationError>)
        requires
            self.wf(),
            tx@.inputs.len() > 0,
            first_missing(self.state(), tx@.inputs) is None,
        ensures
            ({
                let owner = self.state()[tx@.inputs[0]].owner;
                if !all_owned_by(self.state(), tx@.inputs, owner) {
                    r == Err::<(), ValidationError>(ValidationError::MultipleOwners)
                } else if embedded_key(tx@.signature) != owner {
                    r == Err::<(), ValidationError>(ValidationError::InvalidSignature)
                } else {
                    r is Ok
                }
            }),
    {
        proof {
            lemma_none_missing_all_present(self.state(), tx@.inputs);
        }
        assert(tx@.inputs[0] == tx.inputs@[0]@);
        let first = match self.state_db.get_so(&tx.inputs[0]) {
            Ok(so) => so,
            Err(e) => {
                return Err(ValidationError::StateError(e));
            },
        };
        let owner = first.owner;
        let ghost ids = tx@.inputs;
        let mut i: usize = 1;
        while i < tx.inputs.len()
            invariant
                self.wf(),
                1 <= i <= tx.inputs@.len(),
                ids == tx@.inputs,
                ids.len() == tx.inputs@.len(),
                forall|j: int| 0 <= j < ids.len() ==> self.state().contains_key(#[trigger] ids[j]),
                owner@ == self.state()[ids[0]].owner,
                forall|j: int| 0 <= j < i ==> #[trigger] self.state()[ids[j]].owner == owner@,
            decreases tx.inputs@.len() - i,
        {
            proof {
                assert(ids[i as int] == tx.inputs@[i as int]@);
                assert(self.state().contains_key(ids[i as int]));
            }
            let so = match self.state_db.get_so(&tx.inputs[i]) {
                Ok(so) => so,
                Err(e) => {
                    return Err(ValidationError::StateError(e));
                },
            };
            if !eq32(&so.owner, &owner) {
                assert(self.state()[ids[i as int]].owner != owner@);
                return Err(ValidationError::MultipleOwners);
            }
            i = i + 1;
        }
        if !verify_signature(&tx.signature, &tx.id, &owner) {
            return Err(ValidationError::InvalidSignature);
        }
        Ok(())
    }
}

pub proof fn lemma_none_missing_all_present(state: Map<Seq<u8>, StateObjectView>, ids: Seq<Seq<u8>>)
    requires
        first_missing(state, ids) is None,
    ensures
        forall|j: int| 0 <= j < ids.len() ==> state.contains_key(#[trigger] ids[j]),
    decreases ids.len(),
{
    if ids.len() > 0 {
        lemma_none_missing_all_present(state, ids.drop_first());
        assert forall|j: int| 0 <= j < ids.len() implies state.contains_key(#[trigger] ids[j]) by {
            if j > 0 {
                assert(ids[j] == ids.drop_first()[j - 1]);
            }
        }
    }
}

} // verus!
