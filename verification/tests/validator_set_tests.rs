use sp_session::validator_set::ValidatorSet;
use sp_session::validator_set::ValidatorSetWithIdentification;

/// A fixed in-memory validator set view, as a system with its own staking
/// implementation would supply.
struct StaticView {
    index: u32,
    validators: Vec<u64>,
}

impl ValidatorSet<u64> for StaticView {
    type ValidatorId = u64;

    fn current_index(&self) -> u32 {
        self.index
    }

    fn validators(&self) -> Vec<u64> {
        self.validators.clone()
    }

    fn validator_id_of(&self, account: &u64) -> Option<u64> {
        if self.validators.contains(account) {
            Some(*account)
        } else {
            None
        }
    }
}

impl ValidatorSetWithIdentification<u64> for StaticView {
    type Identification = [u8; 8];

    fn identification_of(&self, validator: &u64) -> Option<[u8; 8]> {
        if *validator == 99 {
            // a validator that cannot be durably identified
            None
        } else {
            Some(validator.to_le_bytes())
        }
    }
}

#[test]
fn view_reports_index_and_ordered_validators() {
    let view = StaticView { index: 7, validators: vec![30, 10, 20] };
    assert_eq!(view.current_index(), 7);
    // order is authoritative, not sorted
    assert_eq!(view.validators(), vec![30, 10, 20]);
    assert_eq!(view.validator_id_of(&10), Some(10));
    assert_eq!(view.validator_id_of(&11), None);
}

#[test]
fn identification_resolves_or_reports_a_gap() {
    let view = StaticView { index: 0, validators: vec![1, 99] };
    assert_eq!(view.identification_of(&1), Some(1u64.to_le_bytes()));
    assert_eq!(view.identification_of(&99), None);
}
