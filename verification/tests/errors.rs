//! Error texts of the constraint-system and folding layers.

use nova_tree::ccs::Error as CcsError;
use nova_tree::folding::hypernova::accs_folding::Error as AccsError;
use nova_tree::folding::hypernova::nimfs::Error as NimfsError;

#[test]
fn ccs_error_messages() {
    assert_eq!(CcsError::InvalidWitnessLength.message(), "invalid witness length");
    assert_eq!(CcsError::InvalidInputLength.message(), "invalid input length");
    assert_eq!(CcsError::InvalidEvaluationPoint.message(), "invalid evaluation point");
    assert_eq!(CcsError::InvalidTargets.message(), "invalid targets");
    assert_eq!(CcsError::NotSatisfied.message(), "not satisfied");
}

#[test]
fn folding_errors_wrap_ccs_errors() {
    let e: NimfsError = CcsError::NotSatisfied.into();
    assert_eq!(e, NimfsError::CCS(CcsError::NotSatisfied));
    assert_eq!(e.message(), "not satisfied");
    assert_eq!(e.source(), Some(CcsError::NotSatisfied));
    assert_eq!(NimfsError::InconsistentSubclaim.message(), "inconsistent subclaim");
    assert_eq!(NimfsError::InconsistentSubclaim.source(), None);

    let e: AccsError = CcsError::InvalidTargets.into();
    assert_eq!(e.message(), "invalid targets");
    assert_eq!(e.source(), Some(CcsError::InvalidTargets));
    assert_eq!(AccsError::InconsistentSubclaim.message(), "inconsistent subclaim");
}
