use constraint_hamiltonian::system::{validate_system, DimensionContext, SystemError};
use constraint_hamiltonian::IntegrationMethod;

#[test]
fn test_system_creation() {
    assert_eq!(validate_system(2, 2, &[true, true], true), Ok(()));
}

#[test]
fn test_empty_system_rejected() {
    let result = validate_system(0, 0, &[], true);
    assert!(result.is_err());
    assert_eq!(result, Err(SystemError::EmptySystem));
}

#[test]
fn test_dimension_mismatch_momenta() {
    let result = validate_system(1, 2, &[true], true);
    assert!(result.is_err());
    assert_eq!(
        result,
        Err(SystemError::DimensionMismatch { expected: 1, found: 2, context: DimensionContext::Momenta })
    );
}

#[test]
fn test_dimension_mismatch_mass_matrix() {
    assert_eq!(
        validate_system(2, 2, &[true], true),
        Err(SystemError::DimensionMismatch { expected: 2, found: 1, context: DimensionContext::MassMatrix })
    );
}

#[test]
fn test_non_positive_mass() {
    let result = validate_system(1, 1, &[false], true);
    assert!(result.is_err());
    assert_eq!(result, Err(SystemError::NonPositiveMass { index: 0 }));
    assert_eq!(
        validate_system(3, 3, &[true, false, false], false),
        Err(SystemError::NonPositiveMass { index: 1 })
    );
}

#[test]
fn test_negative_dt() {
    let result = validate_system(1, 1, &[true], false);
    assert!(result.is_err());
    assert_eq!(result, Err(SystemError::NonPositiveTimeStep));
}

#[test]
fn test_checks_run_in_order() {
    // An empty system is reported before anything else is looked at.
    assert_eq!(validate_system(0, 3, &[false], false), Err(SystemError::EmptySystem));
    // Momenta are checked before masses.
    assert_eq!(
        validate_system(2, 3, &[false], false),
        Err(SystemError::DimensionMismatch { expected: 2, found: 3, context: DimensionContext::Momenta })
    );
}

#[test]
fn test_integration_methods_distinct() {
    let methods = [IntegrationMethod::Euler, IntegrationMethod::Verlet, IntegrationMethod::StormerVerlet];
    assert_ne!(methods[0], methods[1]);
    assert_ne!(methods[1], methods[2]);
    assert_eq!(methods[2], IntegrationMethod::StormerVerlet);
}
