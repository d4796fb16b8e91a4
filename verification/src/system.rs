//! The shape checks that a Hamiltonian system must pass before it can be
//! integrated: at least one degree of freedom, one momentum and one mass per
//! position, every mass positive and a positive time step.
use vstd::prelude::*;

verus! {

/// Which vector disagrees in length with the positions.
#[derive(Debug, Clone, Copy, PartialEq, Eq, Structural)]
pub enum DimensionContext {
    Momenta,
    MassMatrix,
}

/// Why a system was rejected.
#[derive(Debug, Clone, Copy, PartialEq, Eq, Structural)]
pub enum SystemError {
    /// Zero degrees of freedom.
    EmptySystem,
    /// A vector whose length differs from the number of positions.
    DimensionMismatch { expected: usize, found: usize, context: DimensionContext },
    /// The first mass that is not positive.
    NonPositiveMass { index: usize },
    /// The time step is not positive.
    NonPositiveTimeStep,
}

/// The index of the first `false` in `s`, if any.
pub open spec fn first_false(s: Seq<bool>) -> Option<nat>
    decreases s.len(),
{
    if s.len() == 0 {
        None
    } else if !s[0] {
        Some(0)
    } else {
        match first_false(s.drop_first()) {
            Some(i) => Some(i + 1),
            None => None,
        }
    }
}

/// The verdict on a system with the given sizes, where `mass_positive[i]`
/// tells whether mass `i` is positive: the checks run in the order empty
/// system, momenta length, mass length, masses, time step, and the first
/// that fails is reported.
pub open spec fn system_verdict(
    positions_len: nat,
    momenta_len: nat,
    mass_positive: Seq<bool>,
    dt_positive: bool,
) -> Result<(), SystemError> {
    if positions_len == 0 {
        Err(SystemError::EmptySystem)
    } else if momenta_len != positions_len {
        Err(
            SystemError::DimensionMismatch {
                expected: positions_len as usize,
                found: momenta_len as usize,
                context: DimensionContext::Momenta,
            },
        )
    } else if mass_positive.len() != positions_len {
        Err(
            SystemError::DimensionMismatch {
                expected: positions_len as usize,
                found: mass_positive.len() as usize,
                context: DimensionContext::MassMatrix,
            },
        )
    } else if first_false(mass_positive) is Some {
        Err(SystemError::NonPositiveMass { index: first_false(mass_positive)->0 as usize })
    } else if !dt_positive {
        Err(SystemError::NonPositiveTimeStep)
    } else {
        Ok(())
    }
}

proof fn lemma_first_false_at(s: Seq<bool>, i: nat)
    requires
        i <= s.len(),
        forall|j: int| 0 <= j < i ==> #[trigger] s[j],
    ensures
        i < s.len() && !s[i as int] ==> first_false(s) == Some(i),
        i == s.len() ==> first_false(s) is None,
    decreases i,
{
    if i > 0 {
        let d = s.drop_first();
        assert forall|j: int| 0 <= j < i - 1 implies #[trigger] d[j] by {
            assert(d[j] == s[j + 1]);
        }
        lemma_first_false_at(d, (i - 1) as nat);
    }
}

proof fn lemma_first_false_some(s: Seq<bool>, i: int)
    requires
        0 <= i < s.len(),
        !s[i],
    ensures
        first_false(s) is Some,
    decreases s.len(),
{
    if s[0] {
        lemma_first_false_some(s.drop_first(), i - 1);
    }
}

/// What the checks decide, in terms of the sizes alone: a system is accepted
/// exactly when it has a position, as many momenta and masses as positions,
/// every mass positive and a positive time step; otherwise the first failed
/// check, in the order empty system, momenta, masses' count, masses, time
/// step, is the one reported, with the sizes it saw.
pub proof fn lemma_system_verdict(
    positions_len: usize,
    momenta_len: usize,
    mass_positive: Seq<bool>,
    dt_positive: bool,
)
    requires
        mass_positive.len() <= usize::MAX,
    ensures
        ({
            let v = system_verdict(
                positions_len as nat,
                momenta_len as nat,
                mass_positive,
                dt_positive,
            );
            &&& v is Ok <==> (positions_len > 0 && momenta_len == positions_len
                && mass_positive.len() == positions_len && (forall|i: int|
                0 <= i < mass_positive.len() ==> #[trigger] mass_positive[i]) && dt_positive)
            &&& positions_len == 0 ==> v == Err::<(), SystemError>(SystemError::EmptySystem)
            &&& positions_len > 0 && momenta_len != positions_len ==> v == Err::<(), SystemError>(
                SystemError::DimensionMismatch {
                    expected: positions_len,
                    found: momenta_len,
                    context: DimensionContext::Momenta,
                },
            )
            &&& positions_len > 0 && momenta_len == positions_len && mass_positive.len()
                != positions_len ==> v == Err::<(), SystemError>(
                SystemError::DimensionMismatch {
                    expected: positions_len,
                    found: mass_positive.len() as usize,
                    context: DimensionContext::MassMatrix,
                },
            )
            &&& forall|i: int|
                positions_len > 0 && momenta_len == positions_len && mass_positive.len()
                    == positions_len && 0 <= i < mass_positive.len() && !#[trigger] mass_positive[i]
                    && (forall|j: int| 0 <= j < i ==> mass_positive[j]) ==> v == Err::<
                    (),
                    SystemError,
                >(SystemError::NonPositiveMass { index: i as usize })
            &&& positions_len > 0 && momenta_len == positions_len && mass_positive.len()
                == positions_len && (forall|i: int|
                0 <= i < mass_positive.len() ==> #[trigger] mass_positive[i]) && !dt_positive
                ==> v == Err::<(), SystemError>(SystemError::NonPositiveTimeStep)
        }),
{
    let v = system_verdict(positions_len as nat, momenta_len as nat, mass_positive, dt_positive);
    assert forall|i: int|
        positions_len > 0 && momenta_len == positions_len && mass_positive.len() == positions_len
            && 0 <= i < mass_positive.len() && !#[trigger] mass_positive[i] && (forall|j: int|
            0 <= j < i ==> mass_positive[j]) implies v == Err::<(), SystemError>(
        SystemError::NonPositiveMass { index: i as usize },
    ) by {
        lemma_first_false_at(mass_positive, i as nat);
    }
    if forall|i: int| 0 <= i < mass_positive.len() ==> #[trigger] mass_positive[i] {
        lemma_first_false_at(mass_positive, mass_positive.len());
    } else {
        let i = choose|i: int| 0 <= i < mass_positive.len() && !mass_positive[i];
        lemma_first_false_some(mass_positive, i);
    }
}

/// Check the shape of a system: `positions_len` positions, `momenta_len`
/// momenta, one entry of `mass_positive` per mass, telling whether it is
/// positive, and whether the time step is positive.
pub fn validate_system(
    positions_len: usize,
    momenta_len: usize,
    mass_positive: &[bool],
    dt_positive: bool,
) -> (verdict: Result<(), SystemError>)
    ensures
        verdict == system_verdict(
            positions_len as nat,
            momenta_len as nat,
            mass_positive@,
            dt_positive,
        ),
        verdict is Ok <==> (positions_len > 0 && momenta_len == positions_len
            && mass_positive@.len() == positions_len && (forall|i: int|
            0 <= i < mass_positive@.len() ==> #[trigger] mass_positive@[i]) && dt_positive),
        positions_len == 0 ==> verdict == Err::<(), SystemError>(SystemError::EmptySystem),
        positions_len > 0 && momenta_len != positions_len ==> verdict == Err::<(), SystemError>(
            SystemError::DimensionMismatch {
                expected: positions_len,
                found: momenta_len,
                context: DimensionContext::Momenta,
            },
        ),
        positions_len > 0 && momenta_len == positions_len && mass_positive@.len() != positions_len
            ==> verdict == Err::<(), SystemError>(
            SystemError::DimensionMismatch {
                expected: positions_len,
                found: mass_positive@.len() as usize,
                context: DimensionContext::MassMatrix,
            },
        ),
        forall|i: int|
            positions_len > 0 && momenta_len == positions_len && mass_positive@.len()
                == positions_len && 0 <= i < mass_positive@.len() && !#[trigger] mass_positive@[i]
                && (forall|j: int| 0 <= j < i ==> mass_positive@[j]) ==> verdict == Err::<
                (),
                SystemError,
            >(SystemError::NonPositiveMass { index: i as usize }),
        positions_len > 0 && momenta_len == positions_len && mass_positive@.len() == positions_len
            && (forall|i: int| 0 <= i < mass_positive@.len() ==> #[trigger] mass_positive@[i])
            && !dt_positive ==> verdict == Err::<(), SystemError>(SystemError::NonPositiveTimeStep),
{
    let mass_len = mass_positive.len();
    proof {
        lemma_system_verdict(positions_len, momenta_len, mass_positive@, dt_positive);
    }
    let n = positions_len;
    if n == 0 {
        return Err(SystemError::EmptySystem);
    }
    if momenta_len != n {
        return Err(
            SystemError::DimensionMismatch {
                expected: n,
                found: momenta_len,
                context: DimensionContext::Momenta,
            },
        );
    }
    if mass_len != n {
        return Err(
            SystemError::DimensionMismatch {
                expected: n,
                found: mass_len,
                context: DimensionContext::MassMatrix,
            },
        );
    }
    let mut i: usize = 0;
    while i < mass_positive.len()
        invariant
            i <= mass_positive@.len(),
            n == positions_len,
            n > 0,
            momenta_len == n,
            mass_positive@.len() == n,
            forall|j: int| 0 <= j < i ==> #[trigger] mass_positive@[j],
        decreases mass_positive@.len() - i,
    {
        if !mass_positive[i] {
            proof {
                lemma_first_false_at(mass_positive@, i as nat);
            }
            return Err(SystemError::NonPositiveMass { index: i });
        }
        i = i + 1;
    }
    proof {
        lemma_first_false_at(mass_positive@, i as nat);
    }
    if !dt_positive {
        return Err(SystemError::NonPositiveTimeStep);
    }
    Ok(())
}

} // verus!
