//! # Constraint Hamiltonian Dynamics
//!
//! The exact, integer side of a library for symplectic integration of
//! constrained Hamiltonian systems: the shape checks a system must pass, the
//! integration methods on offer, the index and header layout of recorded
//! phase portraits, and the Standard MIDI File export of trajectories,
//! including its variable-length quantities.
pub mod integrator;
pub mod midi;
pub mod phase;
pub mod system;
pub mod vlq;

pub use integrator::IntegrationMethod;
pub use midi::{
    export_midi, sort_events_by_time, trajectory_note_events, MidiEvent, MidiExportError, NotePoint,
};
pub use phase::{csv_header, sample_every};
pub use system::{validate_system, DimensionContext, SystemError};
pub use vlq::write_variable_length;
