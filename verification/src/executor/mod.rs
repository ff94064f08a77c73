pub mod verify;
pub mod rollback;
pub mod run;

pub use rollback::{analyze_operation_recovery, RecoveryAction};
pub use verify::{verify_copy, VerificationError};
pub use run::ExecutionOptions;
