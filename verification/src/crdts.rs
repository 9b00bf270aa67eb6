//! Replicated data types that merge without conflict.
pub mod ctx;
pub mod dot;
pub mod gcounter;
pub mod gset;
pub mod lwwreg;
pub mod mvreg;
pub mod orswot;
pub mod pncounter;
pub mod traits;
pub mod vclock;
