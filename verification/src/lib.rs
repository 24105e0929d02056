//! Client-side-validation core: content-addressed consignment containers,
//! their validation envelope, and the state reconciliation engine that folds
//! validated consignments into per-contract persisted state.

pub mod ids;
pub mod codec;
pub mod model;
pub mod commit;
pub mod consignment;
pub mod validate;
pub mod state;
pub mod armor;
