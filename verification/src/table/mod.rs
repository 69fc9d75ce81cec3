//! The tables a load writes: the types of their columns, how batches fit them, and how their
//! values become what a destination stores.

pub mod again;
pub mod children;
pub mod convert;
pub mod distinct;
pub mod encoding;
pub mod evolve;
pub mod lower;
pub mod lowering;
pub mod merge;
pub mod model;
pub mod order;
pub mod plans;
pub mod prepared;
pub mod readback;
pub mod registry;
pub mod rendering;
pub mod resolve;
pub mod session;
pub mod shown;
pub mod stored;
pub mod temporal;
pub mod types;
pub mod view;
pub mod zones;
