//! A store of background job runs: their lifecycle, their accumulated
//! output, and keyset pagination over their identities.

pub mod laws;
pub mod query;
pub mod run;
pub mod store;
pub mod text;
