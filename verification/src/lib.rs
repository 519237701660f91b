//! A verified core for an interactive hydrometric-station client.
//!
//! The library holds everything the client decides or computes: the data
//! model for stations and flow readings, the verified canonical codec for
//! the two envelope shapes, the case-insensitive station search, the
//! selection and interaction state machine, the date arithmetic and URL
//! builders, and the presenter.  The surrounding binary only performs
//! terminal and network I/O, reads the API's JSON leniently through serde,
//! and hands the results to these functions as plain values.

pub mod chars;
pub mod codec;
pub mod data;
pub mod dates;
pub mod flow;
pub mod numbers;
pub mod present;
pub mod search;
pub mod session;
pub mod url;
