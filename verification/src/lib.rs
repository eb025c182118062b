//! Network time synchronisation: a server hands out its wall-clock reading,
//! a client brackets the exchange with two local readings and estimates the
//! offset between the two clocks and the round-trip time.
//!
//! A clock reading is held in fixed point, as whole nanoseconds since the
//! epoch, and the estimator's formulas are exact integer arithmetic. On the
//! wire a reading is what the protocol asks for: decimal text in a response
//! header, and in a datagram the little-endian binary64 of seconds that is
//! nearest to it. A server's time is kept as it came, bit for bit where it
//! came as a binary64, and is shown digit for digit whatever its size. No
//! floating-point unit is used anywhere: what is needed of the arithmetic of
//! binary64 is worked in integers and proved against its definition.
//!
//! The library decides and computes; it does no input or output but to read
//! the clock. The loops that wait on a transport belong to the program
//! around it, which hands each event to [`session::Session`],
//! [`acceptor::Acceptor`] or [`exchange::Exchange`] and does what it is told.
//! What is taken on trust of other code stands in [`outside`].

pub mod acceptor;
pub mod big;
pub mod binary64;
pub mod clock;
pub mod decimal;
pub mod error;
pub mod estimator;
pub mod exchange;
pub mod fingerprint;
pub mod http;
pub mod nearest;
pub mod outside;
pub mod report;
pub mod session;
pub mod url;
pub mod wire;
