//! A minimal static-page web server library.
//!
//! The verified core consists of three parts:
//! - `router`: the route index built from a walk of the `pages/` directory,
//!   with the URL-key formation rules;
//! - `http`: request-line parsing and HTTP/1.1 response formatting;
//! - `pool`: a transition-system model of the fixed-size worker pool,
//!   with proofs that submitted jobs are executed exactly once and that
//!   teardown leaves no worker running.
//!
//! Process glue (sockets, filesystem walk, threads) lives outside the
//! library and hands plain values in and out.

pub mod http;
pub mod pool;
pub mod router;
