//! A read-only reader for single-file page databases: record decoding and a
//! small `SELECT` evaluator over the decoded rows.

use vstd::prelude::*;

pub mod engine;
pub mod error;
pub mod page;
pub mod query;
pub mod schema;
pub mod serial;
pub mod text;
pub mod varint;
