//! Decoding of ROS 2 messages recorded in MCAP files: the CDR wire format,
//! the `.msg` schema language, and the time-series storage the viewer plots.
pub mod cache;
pub mod cdr_reader;
pub mod mcap_file;
pub mod decode;
pub mod schema;
pub mod storage;
pub mod tab;
pub mod text;
pub mod viewer;
pub mod widgets;

use vstd::prelude::*;

verus! {

/// An error of schema parsing or of decoding.
#[derive(Debug)]
pub enum Error {
    Schema(schema::Error),
    Decode(decode::Error),
}

} // verus!
