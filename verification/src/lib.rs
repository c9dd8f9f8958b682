//! Enumeration of adapter chains between threaded endpoints.
//!
//! An inventory of bidirectional adapter pieces, each joining two gendered
//! threads, can be composed end-to-end to bridge a start endpoint to an end
//! endpoint.  `search::make_chain` enumerates every such composition that uses
//! each piece at most once, and `analysis::find_useful_additions` scores
//! hypothetical new pieces by how many previously unreachable endpoint pairs
//! they newly connect.

pub mod analysis;
pub mod chain;
pub mod search;
pub mod model;
