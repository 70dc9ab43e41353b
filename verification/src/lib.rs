//! A differential tester for RESP servers: the wire format, the corpus and
//! register readers, and the rules that decide what counts as a divergence.

pub mod text;
pub mod corpus;
pub mod resp;
pub mod wire;
pub mod report;
pub mod launch;
