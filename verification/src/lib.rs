//! Program traces reconstructed from processor trace data: how they are
//! built up call by call, filtered, summarised, and turned into the packets
//! of a Perfetto timeline.
pub mod analysis;
pub mod perfetto;
pub mod text;
pub mod trace;
