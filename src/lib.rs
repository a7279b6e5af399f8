//! An adapter that runs a block-based dataflow audio engine for hosts that pull audio one frame at
//! a time, exchanges typed messages with it and keeps track of its graphs.
pub mod audioloop;
pub mod message;
pub mod context;
pub mod graph;
pub mod object;
pub mod text;
