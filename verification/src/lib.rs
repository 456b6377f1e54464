//! The vitui rendering engine's cell-level logic: colours and style words, the one compositing
//! operator, colour quantisation, the restyle descriptor, the render packet, the wire serializer,
//! the app-thread frame-budget detector and the terminal quirk table.
#![allow(unused_imports)]

pub mod style;
pub mod tables;
pub mod caps;
pub mod quirks;
pub mod quant;
pub mod restyle;
pub mod mix;
pub mod packet;
pub mod wire;
pub mod rows;
pub mod segment;
pub mod serial;
pub mod perf;
pub mod shutdown;
pub mod reader;
