//! What goes over the wire.

pub mod pb;
