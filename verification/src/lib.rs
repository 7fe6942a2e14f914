//! Client-side protocol engine for a line-based, block-structured text
//! protocol spoken by video routing matrix hardware.
//!
//! The library holds the pure core: block framing, the typed message model
//! with its parse and serialize rules, the local device-state mirror, and
//! the checks of the command/acknowledgement cycle.  Socket I/O stays with
//! the caller, which hands raw response text in and sends serialized
//! command text out.

pub mod text;
pub mod video_hub;
