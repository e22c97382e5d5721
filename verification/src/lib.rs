//! A diagnostic UDP listener core: socket-address literals are parsed and
//! rendered, datagram payloads are encoded for a shared output stream either
//! verbatim or as lossily-decoded UTF-8 text, and the bind/forward/exit
//! decisions of the surrounding process are made here, so that they can be
//! stated and proved.

pub mod addr;
pub mod forward;
pub mod render;
pub mod resolver;
pub mod supervisor;
pub mod text;
