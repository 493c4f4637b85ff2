//! The decisions of a wireless adapter for a handheld console's link port: the link engine
//! that exchanges 32-bit words, the login handshake, the command router, and the relay that
//! brings a remote partner's presence and data in over a byte stream.
//!
//! Nothing here does I/O. Where a pin, a UART or a USB port has to be used, the library names
//! the operation as a value, and is resumed with what the operation gave.
pub mod comms;
pub mod heartbeat;
pub mod relay;
pub mod ring;
pub mod serial_usb;
pub mod supervisor;
pub mod uart_link;
pub mod words;
