//! Wake-on-LAN core: MAC address parsing, magic-packet construction, and the
//! outcome reported for a triggered wake request.
pub mod mac;
pub mod packet;
pub mod service;
