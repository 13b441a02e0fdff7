//! Core logic of a USB security key speaking CTAP2 over HID: packet framing,
//! credential storage, key material, user presence and the command dispatcher.
pub mod framing;
pub mod keys;
pub mod store;
pub mod presence;
pub mod ctap;
pub mod persist;
