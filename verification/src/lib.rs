//! Core of a BLE HID keyboard's persistence stack: a log-structured
//! key-value record store over simulated NOR flash, a bounded binary codec
//! for the bonded-peer directory, the fixed-capacity peer table, and the
//! bonding coordinator that the radio stack's security callbacks drive.

pub mod adv;
pub mod bonding;
pub mod codec;
pub mod debounce;
pub mod flash;
pub mod index;
pub mod layout;
pub mod peers;
pub mod store;
