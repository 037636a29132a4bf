//! Verified core of a LAN file-drop service: PIN tokens and lockouts, transfer
//! offers, browser sessions, filename sanitising and the small text formats the
//! daemon, the tray and the CLI exchange.

pub mod text;
pub mod crypto;
pub mod auth;
pub mod table;
pub mod sessions;
pub mod config;
pub mod offers;
pub mod net;
pub mod page;
pub mod tunnel;
pub mod popover;
pub mod qr;
pub mod tray;
pub mod discovery;
pub mod send;
pub mod server;
