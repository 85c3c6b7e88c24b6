//! Client-side logic for a hypervisor key/value store reached through a
//! platform control device: wire payloads, control codes, device discovery
//! decisions and watch session lifecycle.
pub mod codec;
pub mod ioctl;
pub mod locator;
pub mod watch;
