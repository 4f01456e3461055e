//! Host-side library for the PicoROM flash-emulator device.
//!
//! The library covers the byte-exact packet protocol spoken by a device
//! running its application firmware, the mask-ROM bootloader command
//! protocol used to erase and rewrite flash, a parser for block-container
//! and raw firmware images, a planner that turns a sparse image into a
//! minimal sequence of sector erases and page writes, and the device-mode
//! state machine that re-locates a device across a mode-changing reboot.
//!
//! All protocol decisions are pure functions over plain values; the
//! surrounding transport (USB transfers, deadlines, retries) hands bytes
//! and events in and carries actions out.

pub mod boot;
pub mod client;
pub mod device;
pub mod embedded;
pub mod flash;
pub mod hex;
pub mod image;
pub mod packet;
pub mod plan;
pub mod rom_size;
