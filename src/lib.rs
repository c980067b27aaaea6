//! XMODEM and YMODEM file transfer over a byte channel.
//!
//! The engines in [`xmodem`] and [`ymodem`] drive the protocols through the
//! [`xymodem_util::Channel`] trait; framing, verification and the per-event
//! decisions of each state machine live in [`packet`] and carry exact contracts.
pub mod xymodem_util;
pub mod packet;
pub mod header;
pub mod exchange;
pub mod xmodem;
pub mod ymodem;
