//! Verified ARM9 BIOS services of the Nintendo DS: integer arithmetic,
//! CRC-16, the delta and run-length decoders, memory set/copy, and the
//! decisions of the interrupt and software-interrupt handlers.
#![allow(non_snake_case)]

pub mod crc;
pub mod data;
pub mod default_irq_handler;
pub mod decompress;
pub mod math;
pub mod memory;
pub mod misc;
pub mod swi;
pub mod vectors;
