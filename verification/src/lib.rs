//! Stack-usage diagnosis for embedded firmware images.
//!
//! The library has three parts: a disassembly index built from a textual
//! instruction listing (`asm_parsing`), a noise-tolerant scanner that
//! reconstructs which stack bytes were overwritten from a painted sentinel
//! pattern, and a deduplicating snapshot recorder with percentile statistics
//! (`mem_monitoring`).

pub mod asm_parsing;
pub mod mem_monitoring;
