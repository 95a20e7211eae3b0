//! Scanning results of a disk, duplicate detection, and installed-software
//! bookkeeping, with the decisions verified.
pub mod digest;
pub mod file_scanner;
pub mod report;
pub mod software_manager;
pub mod text;
pub mod timefmt;
