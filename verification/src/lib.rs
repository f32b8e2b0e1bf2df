//! Resolution of the mount point (volume root) that contains a filesystem
//! path.
//!
//! The library works on canonical paths represented as plain byte sequences
//! and is split into three interchangeable strategies:
//!
//! - [`device_walk`]: walks ancestor directories comparing device
//!   identifiers until a filesystem boundary is found (portable Unix).
//! - [`prefix_scan`]: scans the leading components of a Windows-style path
//!   for the drive or share prefix.
//! - [`native_stat`]: the pure halves of the native filesystem-status
//!   strategy (POSIX `statfs`), which reports the mount point directly.
//!
//! Everything that touches the operating system — canonicalization, metadata
//! reads, the native status call — is the embedding application's job; the
//! application feeds the observed values (device identifiers, the reported
//! mount point) into the verified logic here.

pub mod canon;
pub mod device_walk;
pub mod errors;
pub mod native_stat;
pub mod prefix_scan;

pub use errors::Error;
