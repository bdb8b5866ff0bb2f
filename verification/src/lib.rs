//! Block devices and their mountpoints.
//!
//! The kernel names each block device in several symlink indexes under
//! `/dev/disk`, one for each attribute of a device, and lists what is
//! mounted in `/proc/mounts`. This library puts the indexes together, one
//! record for each device node ([`BlockDevice::list`]), resolves one device
//! ([`BlockDevice::from_path`]), and reads the mount table
//! ([`Mount::list`]). It does no reading of its own: its functions take
//! what was read, as plain values.
pub mod blockdevs;
pub mod error;
pub mod laws;
pub mod mountpoints;
pub mod numbers;
pub mod populate;
pub mod reconcile;
pub mod scan;
pub mod symlinks;
pub mod sysfs;
pub mod text;

pub use blockdevs::BlockDevice;
pub use error::LsblkError;
pub use mountpoints::Mount;
pub use populate::Populate;
pub use symlinks::DirListing;
pub use symlinks::DirRead;
pub use symlinks::EntryRead;
pub use symlinks::LinkRead;
pub use symlinks::Slot;
