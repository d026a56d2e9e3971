//! Virtual display (VKMS) devices described as configfs trees.
//!
//! The library holds the device model, the wire encoding of its attributes, the
//! ordered plan of filesystem operations that materializes a device, the loader
//! that rebuilds a device from a snapshot of its tree, and the removal plan.
//! Executing the operations and reading the disk is left to the caller.

pub mod attr;
pub mod cli;
pub mod config;
pub mod integrity;
pub mod load;
pub mod model;
pub mod plan;
pub mod remove;
pub mod roundtrip;

pub use cli::{Args, Commands};
pub use config::{create_vkms_device, create_vkms_device_builder, ConfigError, DeviceDescription};
pub use load::{list_vkms_devices, DeviceTree, LoadError};
pub use model::{
    ConnectorConfig, ConnectorStatus, CrtcConfig, EncoderConfig, PlaneConfig, PlaneKind,
    VkmsDeviceBuilder,
};
pub use plan::{join_path, FsOp};
pub use remove::{removal_order, EntryKind, TreeEntry};
