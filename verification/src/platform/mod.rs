//! The platform boundary: what is decided about devices, mounts and media
//! errors, one module per platform. The probing itself (ioctls, procfs, sysfs)
//! is the driver's; it hands the findings over as plain values.

pub mod fallback;
pub mod linux;
pub mod macos;
