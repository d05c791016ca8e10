pub mod device;
pub mod display;
pub mod listing;
pub mod macos;
pub mod query;
pub mod record;
pub mod sort;
pub mod sysfs;
pub mod text;
pub mod topology;
mod union_find;
pub mod usb_class;
pub mod usb_ids;
