pub mod record_point;
pub mod version_info;
