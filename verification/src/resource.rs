//! Archives, the partitions layered from them, and the graph of mounted partitions.

pub mod package_builder;
pub mod partition_manager;
pub mod pdefs;
pub mod read_back;
pub mod reference_flags;
pub mod resource_info;
pub mod resource_package;
pub mod resource_partition;
pub mod round_trip;
pub mod runtime_resource_id;
