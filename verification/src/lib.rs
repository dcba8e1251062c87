//! An entity-component-system storage core: ordered entity indexes, component
//! collections with staged or in-place mutation, a change-merge algorithm,
//! range partitioning, and a merge-join system engine.

pub mod base64;
pub mod component;
pub mod entity;
pub mod partitioning;
pub mod system;

pub use base64::encode;
pub use component::apply_component_changes;
pub use component::ComponentChange;
pub use component::ComponentCollection;
pub use component::ComponentRef;
pub use component::cow::CopyOnWriteComponentCollection;
pub use component::cow::CopyOnWriteComponentRef;
pub use component::insert::InsertOptimizedComponentCollection;
pub use component::insert::InsertOptimizedComponentRef;
pub use component::mutable::MutableComponentCollection;
pub use component::mutable::MutableComponentRef;
pub use entity::Entity;
pub use entity::EntityMap;
pub use entity::fast_map::FastEntityMap;
pub use entity::fast_map::FastEntityMapIntoIterator;
pub use entity::fast_map::FastEntityMapIterator;
pub use entity::vec_map::VecEntityMap;
pub use partitioning::partition;
pub use partitioning::NopPartitioningScheme;
pub use partitioning::Partitioned;
pub use partitioning::PartitioningScheme;
pub use partitioning::VecPartitioningScheme;
pub use system::System;
pub use system::System2;
