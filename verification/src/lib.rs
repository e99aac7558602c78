//! An archetype-based entity-component-system core whose dispatcher picks, at
//! every scheduling decision of a tick, a maximum set of mutually compatible
//! systems to run side by side.

pub mod archetype;
pub mod archetypes;
pub mod buffer;
pub mod clique;
pub mod component;
pub mod entity;
pub mod dispatcher;
pub mod filter;
pub mod maximal;
pub mod pack;
pub mod prw_lock;
pub mod query;
pub mod system;
pub mod system_set;
pub mod turns;
pub mod type_key;
pub mod world;
