//! Boots a simulated packet-switched network.
//!
//! A declared network is validated into a [`topology::Topology`]. Every node
//! is assigned a role by [`partition`] and a constructor from the
//! [`registry`]; the outcome is an [`assignment::BootPlan`]. The [`fabric`]
//! opens the message channels of the topology, the [`builder`] adds the control
//! channels and assembles, role by role, what each constructor takes and what
//! the controller keeps. The [`lifecycle`] scripts how the actors are started
//! and joined. [`boot`] runs the steps up to the opening of the channels.
//!
//! Adjacency is directed: a node sends to the neighbors it declares, and a
//! link in both directions is declared on both sides.

pub mod assignment;
pub mod boot;
pub mod builder;
pub mod channel;
pub mod fabric;
pub mod lifecycle;
pub mod partition;
pub mod registry;
pub mod topology;
