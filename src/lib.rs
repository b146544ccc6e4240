//! A two-tier batch job dispatcher: queues with admission, fairness and
//! priority rules that hand jobs to worker hosts ("vertices") which advertise
//! free resources, and the resource algebra that decides what fits where.
//!
//! - `nodes`, `resources`: node sets, countables, properties, requirements,
//!   providers and the acceptance of one by the other.
//! - `jobs`: job configurations and their phases.
//! - `queue`, `group`: one queue and the named queues of a dispatcher.
//! - `admin`, `control`: the dispatcher's request handling and the
//!   decisions of its control loop.
//! - `vertex`: free resources and admission on a worker host.
//! - `records`, `util`: plain records, clocks and identifiers.
pub mod nodes;
pub mod resources;
pub mod jobs;
pub mod queue;
pub mod group;
pub mod admin;
pub mod control;
pub mod vertex;
pub mod records;
pub mod util;
