//! Live GPU/CPU allocation dashboard for the nodes of a compute cluster:
//! resource-descriptor parsing, per-node aggregation, filtering and
//! partition grouping of display rows, scroll bounds, and the decisions of
//! the refresh/input loop.
pub mod descriptor;
pub mod node;
pub mod view;
pub mod scroll;
pub mod dashboard;
