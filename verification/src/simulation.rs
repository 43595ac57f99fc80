pub mod cluster;
pub mod fragment;
pub mod object;
pub mod state;

pub use cluster::{group_collisions_into_clusters, Cluster, Collision};
pub use fragment::clamp_fragment_count;
pub use object::{take_id, Object, ObjectKind};
pub use state::{Reentry, SimulationState};
