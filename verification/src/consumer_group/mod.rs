//! Consumer-group synchronisation: the group model, the assignment wire
//! format, and the SyncGroup decisions of leader and followers.
pub mod group;
pub mod assignment;
pub mod sync_validation;
pub mod sync_response;
pub mod sync_leader;
pub mod sync_follower;
