//! Channel endpoints.

use crate::translate::mir::{InstanceId, Local};
use vstd::prelude::*;

verus! {

/// An endpoint of a channel: a local of an instance.
#[derive(Clone, Copy, Debug, PartialEq, Eq, Hash, Structural)]
pub struct ChannelId {
    pub instance_id: InstanceId,
    pub local: Local,
}

} // verus!
