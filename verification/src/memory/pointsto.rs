//! Alias answers and the identity of the locations that are asked about.

use std::cmp::Ordering;

use crate::collections::Key;
use crate::concurrency::blocking::{CondVarId, LockGuardId};
use crate::concurrency::channel::ChannelId;
use crate::config::AliasUnknownPolicy;
use crate::text::{decimal, decimal_text, index_text};
use crate::translate::mir::{
    find_first_field, find_last_constant_index, first_field, has_dynamic_index,
    indexes_dynamically, last_constant_index, InstanceId, Local, Place,
};
use vstd::prelude::*;

verus! {

/// How likely two locations alias. The Petri-net translation turns an answer
/// into arcs through [`ApproximateAliasKind::may_alias`].
#[derive(Copy, Clone, Debug, PartialEq, Eq, Structural)]
pub enum ApproximateAliasKind {
    Probably,
    Possibly,
    Unlikely,
    Unknown,
}

impl ApproximateAliasKind {
    /// The position in the order, from unknown up to probable.
    pub open spec fn rank(self) -> int {
        match self {
            ApproximateAliasKind::Probably => 3,
            ApproximateAliasKind::Possibly => 2,
            ApproximateAliasKind::Unlikely => 1,
            ApproximateAliasKind::Unknown => 0,
        }
    }

    /// The answer adds arcs under the policy.
    pub open spec fn adds_arcs(self, policy: AliasUnknownPolicy) -> bool {
        match self {
            ApproximateAliasKind::Probably | ApproximateAliasKind::Possibly => true,
            ApproximateAliasKind::Unlikely => false,
            ApproximateAliasKind::Unknown => policy == AliasUnknownPolicy::Conservative,
        }
    }

    /// Whether this answer adds arcs under the configured treatment of unknown
    /// answers.
    pub fn may_alias(self, policy: AliasUnknownPolicy) -> (b: bool)
        ensures
            b == self.adds_arcs(policy),
    {
        match self {
            ApproximateAliasKind::Probably | ApproximateAliasKind::Possibly => true,
            ApproximateAliasKind::Unlikely => false,
            ApproximateAliasKind::Unknown => matches!(policy, AliasUnknownPolicy::Conservative),
        }
    }
}

/// How two ranks compare.
pub open spec fn rank_order(a: int, b: int) -> Ordering {
    if a == b {
        Ordering::Equal
    } else if a > b {
        Ordering::Greater
    } else {
        Ordering::Less
    }
}

impl PartialOrd for ApproximateAliasKind {
    fn partial_cmp(&self, other: &Self) -> (r: Option<Ordering>) {
        match (*self, *other) {
            (ApproximateAliasKind::Probably, ApproximateAliasKind::Probably)
            | (ApproximateAliasKind::Possibly, ApproximateAliasKind::Possibly)
            | (ApproximateAliasKind::Unlikely, ApproximateAliasKind::Unlikely)
            | (ApproximateAliasKind::Unknown, ApproximateAliasKind::Unknown) => {
                Some(Ordering::Equal)
            },
            (ApproximateAliasKind::Probably, _)
            | (ApproximateAliasKind::Possibly, ApproximateAliasKind::Unlikely)
            | (ApproximateAliasKind::Possibly, ApproximateAliasKind::Unknown)
            | (ApproximateAliasKind::Unlikely, ApproximateAliasKind::Unknown) => {
                Some(Ordering::Greater)
            },
            (_, ApproximateAliasKind::Probably)
            | (ApproximateAliasKind::Unlikely, ApproximateAliasKind::Possibly)
            | (ApproximateAliasKind::Unknown, ApproximateAliasKind::Possibly)
            | (ApproximateAliasKind::Unknown, ApproximateAliasKind::Unlikely) => {
                Some(Ordering::Less)
            },
        }
    }
}

impl vstd::std_specs::cmp::PartialOrdSpecImpl for ApproximateAliasKind {
    open spec fn obeys_partial_cmp_spec() -> bool {
        true
    }

    open spec fn partial_cmp_spec(&self, other: &Self) -> Option<Ordering> {
        Some(rank_order(self.rank(), other.rank()))
    }
}

/// A location: a local of an instance, with an optional constant array index
/// and an optional field.
#[derive(Clone, Copy, Debug, PartialEq, Eq, Hash, Structural)]
pub struct AliasId {
    pub instance_id: InstanceId,
    pub local: Local,
    /// A constant index tells `arr[0]` from `arr[1]`; `None` for a dynamic
    /// index or no array.
    pub array_index: Option<u64>,
    /// The field index tells fields of one struct apart; `None` for no field.
    pub field: Option<u32>,
}

impl Key for AliasId {
    fn same(&self, other: &Self) -> (b: bool) {
        self.instance_id == other.instance_id && self.local == other.local && same_index(
            self.array_index,
            other.array_index,
        ) && same_field(self.field, other.field)
    }
}

/// Whether two optional array indices are equal.
pub fn same_index(a: Option<u64>, b: Option<u64>) -> (r: bool)
    ensures
        r == (a == b),
{
    match (a, b) {
        (Some(x), Some(y)) => x == y,
        (None, None) => true,
        _ => false,
    }
}

/// Whether two optional field indices are equal.
pub fn same_field(a: Option<u32>, b: Option<u32>) -> (r: bool)
    ensures
        r == (a == b),
{
    match (a, b) {
        (Some(x), Some(y)) => x == y,
        (None, None) => true,
        _ => false,
    }
}

/// What is printed for an optional number.
pub open spec fn option_text(n: Option<nat>) -> Seq<char> {
    match n {
        Some(v) => "Some("@ + decimal(v) + ")"@,
        None => "None"@,
    }
}

/// The printed form of an optional number.
fn option_number_text(n: Option<u64>) -> (r: String)
    ensures
        r@ == option_text(
            match n {
                Some(v) => Some(v as nat),
                None => None,
            },
        ),
{
    match n {
        Some(v) => "Some(".to_owned().concat(decimal_text(v).as_str()).concat(")"),
        None => "None".to_owned(),
    }
}

impl AliasId {
    /// The local itself.
    pub open spec fn plain(instance_id: InstanceId, local: Local) -> AliasId {
        AliasId { instance_id, local, array_index: None, field: None }
    }

    /// The location of a place: a dynamic index merges all elements, otherwise
    /// the last constant index counts; the first field counts.
    pub open spec fn of_place(instance_id: InstanceId, place: Place) -> AliasId {
        AliasId {
            instance_id,
            local: place.local,
            array_index: if has_dynamic_index(place.projection@) {
                None
            } else {
                last_constant_index(place.projection@)
            },
            field: first_field(place.projection@),
        }
    }

    /// The location of a local.
    pub fn new(instance_id: InstanceId, local: Local) -> (r: Self)
        ensures
            r == AliasId::plain(instance_id, local),
    {
        AliasId { instance_id, local, array_index: None, field: None }
    }

    /// The location of a place, telling constant array elements and fields
    /// apart.
    pub fn from_place(instance_id: InstanceId, place: &Place) -> (r: Self)
        ensures
            r == AliasId::of_place(instance_id, *place),
    {
        let array_index = if indexes_dynamically(&place.projection) {
            None
        } else {
            find_last_constant_index(&place.projection)
        };
        let field = find_first_field(&place.projection);
        AliasId { instance_id, local: place.local, array_index, field }
    }

    /// The printed form.
    pub open spec fn debug(self) -> Seq<char> {
        "AliasId { instance_id: NodeIndex("@ + decimal(self.instance_id as nat) + "), local: _"@
            + decimal(self.local as nat) + ", array_index: "@ + option_text(
            match self.array_index {
                Some(v) => Some(v as nat),
                None => None,
            },
        ) + ", field: "@ + option_text(
            match self.field {
                Some(v) => Some(v as nat),
                None => None,
            },
        ) + " }"@
    }

    /// The printed form.
    pub fn debug_text(&self) -> (r: String)
        ensures
            r@ == self.debug(),
    {
        let field: Option<u64> = match self.field {
            Some(v) => Some(v as u64),
            None => None,
        };
        "AliasId { instance_id: NodeIndex(".to_owned().concat(
            index_text(self.instance_id).as_str(),
        ).concat("), local: _").concat(index_text(self.local).as_str()).concat(
            ", array_index: ",
        ).concat(option_number_text(self.array_index).as_str()).concat(", field: ").concat(
            option_number_text(field).as_str(),
        ).concat(" }")
    }
}

impl From<LockGuardId> for AliasId {
    fn from(lockguard_id: LockGuardId) -> (r: Self) {
        AliasId {
            instance_id: lockguard_id.instance_id,
            local: lockguard_id.local,
            array_index: None,
            field: lockguard_id.field,
        }
    }
}

impl vstd::std_specs::convert::FromSpecImpl<LockGuardId> for AliasId {
    open spec fn obeys_from_spec() -> bool {
        true
    }

    open spec fn from_spec(lockguard_id: LockGuardId) -> AliasId {
        lockguard_id.alias()
    }
}

impl From<CondVarId> for AliasId {
    fn from(condvar_id: CondVarId) -> (r: Self) {
        AliasId {
            instance_id: condvar_id.instance_id,
            local: condvar_id.local,
            array_index: None,
            field: None,
        }
    }
}

impl vstd::std_specs::convert::FromSpecImpl<CondVarId> for AliasId {
    open spec fn obeys_from_spec() -> bool {
        true
    }

    open spec fn from_spec(condvar_id: CondVarId) -> AliasId {
        AliasId::plain(condvar_id.instance_id, condvar_id.local)
    }
}

impl From<ChannelId> for AliasId {
    fn from(channel_id: ChannelId) -> (r: Self) {
        AliasId {
            instance_id: channel_id.instance_id,
            local: channel_id.local,
            array_index: None,
            field: None,
        }
    }
}

impl vstd::std_specs::convert::FromSpecImpl<ChannelId> for AliasId {
    open spec fn obeys_from_spec() -> bool {
        true
    }

    open spec fn from_spec(channel_id: ChannelId) -> AliasId {
        AliasId::plain(channel_id.instance_id, channel_id.local)
    }
}

/// The answers are totally ordered, from unknown over unlikely and possible to
/// probable.
pub proof fn alias_kinds_totally_ordered(
    a: ApproximateAliasKind,
    b: ApproximateAliasKind,
    c: ApproximateAliasKind,
)
    ensures
        rank_order(a.rank(), b.rank()) == Ordering::Equal <==> a == b,
        rank_order(a.rank(), b.rank()) == Ordering::Less <==> rank_order(b.rank(), a.rank())
            == Ordering::Greater,
        rank_order(a.rank(), b.rank()) == Ordering::Less && rank_order(b.rank(), c.rank())
            == Ordering::Less ==> rank_order(a.rank(), c.rank()) == Ordering::Less,
{
}

/// The conservative policy adds every arc that the optimistic one adds, and
/// the two differ on unknown answers only.
pub proof fn conservative_policy_adds_more(kind: ApproximateAliasKind)
    ensures
        kind.adds_arcs(AliasUnknownPolicy::Optimistic) ==> kind.adds_arcs(
            AliasUnknownPolicy::Conservative,
        ),
        kind.adds_arcs(AliasUnknownPolicy::Optimistic) != kind.adds_arcs(
            AliasUnknownPolicy::Conservative,
        ) <==> kind == ApproximateAliasKind::Unknown,
{
}

/// Two constant elements of one array are different locations, and so are two
/// fields of one local.
pub proof fn places_told_apart(instance_id: InstanceId, p: Place, q: Place)
    ensures
        !has_dynamic_index(p.projection@) && !has_dynamic_index(q.projection@)
            && last_constant_index(p.projection@) != last_constant_index(q.projection@)
            ==> AliasId::of_place(instance_id, p) != AliasId::of_place(instance_id, q),
        first_field(p.projection@) != first_field(q.projection@) ==> AliasId::of_place(
            instance_id,
            p,
        ) != AliasId::of_place(instance_id, q),
{
}

} // verus!
