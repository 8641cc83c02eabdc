use conc_bug_detector::concurrency::blocking::{CondVarId, LockGuardId};
use conc_bug_detector::concurrency::channel::ChannelId;
use conc_bug_detector::config::AliasUnknownPolicy;
use conc_bug_detector::memory::pointsto::{AliasId, ApproximateAliasKind};
use conc_bug_detector::translate::mir::{Place, ProjectionElem, Ty};

fn place(local: usize, projection: Vec<ProjectionElem>) -> Place {
    Place { local, projection, ty: Ty { text: String::new(), adt: None } }
}

#[test]
fn only_unknown_depends_on_the_policy() {
    for policy in [AliasUnknownPolicy::Conservative, AliasUnknownPolicy::Optimistic] {
        assert!(ApproximateAliasKind::Probably.may_alias(policy));
        assert!(ApproximateAliasKind::Possibly.may_alias(policy));
        assert!(!ApproximateAliasKind::Unlikely.may_alias(policy));
    }
    assert!(ApproximateAliasKind::Unknown.may_alias(AliasUnknownPolicy::Conservative));
    assert!(!ApproximateAliasKind::Unknown.may_alias(AliasUnknownPolicy::Optimistic));
}

#[test]
fn kinds_are_ordered_by_likelihood() {
    let order = [
        ApproximateAliasKind::Probably,
        ApproximateAliasKind::Possibly,
        ApproximateAliasKind::Unlikely,
        ApproximateAliasKind::Unknown,
    ];
    for i in 0..4 {
        for j in 0..4 {
            assert_eq!(order[i] > order[j], i < j);
            assert_eq!(order[i] == order[j], i == j);
        }
    }
}

#[test]
fn places_keep_constant_indices_and_the_first_field() {
    let p = place(
        3,
        vec![
            ProjectionElem::Deref,
            ProjectionElem::Field(4),
            ProjectionElem::Field(5),
            ProjectionElem::ConstantIndex { offset: 7 },
        ],
    );
    assert_eq!(
        AliasId::from_place(1, &p),
        AliasId { instance_id: 1, local: 3, array_index: Some(7), field: Some(4) }
    );
    let dynamic = place(
        3,
        vec![ProjectionElem::ConstantIndex { offset: 7 }, ProjectionElem::Index(2)],
    );
    assert_eq!(AliasId::from_place(1, &dynamic), AliasId::new(1, 3));
}

#[test]
fn handles_are_locations() {
    assert_eq!(
        AliasId::from(LockGuardId::new(1, 2)),
        AliasId { instance_id: 1, local: 2, array_index: None, field: None }
    );
    assert_eq!(AliasId::from(CondVarId::new(1, 2)), AliasId::new(1, 2));
    assert_eq!(AliasId::from(ChannelId { instance_id: 5, local: 6 }), AliasId::new(5, 6));
}
