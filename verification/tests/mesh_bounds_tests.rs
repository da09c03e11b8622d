use mittens::ids::ComponentId;
use mittens::mesh_bounds::{MeshBoundsSystem, MeshOutputBounds, MeshOutputKind};

#[test]
fn entries_are_replaced_replaced_and_removed_per_owner() {
    let mut system: MeshBoundsSystem<[i32; 2], u8> = MeshBoundsSystem::new();
    let a = ComponentId { index: 1 };
    let b = ComponentId { index: 2 };
    system.register_or_update(a, [-1, 1], 0, MeshOutputKind::CombineMesh);
    system.register_or_update(b, [-2, 2], 5, MeshOutputKind::ImplicitSurface);
    system.register_or_update(a, [-3, 3], 1, MeshOutputKind::CombineMesh);
    assert_eq!(system.output(a), Some(MeshOutputBounds { owner: a, local: [-3, 3], model: 1, kind: MeshOutputKind::CombineMesh }));
    assert_eq!(system.outputs().len(), 2);
    system.update_model(b, 9);
    assert_eq!(system.output(b).unwrap().model, 9);
    assert_eq!(system.output(b).unwrap().local, [-2, 2]);
    system.update_model(ComponentId { index: 7 }, 3);
    assert!(system.output(ComponentId { index: 7 }).is_none());
    system.remove(a);
    assert!(system.output(a).is_none());
    assert_eq!(system.outputs().len(), 1);
}
