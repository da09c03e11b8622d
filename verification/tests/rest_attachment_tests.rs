use mittens::components::{Component, ComponentRef, GltfComponent, TransformComponent};
use mittens::ids::ComponentId;
use mittens::rest_attachment::{find_descendant_gltf, is_at_or_above, resolve_rest_attachment, RestAttachmentNodes};
use mittens::world::World;

fn node(world: &mut World, parent: ComponentId, name: &str) -> ComponentId {
    let id = world.add_component_named(name, Component::Transform(TransformComponent::new()));
    world.add_child(parent, id).unwrap();
    id
}

fn query(s: &str) -> ComponentRef {
    ComponentRef::Query(s.to_string())
}

#[test]
fn the_imported_scene_is_found_beneath_a_node() {
    let mut world = World::new();
    let root = world.add_component(Component::Transform(TransformComponent::new()));
    let holder = node(&mut world, root, "holder");
    assert_eq!(find_descendant_gltf(&world, root), None);
    let gltf = world.add_component(Component::Gltf(GltfComponent::new()));
    world.add_child(holder, gltf).unwrap();
    assert_eq!(find_descendant_gltf(&world, root), Some(gltf));
    assert_eq!(find_descendant_gltf(&world, gltf), Some(gltf));
}

#[test]
fn rest_attachment_resolves_among_the_imported_nodes() {
    let mut world = World::new();
    let gltf = world.add_component(Component::Gltf(GltfComponent::new()));
    let hand = node(&mut world, gltf, "hand");
    let socket = node(&mut world, hand, "socket");
    let elsewhere = node(&mut world, gltf, "elsewhere");
    let anchor = query("#hand");
    let target = query("#socket");

    assert_eq!(resolve_rest_attachment(&world, gltf, &anchor, &target), Ok(None));
    assert!(world.set_component(
        gltf,
        Component::Gltf(GltfComponent { spawned_node_transforms: vec![hand, socket, elsewhere], ..GltfComponent::new() })
    ));
    assert_eq!(
        resolve_rest_attachment(&world, gltf, &anchor, &target),
        Ok(Some(RestAttachmentNodes { anchor: hand, target: socket }))
    );
    assert_eq!(
        resolve_rest_attachment(&world, gltf, &anchor, &query("#elsewhere")),
        Err("rest attachment target is not beneath its anchor".to_string())
    );
    assert_eq!(
        resolve_rest_attachment(&world, gltf, &query("#missing"), &target),
        Err("rest attachment reference #missing matched 0 imported nodes (expected exactly one)".to_string())
    );
    assert_eq!(
        resolve_rest_attachment(&world, hand, &anchor, &target),
        Err("rest attachment owner is not a GLTF".to_string())
    );
    let guid = world.guid(socket).unwrap();
    assert_eq!(
        resolve_rest_attachment(&world, gltf, &anchor, &ComponentRef::Guid(guid)),
        Ok(Some(RestAttachmentNodes { anchor: hand, target: socket }))
    );
    assert!(is_at_or_above(&world, hand, hand));
    assert!(is_at_or_above(&world, gltf, socket));
    assert!(!is_at_or_above(&world, socket, hand));
}

use mittens::avatar_hand::{resolve_avatar_hand_nodes, resolve_avatar_palm_nodes, AvatarHandNodes, AvatarPalmNodes};

#[test]
fn avatar_hand_nodes_resolve_among_spawned_nodes() {
    let mut world = World::new();
    let model = world.add_component(Component::Transform(TransformComponent::new()));
    let finger = [query("#root"), query("#middle"), query("#tip")];
    assert_eq!(
        resolve_avatar_hand_nodes(&world, model, &finger, None, None),
        Err("avatar GLTF was not found".to_string())
    );
    let gltf = world.add_component(Component::Gltf(GltfComponent::new()));
    world.add_child(model, gltf).unwrap();
    assert_eq!(resolve_avatar_hand_nodes(&world, model, &finger, None, None), Ok(None));
    let hand = node(&mut world, gltf, "hand");
    let root = node(&mut world, hand, "root");
    let middle = node(&mut world, root, "middle");
    let tip = node(&mut world, middle, "tip");
    let thumb = node(&mut world, hand, "thumb");
    let index = node(&mut world, hand, "index");
    let little = node(&mut world, hand, "little");
    assert!(world.set_component(
        gltf,
        Component::Gltf(GltfComponent {
            spawned_node_transforms: vec![hand, root, middle, tip, thumb, index, little],
            ..GltfComponent::new()
        })
    ));
    assert_eq!(
        resolve_avatar_hand_nodes(&world, model, &finger, Some(&query("#thumb")), Some(&[query("#index"), query("#little")])),
        Ok(Some(AvatarHandNodes { finger: [root, middle, tip], hand_up: Some(thumb), palm_width: Some([index, little]) }))
    );
    assert_eq!(
        resolve_avatar_hand_nodes(&world, model, &[query("#root"), query("#nail"), query("#tip")], None, None),
        Err("finger selector #nail matched 0 avatar nodes (expected exactly one)".to_string())
    );
    assert_eq!(
        resolve_avatar_palm_nodes(&world, model, &finger, &query("#thumb"), &[query("#index"), query("#little")]),
        Ok(Some(AvatarPalmNodes { finger: [root, middle, tip], thumb_root: thumb, palm: [index, little] }))
    );
    assert_eq!(
        resolve_avatar_palm_nodes(&world, model, &finger, &query("#wrist"), &[query("#index"), query("#little")]),
        Err("palm diagnostic selector #wrist matched 0 avatar nodes (expected exactly one)".to_string())
    );
}
