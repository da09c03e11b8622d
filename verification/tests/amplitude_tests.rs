use mittens::amplitude::{AmplitudeSnapshot, AmplitudeSystem, MAX_PENDING_SNAPSHOTS};
use mittens::components::{AmplitudeComponent, AmplitudeSample, AmplitudeStatus, Component, ComponentRef};
use mittens::ids::ComponentId;
use mittens::world::World;

fn amplitude(world: &World, id: ComponentId) -> AmplitudeComponent {
    match world.component(id) {
        Some(Component::Amplitude(a)) => a.clone(),
        _ => panic!("amplitude component"),
    }
}

fn sample(generation: u64, sequence: u64, rms: f32) -> AmplitudeSample {
    AmplitudeSample {
        generation,
        sequence,
        timestamp_sec_bits: 1.0f64.to_bits(),
        valid_frames: 32,
        rms_bits: rms.to_bits(),
        peak_bits: 0.75f32.to_bits(),
        status: AmplitudeStatus::Live,
    }
}

#[test]
fn retains_only_current_generation_from_resolved_source() {
    let mut world = World::new();
    let source = world.add_component(Component::AudioInput);
    let source_guid = world.guid(source).unwrap();
    let observer = world.add_component(Component::Amplitude(
        AmplitudeComponent::rolling_window(0.25f32.to_bits()).unwrap().with_source(ComponentRef::Guid(source_guid)),
    ));
    let mut system = AmplitudeSystem::new();
    system.tick(&mut world);
    let generation = amplitude(&world, observer).generation;
    system.submit_snapshot(AmplitudeSnapshot { observer, source, sample: sample(generation, 1, 0.5) });
    system.tick(&mut world);
    assert_eq!(f32::from_bits(amplitude(&world, observer).retained.rms_bits), 0.5);
}

#[test]
fn stale_generation_and_older_sequences_are_ignored() {
    let mut world = World::new();
    let source = world.add_component(Component::AudioClip);
    let guid = world.guid(source).unwrap();
    let observer = world.add_component(Component::Amplitude(
        AmplitudeComponent::rolling_window(1.0f32.to_bits()).unwrap().with_source(ComponentRef::Guid(guid)),
    ));
    let mut system = AmplitudeSystem::new();
    system.tick(&mut world);
    let generation = amplitude(&world, observer).generation;
    assert_eq!(amplitude(&world, observer).retained.status, AmplitudeStatus::Pending);
    system.submit_snapshot(AmplitudeSnapshot { observer, source, sample: sample(generation + 7, 1, 0.9) });
    system.tick(&mut world);
    assert_eq!(amplitude(&world, observer).retained.status, AmplitudeStatus::Pending);
    system.submit_snapshot(AmplitudeSnapshot { observer, source, sample: sample(generation, 5, 0.25) });
    system.submit_snapshot(AmplitudeSnapshot { observer, source, sample: sample(generation, 6, 0.5) });
    system.tick(&mut world);
    assert_eq!(amplitude(&world, observer).retained.sequence, 6);
    system.submit_snapshot(AmplitudeSnapshot { observer, source, sample: sample(generation, 2, 0.125) });
    system.tick(&mut world);
    assert_eq!(amplitude(&world, observer).retained.sequence, 6);
}

#[test]
fn observer_without_a_valid_source_is_invalid() {
    let mut world = World::new();
    let not_audio = world.add_component(Component::Renderable);
    let guid = world.guid(not_audio).unwrap();
    let observer = world.add_component(Component::Amplitude(
        AmplitudeComponent::rolling_window(1.0f32.to_bits()).unwrap().with_source(ComponentRef::Guid(guid)),
    ));
    let mut system = AmplitudeSystem::new();
    system.tick(&mut world);
    let a = amplitude(&world, observer);
    assert_eq!(a.retained.status, AmplitudeStatus::Invalid);
    assert_eq!(a.generation, 0);
    assert_eq!(a.resolved_source, None);
}

#[test]
fn full_queue_drops_its_oldest_snapshot() {
    let mut system = AmplitudeSystem::new();
    let id = ComponentId { index: 0 };
    for i in 0..(MAX_PENDING_SNAPSHOTS as u64 + 3) {
        system.submit_snapshot(AmplitudeSnapshot { observer: id, source: id, sample: sample(0, i, 0.0) });
    }
    assert_eq!(system.dropped_snapshots(), 3);
    assert_eq!(system.pending.len(), MAX_PENDING_SNAPSHOTS);
    assert_eq!(system.pending.front().unwrap().sample.sequence, 3);
}

#[test]
fn rolling_window_must_be_positive_and_finite() {
    assert!(AmplitudeComponent::rolling_window(0.0f32.to_bits()).is_none());
    assert!(AmplitudeComponent::rolling_window((-1.0f32).to_bits()).is_none());
    assert!(AmplitudeComponent::rolling_window(f32::INFINITY.to_bits()).is_none());
    assert!(AmplitudeComponent::rolling_window(f32::NAN.to_bits()).is_none());
    assert!(AmplitudeComponent::rolling_window(0.25f32.to_bits()).is_some());
}

#[test]
fn silent_measurements_are_retained_but_pending_ones_are_not() {
    let mut world = World::new();
    let source = world.add_component(Component::AudioOscillator);
    let guid = world.guid(source).unwrap();
    let observer = world.add_component(Component::Amplitude(
        AmplitudeComponent::rolling_window(1.0f32.to_bits()).unwrap().with_source(ComponentRef::Guid(guid)),
    ));
    let mut system = AmplitudeSystem::new();
    system.tick(&mut world);
    let generation = amplitude(&world, observer).generation;
    let mut pending = sample(generation, 1, 0.5);
    pending.status = AmplitudeStatus::Pending;
    system.submit_snapshot(AmplitudeSnapshot { observer, source, sample: pending });
    system.tick(&mut world);
    assert_eq!(amplitude(&world, observer).retained.sequence, 0);
    let mut silent = sample(generation, 2, 0.0);
    silent.status = AmplitudeStatus::Neutral;
    system.submit_snapshot(AmplitudeSnapshot { observer, source, sample: silent });
    system.tick(&mut world);
    assert_eq!(amplitude(&world, observer).retained.status, AmplitudeStatus::Neutral);
    assert_eq!(amplitude(&world, observer).retained.sequence, 2);
}
