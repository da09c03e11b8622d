//! Verified core of the Mittens engine: data contracts, allocators, grid
//! rasterisation, scene-graph queries, humanoid slot maps, the retargeting
//! basis registry, skin and combined-mesh bookkeeping and frame-timing
//! bookkeeping.

pub mod deformation;
pub mod text;
pub mod vr_perf;
pub mod ids;
pub mod grid;
pub mod grid_gesture;
pub mod components;
pub mod world;
pub mod query;
pub mod grid_system;
pub mod draggable;
pub mod skinned_mesh;
pub mod rest_attachment;
pub mod amplitude;
pub mod avatar_hand;
pub mod humanoid;
pub mod humanoid_map;
pub mod id_map;
pub mod joint_basis;
pub mod planar_transparency;
pub mod implicit_mesh;
pub mod bounds_markers;
pub mod combine_mesh;
pub mod eye_packets;
pub mod gesture;
pub mod combine_plan;
pub mod eye_frames;
pub mod implicit_plan;
pub mod humanoid_camera;
pub mod drag_gestures;
pub mod mesh_bounds;
pub mod deformation_checks;
pub mod transform_kinds;
pub mod scene_search;
pub mod humanoid_explicit;
pub mod implicit_fingerprint;
pub mod bone_map_registry;
