//! The global 2D camera.

use bevy::camera::Camera2d;
use bevy::ecs::system::Commands;
use vstd::prelude::*;

verus! {

#[verifier::external_type_specification]
#[verifier::external_body]
pub struct ExCommands<'w, 's>(Commands<'w, 's>);

/// Relies on bevy's `Commands::spawn`: it queues the spawn of one entity that
/// holds a default `Camera2d`.
#[verifier::external_body]
fn spawn_camera_2d(commands: &mut Commands) {
    commands.spawn(Camera2d);
}

/// Spawns the global 2D camera, which persists across every screen.
pub fn setup_camera(mut commands: Commands) {
    spawn_camera_2d(&mut commands);
}

} // verus!
