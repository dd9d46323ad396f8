use vstd::prelude::*;

pub mod asset_id;
pub mod registry;
pub mod handles;
pub mod asset_manager;
pub mod batching;
pub mod draw_plan;
pub mod text;
pub mod dispatch;
pub mod tools;
pub mod form;
pub mod input;
pub mod chunk;
pub mod physics;
pub mod sdf;
pub mod damage;
pub mod placement;
pub mod font;
pub mod jobs;
pub mod components;
pub mod keys;
pub mod window;
pub mod scene;

verus! {
}
