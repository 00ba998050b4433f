//! Hard resource limits.

use vstd::prelude::*;

verus! {

/// Hard resource limits applied while parsing and rendering.
#[derive(Debug, Clone, Copy)]
pub struct Limits {
    /// Maximum input size in bytes.
    pub max_input_bytes: usize,
    /// Maximum JSON nesting depth, objects and arrays together.
    pub max_nesting_depth: usize,
    /// Maximum number of layers across the composition and all precomps.
    pub max_layers: usize,
    /// Maximum number of shape elements in a single layer.
    pub max_shapes_per_layer: usize,
    /// Maximum keyframes of a single animated property.
    pub max_keyframes: usize,
    /// Maximum number of assets.
    pub max_assets: usize,
    /// Maximum composition width and height, and render size in pixels.
    pub max_dimension: u32,
    /// Maximum evaluated points in one frame.
    pub max_render_points: usize,
    /// Maximum work units in one frame.
    pub max_render_work: usize,
    /// Maximum expanded layers in one frame.
    pub max_precomp_expansion: usize,
    /// Maximum points in one path.
    pub max_path_points: usize,
    /// Maximum bytes of render surfaces.
    pub max_render_bytes: usize,
    /// Maximum painted pixels in one frame.
    pub max_render_pixels: usize,
    /// Maximum gradient stop values in one gradient.
    pub max_gradient_stop_values: usize,
    /// Maximum elements of one dash pattern.
    pub max_dash_elements: usize,
}

impl Limits {
    /// The default limits.
    pub open spec fn defaults() -> Limits {
        Limits {
            max_input_bytes: 16777216,
            max_nesting_depth: 128,
            max_layers: 4096,
            max_shapes_per_layer: 4096,
            max_keyframes: 65536,
            max_assets: 512,
            max_dimension: 8192,
            max_render_points: 1048576,
            max_render_work: 16777216,
            max_precomp_expansion: 65536,
            max_path_points: 65536,
            max_render_bytes: 268435456,
            max_render_pixels: 67108864,
            max_gradient_stop_values: 4096,
            max_dash_elements: 1024,
        }
    }
}

impl Default for Limits {
    fn default() -> (l: Limits)
        ensures
            l == Limits::defaults(),
    {
        Limits {
            max_input_bytes: 16777216,
            max_nesting_depth: 128,
            max_layers: 4096,
            max_shapes_per_layer: 4096,
            max_keyframes: 65536,
            max_assets: 512,
            max_dimension: 8192,
            max_render_points: 1048576,
            max_render_work: 16777216,
            max_precomp_expansion: 65536,
            max_path_points: 65536,
            max_render_bytes: 268435456,
            max_render_pixels: 67108864,
            max_gradient_stop_values: 4096,
            max_dash_elements: 1024,
        }
    }
}

/// By default an input may have 16 MiB, 4096 layers, 512 assets and 128 levels, a layer 4096 shapes and a
/// property 65536 keyframes; a frame may take a million points, 16 million units of work, 64 million
/// pixels, 65536 layers and 256 MiB, at 8192 pixels either way.
pub proof fn law_default_limits()
    ensures
        Limits::defaults().max_input_bytes == 16 * 1024 * 1024,
        Limits::defaults().max_nesting_depth == 128,
        Limits::defaults().max_layers == 4 * 1024,
        Limits::defaults().max_shapes_per_layer == 4 * 1024,
        Limits::defaults().max_keyframes == 64 * 1024,
        Limits::defaults().max_assets == 512,
        Limits::defaults().max_dimension == 8 * 1024,
        Limits::defaults().max_render_points == 1024 * 1024,
        Limits::defaults().max_render_work == 16 * 1024 * 1024,
        Limits::defaults().max_precomp_expansion == 64 * 1024,
        Limits::defaults().max_path_points == 64 * 1024,
        Limits::defaults().max_render_bytes == 256 * 1024 * 1024,
        Limits::defaults().max_render_pixels == 64 * 1024 * 1024,
        Limits::defaults().max_gradient_stop_values == 4 * 1024,
        Limits::defaults().max_dash_elements == 1024,
{
}

} // verus!
