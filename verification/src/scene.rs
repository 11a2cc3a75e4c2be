//! A scene: a camera, lights and the objects they shine on.

use vstd::prelude::*;
use crate::colors::Color;
use crate::lights::AnyLightObject;
use crate::primitives::{Ray, Shape};
use crate::textures::{Texture, TextureEffects};
use crate::vector::Vec3;

verus! {

pub struct Scene {
    pub camera: Box<dyn RayEmitter>,
    pub lights: Vec<Box<dyn AnyLightObject>>,
    pub objects: Vec<Box<dyn AnySceneObject>>,
    pub options: SceneOptions,
}

/// Settings of the scene as a whole. Rendering is diffuse light from the
/// one lamp only: it reads neither of these, so a pixel that no lit surface
/// fills is left to the canvas.
pub struct SceneOptions {
    pub world_color: Color,
    pub ambient_light: Option<Color>,
}

impl Default for SceneOptions {
    /// A black world under an ambient light of a fifth of full white.
    fn default() -> (options: SceneOptions)
        ensures
            options.world_color == (Color { red: 0, green: 0, blue: 0 }),
            options.ambient_light == Some(Color { red: 51, green: 51, blue: 51 }),
    {
        SceneOptions { world_color: Color::black(), ambient_light: Some(Color::new(51, 51, 51)) }
    }
}

/// What the renderer asks of an object. Each answer is a function of the
/// object and the question alone: the spec function names it, the method
/// computes it. An object keeps its place in the scene's list for as long as
/// the scene lives, and that place tells it from every other object.
pub trait AnySceneObject {
    /// The point where `ray` first meets the object, if it meets it: a
    /// point on the grid.
    spec fn collision(&self, ray: Ray) -> Option<Vec3>;

    /// The normal of the object's surface at `point`, if it has one there.
    spec fn normal(&self, point: Vec3) -> Option<Vec3>;

    /// The colour of the object's surface at `point`, before any shading.
    spec fn color(&self, point: Vec3) -> Color;

    /// What the object's surface does with light besides scattering it.
    spec fn surface_effects(&self) -> TextureEffects;

    fn color_at(&self, point: Vec3) -> (color: Color)
        ensures
            color == self.color(point),
    ;

    fn check_collision(&self, ray: &Ray) -> (point: Option<Vec3>)
        ensures
            point == self.collision(*ray),
            point matches Some(met) ==> met.on_grid(),
    ;

    fn normal_at(&self, point: Vec3) -> (normal: Option<Vec3>)
        ensures
            normal == self.normal(point),
    ;

    fn effects(&self) -> (effects: &TextureEffects)
        ensures
            *effects == self.surface_effects(),
    ;
}

/// A shape with a texture on it.
pub struct SceneObject<T: Texture, P: Shape> {
    pub texture: T,
    pub primitive: P,
    pub effects: TextureEffects,
}

impl<T: Texture, P: Shape> AnySceneObject for SceneObject<T, P> {
    open spec fn collision(&self, ray: Ray) -> Option<Vec3> {
        self.primitive.collision(ray)
    }

    open spec fn normal(&self, point: Vec3) -> Option<Vec3> {
        self.primitive.normal(point)
    }

    /// The texture's colour at the surface coordinates of `point`; black
    /// where the shape gives the point no coordinates.
    open spec fn color(&self, point: Vec3) -> Color {
        match self.primitive.surface_mapping(point) {
            Some((u, v)) => self.texture.color(u, v),
            None => Color { red: 0, green: 0, blue: 0 },
        }
    }

    open spec fn surface_effects(&self) -> TextureEffects {
        self.effects
    }

    fn color_at(&self, point: Vec3) -> (color: Color) {
        match self.primitive.surface_mapping_at(point) {
            Some((u, v)) => self.texture.color_at(u, v),
            None => Color::black(),
        }
    }

    fn check_collision(&self, ray: &Ray) -> (point: Option<Vec3>) {
        self.primitive.check_collision(ray)
    }

    fn normal_at(&self, point: Vec3) -> (normal: Option<Vec3>) {
        self.primitive.normal_at(point)
    }

    fn effects(&self) -> (effects: &TextureEffects) {
        &self.effects
    }
}

/// A camera. It looks at the scene through a screen of pixels and sends one
/// ray through each.
pub trait RayEmitter {
    /// The pixels of a screen of the given size, each with its ray, in the
    /// order in which they are to be rendered.
    spec fn rays(&self, screen_width: u32, screen_height: u32) -> Seq<(u32, u32, Ray)>;

    /// Every pixel `(x, y, ray)` lies on the screen.
    fn generate_rays(&self, screen_width: u32, screen_height: u32) -> (pixels: Vec<(u32, u32, Ray)>)
        ensures
            pixels@ == self.rays(screen_width, screen_height),
            forall|i: int|
                0 <= i < pixels.len() ==> (#[trigger] pixels[i]).0 < screen_width && pixels[i].1
                    < screen_height,
    ;
}

} // verus!
