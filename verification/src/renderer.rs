//! The render pass: for each pixel the nearest surface, its shadow test and
//! its shade, drawn on a canvas.

use vstd::prelude::*;
use crate::colors::{Color, UNIT};
use crate::primitives::Ray;
use crate::scene::{AnySceneObject, Scene};
use crate::shading::{diffuse_intensity, diffuse_level};
use crate::vector::Vec3;

verus! {

/// One request to a canvas: this colour at this pixel.
#[derive(Clone, Copy, Debug, PartialEq, Eq, Structural)]
pub struct DrawCall {
    pub x: u32,
    pub y: u32,
    pub color: Color,
}

/// A request with the answer that the canvas gave to it.
#[derive(Debug, PartialEq, Eq)]
pub struct Request {
    pub call: DrawCall,
    pub answer: Result<(), String>,
}

/// Where the pixels go.
///
/// Nothing is asked of how a canvas answers. Its history is the record of
/// what it was asked and what it did answer, and every canvas has one.
pub trait DrawCanvas {
    /// Every request made of this canvas so far, oldest first, each with
    /// its answer.
    spec fn history(&self) -> Seq<Request>;

    /// Colours one pixel, or says why it could not.
    fn draw(&mut self, x: u32, y: u32, color: &Color) -> (answer: Result<(), String>)
        ensures
            final(self).history() == old(self).history().push(
                Request { call: DrawCall { x, y, color: *color }, answer },
            ),
    ;
}

pub struct RenderOptions {
    pub canvas_width: u32,
    pub canvas_height: u32,
}

/// Why a render pass stopped.
#[derive(Debug, PartialEq, Eq)]
pub enum RenderError {
    /// The scene has no light.
    Configuration,
    /// The scene has more than one light.
    UnsupportedFeature,
    /// A surface has no normal at the point where a ray met it.
    Geometry,
    /// The canvas refused a pixel, with the reason it gave.
    Io(String),
}

impl From<String> for RenderError {
    /// The error that stops a pass when the canvas refuses a request for
    /// the given reason.
    fn from(reason: String) -> (error: RenderError) {
        RenderError::Io(reason)
    }
}

impl vstd::std_specs::convert::FromSpecImpl<String> for RenderError {
    open spec fn obeys_from_spec() -> bool {
        true
    }

    open spec fn from_spec(reason: String) -> RenderError {
        RenderError::Io(reason)
    }
}

impl RenderError {
    /// The error in words.
    pub open spec fn reason(self) -> Seq<char> {
        match self {
            RenderError::Configuration => "There is no light in the scene"@,
            RenderError::UnsupportedFeature => "Only one light is implemented for now"@,
            RenderError::Geometry => "No normal found"@,
            RenderError::Io(reason) => reason@,
        }
    }

    /// The error in words; for a refusal of the canvas, the canvas's own.
    pub fn message(&self) -> (text: String)
        ensures
            text@ == self.reason(),
    {
        match self {
            RenderError::Configuration => "There is no light in the scene".to_owned(),
            RenderError::UnsupportedFeature => "Only one light is implemented for now".to_owned(),
            RenderError::Geometry => "No normal found".to_owned(),
            RenderError::Io(reason) => reason.clone(),
        }
    }
}

/// The squared distance from the start of `ray` to the point where it meets
/// the object at `index`.
pub open spec fn reach(objects: Seq<Box<dyn AnySceneObject>>, ray: Ray, index: int) -> int
    recommends
        0 <= index < objects.len(),
        objects[index].collision(ray) is Some,
{
    ray.source.gap_squared(objects[index].collision(ray).unwrap())
}

/// Of the first `count` objects, the one at `index` is the one that `ray`
/// meets first: none of them is met nearer, and of those met at the same
/// distance it stands first in the list.
pub open spec fn is_nearest_of(
    objects: Seq<Box<dyn AnySceneObject>>,
    ray: Ray,
    index: int,
    count: int,
) -> bool {
    &&& 0 <= index < count <= objects.len()
    &&& objects[index].collision(ray) is Some
    &&& forall|other: int|
        0 <= other < count && (#[trigger] objects[other]).collision(ray) is Some ==> reach(
            objects,
            ray,
            index,
        ) <= reach(objects, ray, other) && (other < index ==> reach(objects, ray, index) < reach(
            objects,
            ray,
            other,
        ))
}

/// Of all the objects, the one at `index` is the one that `ray` meets first.
pub open spec fn is_nearest(objects: Seq<Box<dyn AnySceneObject>>, ray: Ray, index: int) -> bool {
    is_nearest_of(objects, ray, index, objects.len() as int)
}

/// The place in the list of the object that `ray` meets first, if it meets
/// any.
pub open spec fn nearest(objects: Seq<Box<dyn AnySceneObject>>, ray: Ray) -> Option<int> {
    if exists|index: int| is_nearest(objects, ray, index) {
        Some(choose|index: int| is_nearest(objects, ray, index))
    } else {
        None
    }
}

/// A ray has one nearest object at most.
pub proof fn lemma_nearest_unique(
    objects: Seq<Box<dyn AnySceneObject>>,
    ray: Ray,
    first: int,
    second: int,
)
    requires
        is_nearest(objects, ray, first),
        is_nearest(objects, ray, second),
    ensures
        first == second,
{
    // each of the two is met, so each is no farther than the other, and the
    // later of them would have to be strictly nearer
    assert(objects[first].collision(ray) is Some);
    assert(objects[second].collision(ray) is Some);
}

/// Searches the whole list for the object that `ray` meets first, and gives
/// its place with the point where the ray meets it.
pub fn nearest_object(objects: &Vec<Box<dyn AnySceneObject>>, ray: &Ray) -> (found: Option<
    (usize, Vec3),
>)
    ensures
        match found {
            Some((index, point)) => nearest(objects@, *ray) == Some(index as int) && is_nearest(
                objects@,
                *ray,
                index as int,
            ) && objects[index as int].collision(*ray) == Some(point) && point.on_grid(),
            None => nearest(objects@, *ray) is None && forall|index: int|
                0 <= index < objects.len() ==> (#[trigger] objects[index]).collision(*ray) is None,
        },
{
    let mut found: Option<(usize, Vec3)> = None;
    let mut shortest: u128 = 0;
    let mut next: usize = 0;
    while next < objects.len()
        invariant
            next <= objects.len(),
            match found {
                Some((index, point)) => is_nearest_of(objects@, *ray, index as int, next as int)
                    && objects[index as int].collision(*ray) == Some(point) && point.on_grid()
                    && shortest == ray.source.gap_squared(point),
                None => forall|index: int|
                    0 <= index < next ==> (#[trigger] objects[index]).collision(*ray) is None,
            },
        decreases objects.len() - next,
    {
        match objects[next].check_collision(ray) {
            Some(point) => {
                let distance: u128 = ray.source.distance_squared(point);
                let nearer: bool = match found {
                    Some(_) => distance < shortest,
                    None => true,
                };
                if nearer {
                    found = Some((next, point));
                    shortest = distance;
                }
            },
            None => {},
        }
        next = next + 1;
    }
    proof {
        match found {
            Some((index, _)) => {
                let chosen = choose|i: int| is_nearest(objects@, *ray, i);
                lemma_nearest_unique(objects@, *ray, index as int, chosen);
            },
            None => {
                if exists|i: int| is_nearest(objects@, *ray, i) {
                    let chosen = choose|i: int| is_nearest(objects@, *ray, i);
                    assert(objects[chosen].collision(*ray) is Some);
                }
            },
        }
    }
    found
}

/// The object at `index` stands in the way of the light: `shadow_ray` meets
/// it no farther from the start of the ray than `light_gap`, the squared
/// distance to the light. What lies beyond the light casts no shadow.
pub open spec fn blocks(
    objects: Seq<Box<dyn AnySceneObject>>,
    index: int,
    shadow_ray: Ray,
    light_gap: int,
) -> bool {
    match objects[index].collision(shadow_ray) {
        Some(obstruction) => shadow_ray.source.gap_squared(obstruction) <= light_gap,
        None => false,
    }
}

/// Some object other than the one at `lit` stands between `point` and the
/// light. The object at `lit` is left out by its place in the list, whatever
/// else in the list may equal it.
pub open spec fn occluded(
    objects: Seq<Box<dyn AnySceneObject>>,
    lit: int,
    point: Vec3,
    light: Vec3,
) -> bool {
    exists|other: int|
        0 <= other < objects.len() && other != lit && #[trigger] blocks(
            objects,
            other,
            Ray::from_to(point, light),
            point.gap_squared(light),
        )
}

/// Tells whether `point`, on the object at `lit`, lies in the shadow of
/// another object.
pub fn in_shadow(objects: &Vec<Box<dyn AnySceneObject>>, lit: usize, point: Vec3, light: Vec3) -> (
    shadowed: bool
)
    requires
        point.on_grid(),
        light.on_grid(),
    ensures
        shadowed == occluded(objects@, lit as int, point, light),
{
    let light_ray = Ray::ray_from_to(point, light);
    let light_distance: u128 = point.distance_squared(light);
    let mut next: usize = 0;
    while next < objects.len()
        invariant
            next <= objects.len(),
            light_ray == Ray::from_to(point, light),
            light_distance == point.gap_squared(light),
            forall|other: int|
                0 <= other < next && other != lit ==> !#[trigger] blocks(
                    objects@,
                    other,
                    light_ray,
                    light_distance as int,
                ),
        decreases objects.len() - next,
    {
        if next != lit {
            match objects[next].check_collision(&light_ray) {
                Some(obstruction) => {
                    if point.distance_squared(obstruction) <= light_distance {
                        assert(blocks(objects@, next as int, light_ray, light_distance as int));
                        return true;
                    }
                },
                None => {},
            }
        }
        next = next + 1;
    }
    false
}

/// What one ray brings to its pixel.
#[derive(Clone, Copy, Debug, PartialEq, Eq, Structural)]
pub enum Shade {
    /// Nothing to draw: the ray meets no object, or the point it meets lies
    /// in shadow.
    Dark,
    /// The colour of the lit point.
    Lit(Color),
    /// The ray meets a lit point where the surface has no normal.
    Undefined,
}

/// The shade that `ray` finds in a scene of these objects under a light at
/// `light`: nothing where the ray meets no object or the nearest point lies
/// in shadow, and else the colour of that point under the diffuse intensity
/// of the light, which lies in the direction of the difference between light
/// and point.
pub open spec fn shade_of(objects: Seq<Box<dyn AnySceneObject>>, light: Vec3, ray: Ray) -> Shade {
    match nearest(objects, ray) {
        None => Shade::Dark,
        Some(index) => {
            let point = objects[index].collision(ray).unwrap();
            if occluded(objects, index, point, light) {
                Shade::Dark
            } else {
                match objects[index].normal(point) {
                    None => Shade::Undefined,
                    Some(normal) => Shade::Lit(
                        objects[index].color(point).lit(
                            diffuse_level(Vec3::difference(point, light), normal),
                        ),
                    ),
                }
            }
        },
    }
}

/// The intensity of the light on `surface_point` of an object, for a light
/// in the direction `light_direction`: the cosine of the angle between that
/// direction and the normal, in `UNIT`-ths, and nothing for a light behind
/// the surface.
pub fn light_intensity(
    scene_object: &Box<dyn AnySceneObject>,
    light_direction: Vec3,
    surface_point: Vec3,
) -> (intensity: Result<u32, RenderError>)
    ensures
        match scene_object.normal(surface_point) {
            Some(normal) => intensity matches Ok(level) && level == diffuse_level(
                light_direction,
                normal,
            ) && level <= UNIT,
            None => intensity == Err::<u32, RenderError>(RenderError::Geometry),
        },
{
    match scene_object.normal_at(surface_point) {
        Some(normal) => Ok(diffuse_intensity(light_direction, normal)),
        None => Err(RenderError::Geometry),
    }
}

/// Follows one ray: finds the object it meets first, tests whether the
/// point lies in shadow, and shades it.
pub fn trace(objects: &Vec<Box<dyn AnySceneObject>>, light: Vec3, ray: &Ray) -> (shade: Shade)
    requires
        light.on_grid(),
    ensures
        shade == shade_of(objects@, light, *ray),
{
    match nearest_object(objects, ray) {
        None => Shade::Dark,
        Some((index, point)) => {
            if in_shadow(objects, index, point, light) {
                Shade::Dark
            } else {
                let light_direction = Ray::ray_from_to(point, light).direction;
                match light_intensity(&objects[index], light_direction, point) {
                    Ok(intensity) => Shade::Lit(objects[index].color_at(point).scaled(intensity)),
                    Err(_) => Shade::Undefined,
                }
            }
        },
    }
}

/// Among the first `count` pixels there is one whose ray meets a lit point
/// without a normal: the pass stops there.
pub open spec fn frame_failed(
    objects: Seq<Box<dyn AnySceneObject>>,
    light: Vec3,
    pixels: Seq<(u32, u32, Ray)>,
    count: int,
) -> bool {
    exists|at: int| 0 <= at < count && #[trigger] shade_of(objects, light, pixels[at].2) is Undefined
}

/// What the first `count` pixels ask of a canvas `canvas_height` rows high,
/// in their order: for each lit point one request, in its column and in the
/// row `canvas_height - y`, since rows count upwards in the scene and
/// downwards on the canvas. Nothing is asked after a pixel that stops the
/// pass.
pub open spec fn frame_calls(
    objects: Seq<Box<dyn AnySceneObject>>,
    light: Vec3,
    pixels: Seq<(u32, u32, Ray)>,
    canvas_height: u32,
    count: int,
) -> Seq<DrawCall>
    decreases count,
{
    if count <= 0 {
        Seq::empty()
    } else {
        let before = frame_calls(objects, light, pixels, canvas_height, count - 1);
        let (x, y, ray) = pixels[count - 1];
        match shade_of(objects, light, ray) {
            Shade::Lit(color) if !frame_failed(objects, light, pixels, count - 1) => before.push(
                DrawCall { x, y: (canvas_height - y) as u32, color },
            ),
            _ => before,
        }
    }
}

/// The record of a canvas that has served each of `calls`, in their order.
pub open spec fn served(calls: Seq<DrawCall>) -> Seq<Request> {
    Seq::new(calls.len(), |i: int| Request { call: calls[i], answer: Ok(()) })
}

/// A canvas whose history was `before` has the history `after` once a pass
/// over `scene` has ended with `done`.
///
/// A scene without a light, or with more than one, is refused before the
/// canvas hears of it. Otherwise the canvas is asked for the requests of the
/// frame in their order, for as long as it serves them. Where it has served
/// them all, the pass ends well, unless a point without a normal has stopped
/// it. Where it has refused one, that was the last request made of it, and
/// the pass ends with the reason that the canvas gave.
pub open spec fn rendered(
    scene: &Scene,
    options: &RenderOptions,
    before: Seq<Request>,
    after: Seq<Request>,
    done: Result<(), RenderError>,
) -> bool {
    if scene.lights.len() == 0 {
        done == Err::<(), RenderError>(RenderError::Configuration) && after == before
    } else if scene.lights.len() > 1 {
        done == Err::<(), RenderError>(RenderError::UnsupportedFeature) && after == before
    } else {
        let pixels = scene.camera.rays(options.canvas_width, options.canvas_height);
        let light = scene.lights[0].position();
        let calls = frame_calls(
            scene.objects@,
            light,
            pixels,
            options.canvas_height,
            pixels.len() as int,
        );
        let failed = frame_failed(scene.objects@, light, pixels, pixels.len() as int);
        match done {
            Ok(_) => !failed && after == before + served(calls),
            Err(RenderError::Geometry) => failed && after == before + served(calls),
            Err(RenderError::Io(reason)) => {
                let refused = after.len() - before.len() - 1;
                &&& 0 <= refused < calls.len()
                &&& after == before + served(calls.take(refused)).push(
                    Request { call: calls[refused], answer: Err(reason) },
                )
            },
            Err(_) => false,
        }
    }
}

/// The requests of a frame grow pixel by pixel.
pub proof fn lemma_frame_calls_grow(
    objects: Seq<Box<dyn AnySceneObject>>,
    light: Vec3,
    pixels: Seq<(u32, u32, Ray)>,
    canvas_height: u32,
    early: int,
    late: int,
)
    requires
        0 <= early <= late,
    ensures
        frame_calls(objects, light, pixels, canvas_height, early).len() <= frame_calls(
            objects,
            light,
            pixels,
            canvas_height,
            late,
        ).len(),
        frame_calls(objects, light, pixels, canvas_height, early) == frame_calls(
            objects,
            light,
            pixels,
            canvas_height,
            late,
        ).take(frame_calls(objects, light, pixels, canvas_height, early).len() as int),
    decreases late - early,
{
    let first = frame_calls(objects, light, pixels, canvas_height, early);
    if early < late {
        lemma_frame_calls_grow(objects, light, pixels, canvas_height, early, late - 1);
        let most = frame_calls(objects, light, pixels, canvas_height, late - 1);
        let all = frame_calls(objects, light, pixels, canvas_height, late);
        assert(most == all.take(most.len() as int));
        assert(first == all.take(first.len() as int));
    } else {
        assert(first == first.take(first.len() as int));
    }
}

/// Once a pixel has stopped the pass, the frame asks for nothing more.
pub proof fn lemma_frame_calls_stop(
    objects: Seq<Box<dyn AnySceneObject>>,
    light: Vec3,
    pixels: Seq<(u32, u32, Ray)>,
    canvas_height: u32,
    early: int,
    late: int,
)
    requires
        0 <= early <= late,
        frame_failed(objects, light, pixels, early),
    ensures
        frame_calls(objects, light, pixels, canvas_height, late) == frame_calls(
            objects,
            light,
            pixels,
            canvas_height,
            early,
        ),
    decreases late - early,
{
    if early < late {
        lemma_frame_calls_stop(objects, light, pixels, canvas_height, early, late - 1);
        let at = choose|at: int|
            0 <= at < early && #[trigger] shade_of(objects, light, pixels[at].2) is Undefined;
        assert(frame_failed(objects, light, pixels, late - 1));
    }
}

/// Renders `scene` on `canvas`: one ray for each pixel that the camera
/// gives, in the camera's order, and for each ray that meets a lit point one
/// request to the canvas. The pass stops at the first point without a normal
/// and at the first request that the canvas refuses.
pub fn render(scene: &Scene, canvas: &mut impl DrawCanvas, options: &RenderOptions) -> (done:
    Result<(), RenderError>)
    ensures
        rendered(scene, options, old(canvas).history(), final(canvas).history(), done),
        scene.lights.len() != 1 ==> *final(canvas) == *old(canvas),
{
    if scene.lights.len() == 0 {
        return Err(RenderError::Configuration);
    }
    if scene.lights.len() > 1 {
        return Err(RenderError::UnsupportedFeature);
    }
    let light: Vec3 = scene.lights[0].source();
    let pixels = scene.camera.generate_rays(options.canvas_width, options.canvas_height);
    let ghost before = canvas.history();
    let ghost objects = scene.objects@;
    let ghost height = options.canvas_height;
    let mut next: usize = 0;
    while next < pixels.len()
        invariant
            next <= pixels.len(),
            scene.lights.len() == 1,
            light == scene.lights[0].position(),
            light.on_grid(),
            pixels@ == scene.camera.rays(options.canvas_width, options.canvas_height),
            forall|i: int|
                0 <= i < pixels.len() ==> (#[trigger] pixels[i]).0 < options.canvas_width
                    && pixels[i].1 < options.canvas_height,
            objects == scene.objects@,
            height == options.canvas_height,
            !frame_failed(objects, light, pixels@, next as int),
            canvas.history() == before + served(
                frame_calls(objects, light, pixels@, height, next as int),
            ),
            before == old(canvas).history(),
        decreases pixels.len() - next,
    {
        let pixel = pixels[next];
        let x: u32 = pixel.0;
        let y: u32 = pixel.1;
        let ray: Ray = pixel.2;
        let ghost drawn = frame_calls(objects, light, pixels@, height, next as int);
        let ghost all = frame_calls(objects, light, pixels@, height, pixels.len() as int);
        match trace(&scene.objects, light, &ray) {
            Shade::Dark => {},
            Shade::Undefined => {
                proof {
                    lemma_frame_calls_stop(
                        objects,
                        light,
                        pixels@,
                        height,
                        next + 1,
                        pixels.len() as int,
                    );
                    assert(all == drawn);
                }
                return Err(RenderError::Geometry);
            },
            Shade::Lit(color) => {
                let ghost call = DrawCall { x, y: (options.canvas_height - y) as u32, color };
                let ghost grown = frame_calls(objects, light, pixels@, height, next + 1);
                assert(grown == drawn.push(call));
                match canvas.draw(x, options.canvas_height - y, &color) {
                    Ok(unit) => {
                        assert(unit == ());
                        assert(canvas.history() =~= before + served(grown));
                    },
                    Err(reason) => {
                        proof {
                            lemma_frame_calls_grow(
                                objects,
                                light,
                                pixels@,
                                height,
                                next + 1,
                                pixels.len() as int,
                            );
                            assert(all.take(grown.len() as int)[drawn.len() as int] == call);
                            assert(all.take(drawn.len() as int) =~= drawn);
                        }
                        return Err(RenderError::from(reason));
                    },
                }
            },
        }
        next = next + 1;
    }
    Ok(())
}

} // verus!
