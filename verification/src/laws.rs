//! What holds of every scene, ray and canvas.

use vstd::prelude::*;
use crate::arith::{is_floor_sqrt, is_scaled_quotient, lemma_square_monotonic};
use crate::colors::UNIT;
use crate::primitives::Ray;
use crate::renderer::{
    blocks, frame_calls, frame_failed, is_nearest, is_nearest_of, lemma_nearest_unique, nearest,
    occluded, reach, rendered, served, shade_of, DrawCall, RenderError, RenderOptions, Request,
    Shade,
};
use crate::scene::{AnySceneObject, Scene};
use crate::shading::{diffuse_level, is_cosine_level};
use crate::vector::{lemma_dot_bound, Vec3};

verus! {

/// A number has one integer square root.
pub proof fn lemma_floor_sqrt_unique(r: int, s: int, x: int)
    requires
        is_floor_sqrt(r, x),
        is_floor_sqrt(s, x),
    ensures
        r == s,
{
    if r < s {
        lemma_square_monotonic(r + 1, s);
    } else if s < r {
        lemma_square_monotonic(s + 1, r);
    }
}

/// A fraction has one scaled quotient.
pub proof fn lemma_scaled_quotient_unique(q: int, r: int, part: int, whole: int, bits: nat)
    requires
        is_scaled_quotient(q, part, whole, bits),
        is_scaled_quotient(r, part, whole, bits),
    ensures
        q == r,
{
    assert(whole > 0) by (nonlinear_arith)
        requires
            q * whole < (q + 1) * whole,
    ;
    if q < r {
        lemma_multiples_in_order(q + 1, r, whole);
    } else if r < q {
        lemma_multiples_in_order(r + 1, q, whole);
    }
}

proof fn lemma_multiples_in_order(low: int, high: int, whole: int)
    by (nonlinear_arith)
    requires
        0 <= low <= high,
        whole >= 0,
    ensures
        low * whole <= high * whole,
{
}

proof fn lemma_cosine_level_from(level: int, dot: int, lengths: int)
    requires
        0 <= level <= UNIT,
        lengths > 0,
        (level * level) * lengths <= (UNIT * UNIT) * (dot * dot),
    ensures
        exists|found: int| is_cosine_level(found, dot, lengths),
    decreases UNIT - level,
{
    if level < UNIT && ((level + 1) * (level + 1)) * lengths <= (UNIT * UNIT) * (dot * dot) {
        lemma_cosine_level_from(level + 1, dot, lengths);
    } else {
        assert(is_cosine_level(level, dot, lengths));
    }
}

/// The diffuse intensity is the cosine of the angle between the light
/// direction and the normal, limited to the range from nothing to one and
/// rounded down to a whole `UNIT`-th: it is nothing where the light is behind
/// the surface, elsewhere `level / UNIT <= cosine < (level + 1) / UNIT`, and
/// it is `UNIT` only where the cosine is one. With `UNIT` at `2^30` the
/// intensity is less than a billionth below the cosine.
pub proof fn lemma_diffuse_level_is_cosine(light_direction: Vec3, normal: Vec3)
    ensures
        0 <= diffuse_level(light_direction, normal) <= UNIT,
        light_direction.dot(normal) <= 0 ==> diffuse_level(light_direction, normal) == 0,
        light_direction.dot(normal) > 0 ==> is_cosine_level(
            diffuse_level(light_direction, normal),
            light_direction.dot(normal),
            light_direction.length_squared() * normal.length_squared(),
        ),
        diffuse_level(light_direction, normal) == UNIT ==> light_direction.dot(normal)
            * light_direction.dot(normal) == light_direction.length_squared()
            * normal.length_squared(),
{
    let dot = light_direction.dot(normal);
    let lengths = light_direction.length_squared() * normal.length_squared();
    lemma_dot_bound(light_direction, normal);
    if dot > 0 {
        assert(dot * dot > 0) by (nonlinear_arith)
            requires
                dot > 0,
        ;
        assert((0 * 0) * lengths <= (UNIT * UNIT) * (dot * dot)) by (nonlinear_arith)
            requires
                UNIT == 0x4000_0000,
                dot * dot > 0,
        ;
        lemma_cosine_level_from(0, dot, lengths);
        let level = diffuse_level(light_direction, normal);
        if level == UNIT {
            assert(lengths <= dot * dot) by (nonlinear_arith)
                requires
                    (UNIT * UNIT) * lengths <= (UNIT * UNIT) * (dot * dot),
                    UNIT == 0x4000_0000,
            ;
        }
    }
}

proof fn lemma_nearest_of_first(objects: Seq<Box<dyn AnySceneObject>>, ray: Ray, count: int)
    requires
        0 <= count <= objects.len(),
    ensures
        (exists|index: int| is_nearest_of(objects, ray, index, count)) || (forall|other: int|
            0 <= other < count ==> (#[trigger] objects[other]).collision(ray) is None),
    decreases count,
{
    if count > 0 {
        lemma_nearest_of_first(objects, ray, count - 1);
        let last = count - 1;
        if exists|index: int| is_nearest_of(objects, ray, index, last) {
            let kept = choose|index: int| is_nearest_of(objects, ray, index, last);
            if objects[last].collision(ray) is Some && reach(objects, ray, last) < reach(
                objects,
                ray,
                kept,
            ) {
                assert(is_nearest_of(objects, ray, last, count));
            } else {
                assert(is_nearest_of(objects, ray, kept, count));
            }
        } else if objects[last].collision(ray) is Some {
            assert(is_nearest_of(objects, ray, last, count));
        }
    }
}

/// A ray has a nearest object exactly if it meets an object at all.
pub proof fn lemma_nearest_exists(objects: Seq<Box<dyn AnySceneObject>>, ray: Ray)
    ensures
        nearest(objects, ray) is None <==> forall|other: int|
            0 <= other < objects.len() ==> (#[trigger] objects[other]).collision(ray) is None,
        nearest(objects, ray) is Some ==> is_nearest(objects, ray, nearest(objects, ray).unwrap()),
{
    let count = objects.len() as int;
    lemma_nearest_of_first(objects, ray, count);
    if exists|index: int| is_nearest_of(objects, ray, index, count) {
        let found = choose|index: int| is_nearest_of(objects, ray, index, count);
        assert(is_nearest(objects, ray, found));
    }
    if exists|index: int| is_nearest(objects, ray, index) {
        let chosen = choose|index: int| is_nearest(objects, ray, index);
        assert(objects[chosen].collision(ray) is Some);
    }
}

/// A ray that meets no object brings nothing to its pixel: the frame asks
/// the canvas for nothing on its account.
pub proof fn lemma_miss_draws_nothing(
    objects: Seq<Box<dyn AnySceneObject>>,
    light: Vec3,
    pixels: Seq<(u32, u32, Ray)>,
    canvas_height: u32,
    at: int,
)
    requires
        0 <= at < pixels.len(),
        forall|other: int|
            0 <= other < objects.len() ==> (#[trigger] objects[other]).collision(pixels[at].2)
                is None,
    ensures
        shade_of(objects, light, pixels[at].2) == Shade::Dark,
        frame_calls(objects, light, pixels, canvas_height, at + 1) == frame_calls(
            objects,
            light,
            pixels,
            canvas_height,
            at,
        ),
{
    lemma_nearest_exists(objects, pixels[at].2);
}

/// A point that another object hides from the light is left dark: the
/// object stands on the way from the point to the light, no farther than the
/// light itself.
pub proof fn lemma_occluded_point_is_dark(
    objects: Seq<Box<dyn AnySceneObject>>,
    light: Vec3,
    ray: Ray,
    occluder: int,
    obstruction: Vec3,
)
    requires
        nearest(objects, ray) is Some,
        0 <= occluder < objects.len(),
        occluder != nearest(objects, ray).unwrap(),
        ({
            let lit = nearest(objects, ray).unwrap();
            let point = objects[lit].collision(ray).unwrap();
            &&& objects[occluder].collision(Ray::from_to(point, light)) == Some(obstruction)
            &&& point.gap_squared(obstruction) <= point.gap_squared(light)
        }),
    ensures
        shade_of(objects, light, ray) == Shade::Dark,
{
    let lit = nearest(objects, ray).unwrap();
    let point = objects[lit].collision(ray).unwrap();
    assert(blocks(objects, occluder, Ray::from_to(point, light), point.gap_squared(light)));
}

/// A lit point is drawn once, in its column and in the row counted from
/// the other end of the canvas: the pixel `(x, y)` asks for
/// `(x, canvas_height - y)`.
pub proof fn lemma_lit_pixel_is_flipped(
    objects: Seq<Box<dyn AnySceneObject>>,
    light: Vec3,
    pixels: Seq<(u32, u32, Ray)>,
    canvas_height: u32,
    at: int,
    color: crate::colors::Color,
)
    requires
        0 <= at < pixels.len(),
        pixels[at].1 <= canvas_height,
        shade_of(objects, light, pixels[at].2) == Shade::Lit(color),
        !frame_failed(objects, light, pixels, at),
    ensures
        frame_calls(objects, light, pixels, canvas_height, at + 1) == frame_calls(
            objects,
            light,
            pixels,
            canvas_height,
            at,
        ).push(DrawCall { x: pixels[at].0, y: (canvas_height - pixels[at].1) as u32, color }),
{
}

/// Each request of a frame stems from one of its pixels: it asks for the
/// column of that pixel and for its row counted from the other end.
pub open spec fn stems_from(call: DrawCall, pixel: (u32, u32, Ray), canvas_height: u32) -> bool {
    call.x == pixel.0 && call.y == canvas_height - pixel.1
}

/// Where the camera gives no pixel twice, the frame asks for no place on
/// the canvas twice.
pub proof fn lemma_no_pixel_twice(
    objects: Seq<Box<dyn AnySceneObject>>,
    light: Vec3,
    pixels: Seq<(u32, u32, Ray)>,
    canvas_height: u32,
    count: int,
)
    requires
        0 <= count <= pixels.len(),
        forall|i: int| 0 <= i < pixels.len() ==> (#[trigger] pixels[i]).1 <= canvas_height,
        forall|i: int, j: int|
            0 <= i < j < pixels.len() ==> (#[trigger] pixels[i]).0 != (#[trigger] pixels[j]).0
                || pixels[i].1 != pixels[j].1,
    ensures
        forall|k: int|
            0 <= k < frame_calls(objects, light, pixels, canvas_height, count).len() ==> exists|
                i: int,
            |
                0 <= i < count && stems_from(
                    #[trigger] frame_calls(objects, light, pixels, canvas_height, count)[k],
                    #[trigger] pixels[i],
                    canvas_height,
                ),
        forall|k: int, l: int|
            0 <= k < l < frame_calls(objects, light, pixels, canvas_height, count).len() ==> (
            #[trigger] frame_calls(objects, light, pixels, canvas_height, count)[k]).x != (
            #[trigger] frame_calls(objects, light, pixels, canvas_height, count)[l]).x
                || frame_calls(objects, light, pixels, canvas_height, count)[k].y != frame_calls(
                objects,
                light,
                pixels,
                canvas_height,
                count,
            )[l].y,
    decreases count,
{
    if count > 0 {
        lemma_no_pixel_twice(objects, light, pixels, canvas_height, count - 1);
        let before = frame_calls(objects, light, pixels, canvas_height, count - 1);
        let calls = frame_calls(objects, light, pixels, canvas_height, count);
        let last = pixels[count - 1];
        assert forall|k: int| 0 <= k < calls.len() implies exists|i: int|
            0 <= i < count && stems_from(#[trigger] calls[k], #[trigger] pixels[i], canvas_height) by {
            if k < before.len() {
                let i = choose|i: int|
                    0 <= i < count - 1 && stems_from(before[k], #[trigger] pixels[i], canvas_height);
                assert(stems_from(calls[k], pixels[i], canvas_height));
            } else {
                assert(stems_from(calls[k], pixels[count - 1], canvas_height));
            }
        }
        assert forall|k: int, l: int| 0 <= k < l < calls.len() implies (#[trigger] calls[k]).x != (
        #[trigger] calls[l]).x || calls[k].y != calls[l].y by {
            if l >= before.len() {
                let i = choose|i: int|
                    0 <= i < count - 1 && stems_from(before[k], #[trigger] pixels[i], canvas_height);
                assert(stems_from(calls[l], pixels[count - 1], canvas_height));
                assert(pixels[i].0 != pixels[count - 1].0 || pixels[i].1 != pixels[count - 1].1);
            } else {
                assert(calls[k] == before[k] && calls[l] == before[l]);
            }
        }
    }
}

/// Between two points on the grid the vector from one to the other is
/// their difference, coordinate by coordinate: no rounding and no limit comes
/// between a point and the direction in which it sees the light.
pub proof fn lemma_difference_is_exact(from: Vec3, to: Vec3)
    requires
        from.on_grid(),
        to.on_grid(),
    ensures
        Vec3::difference(from, to).x == to.x - from.x,
        Vec3::difference(from, to).y == to.y - from.y,
        Vec3::difference(from, to).z == to.z - from.z,
        Ray::from_to(from, to).source == from,
        Ray::from_to(from, to).direction == Vec3::difference(from, to),
{
}

/// A point that no other object hides from the light is drawn in the
/// object's colour under the diffuse intensity of the light, where the
/// surface has a normal. What the object itself does to the shadow ray, and
/// what shadows it casts elsewhere, changes nothing of that.
pub proof fn lemma_unblocked_point_is_lit(
    objects: Seq<Box<dyn AnySceneObject>>,
    light: Vec3,
    ray: Ray,
    lit: int,
    point: Vec3,
    normal: Vec3,
)
    requires
        nearest(objects, ray) == Some(lit),
        0 <= lit < objects.len(),
        objects[lit].collision(ray) == Some(point),
        objects[lit].normal(point) == Some(normal),
        forall|other: int|
            0 <= other < objects.len() && other != lit ==> !#[trigger] blocks(
                objects,
                other,
                Ray::from_to(point, light),
                point.gap_squared(light),
            ),
    ensures
        shade_of(objects, light, ray) == Shade::Lit(
            objects[lit].color(point).lit(diffuse_level(Vec3::difference(point, light), normal)),
        ),
{
}

/// In a scene of one object nothing casts a shadow: the point where a ray
/// meets the object has the object's colour under the diffuse intensity of
/// the light, where the surface has a normal. The light lies in the
/// direction of the exact difference between its place and the point.
pub proof fn lemma_lone_object_is_lit(
    objects: Seq<Box<dyn AnySceneObject>>,
    light: Vec3,
    ray: Ray,
    point: Vec3,
    normal: Vec3,
)
    requires
        objects.len() == 1,
        objects[0].collision(ray) == Some(point),
        objects[0].normal(point) == Some(normal),
        point.on_grid(),
        light.on_grid(),
    ensures
        shade_of(objects, light, ray) == Shade::Lit(
            objects[0].color(point).lit(
                diffuse_level(Vec3::difference(point, light), normal),
            ),
        ),
        Vec3::difference(point, light).x == light.x - point.x,
        Vec3::difference(point, light).y == light.y - point.y,
        Vec3::difference(point, light).z == light.z - point.z,
{
    assert(is_nearest(objects, ray, 0));
    lemma_nearest_exists(objects, ray);
    lemma_nearest_unique(objects, ray, 0, nearest(objects, ray).unwrap());
}

/// Of two objects that a ray meets at the same distance, the later in the
/// list is never the nearest; where the two are the whole scene, the earlier
/// is.
pub proof fn lemma_tie_goes_to_first(
    objects: Seq<Box<dyn AnySceneObject>>,
    ray: Ray,
    first: int,
    second: int,
)
    requires
        0 <= first < second < objects.len(),
        objects[first].collision(ray) is Some,
        objects[second].collision(ray) is Some,
        reach(objects, ray, first) == reach(objects, ray, second),
    ensures
        nearest(objects, ray) is Some,
        nearest(objects, ray) != Some(second),
        objects.len() == 2 ==> nearest(objects, ray) == Some(first),
{
    lemma_nearest_exists(objects, ray);
    let chosen = nearest(objects, ray).unwrap();
    assert(is_nearest(objects, ray, chosen));
    if objects.len() == 2 {
        assert(is_nearest(objects, ray, first));
        lemma_nearest_unique(objects, ray, first, chosen);
    }
}

/// What a record asks for, without the answers.
pub open spec fn asked(record: Seq<Request>) -> Seq<DrawCall> {
    Seq::new(record.len(), |i: int| record[i].call)
}

/// Two passes over one scene with the same options ask the same of their
/// canvases, request by request, for as long as both go on. Where neither
/// canvas refuses a request, both are asked for the same in all and both
/// passes end alike; and passes that got the same answers end alike.
pub proof fn lemma_render_repeats(
    scene: &Scene,
    options: &RenderOptions,
    before_one: Seq<Request>,
    after_one: Seq<Request>,
    done_one: Result<(), RenderError>,
    before_two: Seq<Request>,
    after_two: Seq<Request>,
    done_two: Result<(), RenderError>,
)
    requires
        rendered(scene, options, before_one, after_one, done_one),
        rendered(scene, options, before_two, after_two, done_two),
    ensures
        ({
            let new_one = after_one.skip(before_one.len() as int);
            let new_two = after_two.skip(before_two.len() as int);
            &&& new_one.len() <= new_two.len() ==> asked(new_one) == asked(new_two).take(
                new_one.len() as int,
            )
            &&& !(done_one matches Err(RenderError::Io(_))) && !(done_two matches Err(
                RenderError::Io(_),
            )) ==> new_one == new_two && done_one == done_two
            &&& new_one == new_two ==> done_one == done_two
        }),
{
    let new_one = after_one.skip(before_one.len() as int);
    let new_two = after_two.skip(before_two.len() as int);
    if scene.lights.len() == 1 {
        let pixels = scene.camera.rays(options.canvas_width, options.canvas_height);
        let calls = frame_calls(
            scene.objects@,
            scene.lights[0].position(),
            pixels,
            options.canvas_height,
            pixels.len() as int,
        );
        lemma_record_of_pass(scene, options, before_one, after_one, done_one);
        lemma_record_of_pass(scene, options, before_two, after_two, done_two);
        if new_one.len() <= new_two.len() {
            assert(asked(new_one) == asked(new_two).take(new_one.len() as int));
        }
        if new_one == new_two {
            lemma_same_end(done_one, done_two);
        }
    } else {
        assert(after_one == before_one);
        assert(after_two == before_two);
        assert(new_one == new_two);
        assert(asked(new_one) == asked(new_two).take(new_one.len() as int));
        lemma_same_end(done_one, done_two);
    }
}

/// What a pass under one light adds to the record of its canvas: the
/// requests of the frame from the first on, all served but the last where
/// the pass ends with a refusal.
proof fn lemma_record_of_pass(
    scene: &Scene,
    options: &RenderOptions,
    before: Seq<Request>,
    after: Seq<Request>,
    done: Result<(), RenderError>,
)
    requires
        scene.lights.len() == 1,
        rendered(scene, options, before, after, done),
    ensures
        ({
            let pixels = scene.camera.rays(options.canvas_width, options.canvas_height);
            let calls = frame_calls(
                scene.objects@,
                scene.lights[0].position(),
                pixels,
                options.canvas_height,
                pixels.len() as int,
            );
            let added = after.skip(before.len() as int);
            &&& added.len() <= calls.len()
            &&& asked(added) == calls.take(added.len() as int)
            &&& match done {
                Err(RenderError::Io(reason)) => added.len() > 0 && added.last().answer == Err::<
                    (),
                    String,
                >(reason),
                _ => added == served(calls),
            }
        }),
{
    let pixels = scene.camera.rays(options.canvas_width, options.canvas_height);
    let calls = frame_calls(
        scene.objects@,
        scene.lights[0].position(),
        pixels,
        options.canvas_height,
        pixels.len() as int,
    );
    let added = after.skip(before.len() as int);
    match done {
        Err(RenderError::Io(reason)) => {
            let refused = after.len() - before.len() - 1;
            let record = served(calls.take(refused)).push(
                Request { call: calls[refused], answer: Err(reason) },
            );
            assert(added == record);
            assert(asked(added) == calls.take(added.len() as int));
        },
        _ => {
            assert(added == served(calls));
            assert(asked(added) == calls.take(added.len() as int));
        },
    }
}

proof fn lemma_same_end(one: Result<(), RenderError>, two: Result<(), RenderError>)
    requires
        one is Ok <==> two is Ok,
        one is Err && two is Err ==> one->Err_0 == two->Err_0,
    ensures
        one == two,
{
    match (one, two) {
        (Ok(first), Ok(second)) => {
            assert(first == second);
        },
        _ => {},
    }
}

} // verus!
