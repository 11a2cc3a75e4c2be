use raytracer::{
    render, AnyLightObject, AnySceneObject, Color, DrawCall, DrawCanvas, Ray, RayEmitter,
    RenderError, RenderOptions, Request, Scene, SceneOptions, TextureEffects, Vec3,
};

/// An object that answers from a table: the rays that meet it, each with
/// the point where.
struct Table {
    hits: Vec<(Ray, Vec3)>,
    normal: Option<Vec3>,
    color: Color,
}

impl AnySceneObject for Table {
    fn collision(&self, ray: Ray) -> Option<Vec3> {
        self.hits.iter().find(|(known, _)| *known == ray).map(|(_, point)| *point)
    }

    fn normal(&self, _point: Vec3) -> Option<Vec3> {
        self.normal
    }

    fn color(&self, _point: Vec3) -> Color {
        self.color
    }

    fn surface_effects(&self) -> TextureEffects {
        PLAIN
    }

    fn color_at(&self, point: Vec3) -> Color {
        self.color(point)
    }

    fn check_collision(&self, ray: &Ray) -> Option<Vec3> {
        self.collision(*ray)
    }

    fn normal_at(&self, point: Vec3) -> Option<Vec3> {
        self.normal(point)
    }

    fn effects(&self) -> &TextureEffects {
        &PLAIN
    }
}

const PLAIN: TextureEffects = TextureEffects { mirror: None, transparency: None };

struct Lamp(Vec3);

impl AnyLightObject for Lamp {
    fn position(&self) -> Vec3 {
        self.0
    }

    fn source(&self) -> Vec3 {
        self.position()
    }
}

/// A camera that looks along the z axis: the ray of the pixel `(x, y)`
/// leaves `(x, y, 0)` in the direction `(0, 0, 1)`. Row after row, each from
/// the left.
struct Straight;

fn pixel_ray(x: u32, y: u32) -> Ray {
    Ray::new(Vec3::new(x as i32, y as i32, 0), Vec3::new(0, 0, 1))
}

impl RayEmitter for Straight {
    fn rays(&self, _width: u32, _height: u32) -> vstd::seq::Seq<(u32, u32, Ray)> {
        unreachable!()
    }

    fn generate_rays(&self, width: u32, height: u32) -> Vec<(u32, u32, Ray)> {
        let mut pixels = Vec::new();
        for y in 0..height {
            for x in 0..width {
                pixels.push((x, y, pixel_ray(x, y)));
            }
        }
        pixels
    }
}

/// A canvas that keeps every request, and refuses each request after the
/// first `room`.
struct Recorder {
    calls: Vec<DrawCall>,
    room: usize,
}

impl Recorder {
    fn new() -> Recorder {
        Recorder { calls: Vec::new(), room: usize::MAX }
    }

    fn with_room(room: usize) -> Recorder {
        Recorder { calls: Vec::new(), room }
    }
}

impl DrawCanvas for Recorder {
    fn history(&self) -> vstd::seq::Seq<Request> {
        unreachable!()
    }

    fn draw(&mut self, x: u32, y: u32, color: &Color) -> Result<(), String> {
        self.calls.push(DrawCall { x, y, color: *color });
        if self.calls.len() > self.room {
            Err(String::from("canvas full"))
        } else {
            Ok(())
        }
    }
}

const WHITE: Color = Color { red: 255, green: 255, blue: 255 };
const RED: Color = Color { red: 200, green: 0, blue: 0 };

fn scene(lights: Vec<Vec3>, objects: Vec<Table>) -> Scene {
    Scene {
        camera: Box::new(Straight),
        lights: lights
            .into_iter()
            .map(|at| Box::new(Lamp(at)) as Box<dyn AnyLightObject>)
            .collect(),
        objects: objects
            .into_iter()
            .map(|object| Box::new(object) as Box<dyn AnySceneObject>)
            .collect(),
        options: SceneOptions::default(),
    }
}

fn options(canvas_width: u32, canvas_height: u32) -> RenderOptions {
    RenderOptions { canvas_width, canvas_height }
}

/// A white floor at depth 10 under the pixels `(0, 0)` and `(1, 0)`, facing
/// the camera.
fn floor() -> Table {
    Table {
        hits: vec![
            (pixel_ray(0, 0), Vec3::new(0, 0, 10)),
            (pixel_ray(1, 0), Vec3::new(1, 0, 10)),
        ],
        normal: Some(Vec3::new(0, 0, -1)),
        color: WHITE,
    }
}

/// A red plate at depth 5 under the pixel `(1, 0)`, facing the camera.
fn plate() -> Table {
    Table {
        hits: vec![(pixel_ray(1, 0), Vec3::new(1, 0, 5))],
        normal: Some(Vec3::new(0, 0, -1)),
        color: RED,
    }
}

#[test]
fn no_light_is_a_configuration_error() {
    let mut canvas = Recorder::new();
    let done = render(&scene(vec![], vec![floor()]), &mut canvas, &options(2, 1));
    assert_eq!(done, Err(RenderError::Configuration));
    assert!(canvas.calls.is_empty());
}

#[test]
fn two_lights_are_unsupported() {
    let mut canvas = Recorder::new();
    let lights = vec![Vec3::new(0, 0, 0), Vec3::new(5, 5, 0)];
    let done = render(&scene(lights, vec![floor()]), &mut canvas, &options(2, 1));
    assert_eq!(done, Err(RenderError::UnsupportedFeature));
    assert!(canvas.calls.is_empty());
}

#[test]
fn three_lights_are_unsupported_too() {
    let mut canvas = Recorder::new();
    let lights = vec![Vec3::new(0, 0, 0), Vec3::new(5, 5, 0), Vec3::new(0, 0, 0)];
    let done = render(&scene(lights, vec![]), &mut canvas, &options(2, 1));
    assert_eq!(done, Err(RenderError::UnsupportedFeature));
    assert!(canvas.calls.is_empty());
}

#[test]
fn an_empty_scene_draws_nothing() {
    let mut canvas = Recorder::new();
    let done = render(&scene(vec![Vec3::new(0, 0, 0)], vec![]), &mut canvas, &options(4, 4));
    assert_eq!(done, Ok(()));
    assert!(canvas.calls.is_empty());
}

#[test]
fn a_ray_that_meets_nothing_draws_nothing() {
    let mut canvas = Recorder::new();
    // The floor lies under the first two pixels of the first row only.
    let done = render(&scene(vec![Vec3::new(0, 0, 0)], vec![floor()]), &mut canvas, &options(3, 2));
    assert_eq!(done, Ok(()));
    assert_eq!(canvas.calls.len(), 2);
    assert!(canvas.calls.iter().all(|call| call.x < 2 && call.y == 2));
}

#[test]
fn lit_pixels_are_drawn_in_camera_order() {
    let mut canvas = Recorder::new();
    // The light stands straight above (0, 0, 10), and at an angle to
    // (1, 0, 10): there the cosine is 10 / sqrt(101), or 0.995, and 255 times
    // that is 254 to the nearest.
    let done = render(&scene(vec![Vec3::new(0, 0, 0)], vec![floor()]), &mut canvas, &options(2, 3));
    assert_eq!(done, Ok(()));
    assert_eq!(
        canvas.calls,
        vec![
            DrawCall { x: 0, y: 3, color: WHITE },
            DrawCall { x: 1, y: 3, color: Color::new(254, 254, 254) },
        ]
    );
}

#[test]
fn one_object_one_light_one_call() {
    let mut canvas = Recorder::new();
    let ball = Table {
        hits: vec![(pixel_ray(0, 0), Vec3::new(0, 0, 7))],
        normal: Some(Vec3::new(1, 2, 2)),
        color: Color::new(255, 200, 100),
    };
    // From (0, 0, 7) the light at (2, 2, 8) lies in the direction (2, 2, 1):
    // the cosine with the normal is 8 / 9.
    let done = render(&scene(vec![Vec3::new(2, 2, 8)], vec![ball]), &mut canvas, &options(1, 1));
    assert_eq!(done, Ok(()));
    assert_eq!(canvas.calls, vec![DrawCall { x: 0, y: 1, color: Color::new(227, 178, 89) }]);
}

#[test]
fn a_light_behind_the_surface_draws_black() {
    let mut canvas = Recorder::new();
    let done = render(&scene(vec![Vec3::new(0, 0, 30)], vec![floor()]), &mut canvas, &options(1, 1));
    assert_eq!(done, Ok(()));
    assert_eq!(canvas.calls, vec![DrawCall { x: 0, y: 1, color: Color::black() }]);
}

#[test]
fn rows_are_counted_from_the_other_end() {
    let mut canvas = Recorder::new();
    let wall = Table {
        hits: vec![
            (pixel_ray(0, 0), Vec3::new(0, 0, 10)),
            (pixel_ray(2, 1), Vec3::new(2, 1, 10)),
            (pixel_ray(1, 4), Vec3::new(1, 4, 10)),
        ],
        normal: Some(Vec3::new(0, 0, -1)),
        color: WHITE,
    };
    let done = render(&scene(vec![Vec3::new(0, 0, 0)], vec![wall]), &mut canvas, &options(3, 5));
    assert_eq!(done, Ok(()));
    let places: Vec<(u32, u32)> = canvas.calls.iter().map(|call| (call.x, call.y)).collect();
    assert_eq!(places, vec![(0, 5), (2, 4), (1, 1)]);
}

#[test]
fn an_occluder_leaves_the_point_dark_and_is_drawn_itself() {
    let mut canvas = Recorder::new();
    let light = Vec3::new(4, 0, 2);
    // On the way from (0, 0, 10) to the light, the plate is met half-way.
    let mut plate = plate();
    plate.hits.push((Ray::new(Vec3::new(0, 0, 10), Vec3::new(4, 0, -8)), Vec3::new(2, 0, 6)));
    let done = render(&scene(vec![light], vec![floor(), plate]), &mut canvas, &options(2, 1));
    assert_eq!(done, Ok(()));
    // The plate's own point (1, 0, 5) sees the light in the direction
    // (3, 0, -3): a cosine of 0.7071, and 200 times that is 141 to the nearest.
    assert_eq!(canvas.calls, vec![DrawCall { x: 1, y: 1, color: Color::new(141, 0, 0) }]);
}

#[test]
fn a_light_across_the_grid_shines_from_where_it_is() {
    let mut canvas = Recorder::new();
    let edge = (1 << 30) - 1;
    let point = Vec3::new(-edge, -edge, 0);
    let light = Vec3::new(edge, 0, 0);
    let far = Table {
        hits: vec![(pixel_ray(0, 0), point)],
        normal: Some(Vec3::new(0, 1, 0)),
        color: Color::new(255, 200, 100),
    };
    // The light lies twice as far along x as along y: a cosine of
    // 1 / sqrt(5), or 0.4472.
    let done = render(&scene(vec![light], vec![far]), &mut canvas, &options(1, 1));
    assert_eq!(done, Ok(()));
    assert_eq!(canvas.calls, vec![DrawCall { x: 0, y: 1, color: Color::new(114, 89, 45) }]);
}

#[test]
fn an_occluder_across_the_grid_is_found() {
    let mut canvas = Recorder::new();
    let edge = (1 << 30) - 1;
    let point = Vec3::new(-edge, -edge, 0);
    let light = Vec3::new(edge, 0, 0);
    let far = Table {
        hits: vec![(pixel_ray(0, 0), point)],
        normal: Some(Vec3::new(0, 1, 0)),
        color: WHITE,
    };
    let screen = Table {
        hits: vec![(Ray::new(point, Vec3::new(2 * edge, edge, 0)), Vec3::new(1, -edge / 2, 0))],
        normal: Some(Vec3::new(0, 1, 0)),
        color: RED,
    };
    let done = render(&scene(vec![light], vec![far, screen]), &mut canvas, &options(1, 1));
    assert_eq!(done, Ok(()));
    assert!(canvas.calls.is_empty());
}

#[test]
fn an_occluder_at_the_light_itself_still_hides_it() {
    let mut canvas = Recorder::new();
    let light = Vec3::new(4, 0, 2);
    let mut plate = plate();
    plate.hits.push((Ray::new(Vec3::new(0, 0, 10), Vec3::new(4, 0, -8)), light));
    let done = render(&scene(vec![light], vec![floor(), plate]), &mut canvas, &options(1, 1));
    assert_eq!(done, Ok(()));
    assert!(canvas.calls.is_empty());
}

#[test]
fn what_lies_beyond_the_light_casts_no_shadow() {
    let mut canvas = Recorder::new();
    let light = Vec3::new(4, 0, 2);
    let mut plate = plate();
    plate.hits.push((Ray::new(Vec3::new(0, 0, 10), Vec3::new(4, 0, -8)), Vec3::new(5, 0, 0)));
    let done = render(&scene(vec![light], vec![floor(), plate]), &mut canvas, &options(1, 1));
    assert_eq!(done, Ok(()));
    // The cosine of (4, 0, -8) with (0, 0, -1) is 0.8944.
    assert_eq!(canvas.calls, vec![DrawCall { x: 0, y: 1, color: Color::new(228, 228, 228) }]);
}

#[test]
fn an_object_casts_no_shadow_on_itself() {
    let mut canvas = Recorder::new();
    let light = Vec3::new(4, 0, 2);
    // The floor answers its own shadow ray, at the very point it leaves from.
    let mut floor = floor();
    floor.hits.push((Ray::new(Vec3::new(0, 0, 10), Vec3::new(4, 0, -8)), Vec3::new(0, 0, 10)));
    let done = render(&scene(vec![light], vec![floor]), &mut canvas, &options(1, 1));
    assert_eq!(done, Ok(()));
    assert_eq!(canvas.calls, vec![DrawCall { x: 0, y: 1, color: Color::new(228, 228, 228) }]);
}

#[test]
fn an_equal_object_in_another_place_does_cast_a_shadow() {
    let mut canvas = Recorder::new();
    let light = Vec3::new(4, 0, 2);
    let twin = || {
        let mut floor = floor();
        floor.hits.push((Ray::new(Vec3::new(0, 0, 10), Vec3::new(4, 0, -8)), Vec3::new(0, 0, 10)));
        floor
    };
    let done = render(&scene(vec![light], vec![twin(), twin()]), &mut canvas, &options(1, 1));
    assert_eq!(done, Ok(()));
    assert!(canvas.calls.is_empty());
}

#[test]
fn of_two_objects_at_one_distance_the_first_is_drawn() {
    let light = Vec3::new(0, 0, 0);
    let at = |color: Color| Table {
        hits: vec![(pixel_ray(0, 0), Vec3::new(0, 0, 10))],
        normal: Some(Vec3::new(0, 0, -1)),
        color,
    };
    let mut canvas = Recorder::new();
    let done = render(&scene(vec![light], vec![at(RED), at(WHITE)]), &mut canvas, &options(1, 1));
    assert_eq!(done, Ok(()));
    assert_eq!(canvas.calls, vec![DrawCall { x: 0, y: 1, color: RED }]);

    let mut canvas = Recorder::new();
    let done = render(&scene(vec![light], vec![at(WHITE), at(RED)]), &mut canvas, &options(1, 1));
    assert_eq!(done, Ok(()));
    assert_eq!(canvas.calls, vec![DrawCall { x: 0, y: 1, color: WHITE }]);
}

#[test]
fn the_nearer_object_is_drawn_whatever_its_place() {
    let light = Vec3::new(1, 0, 0);
    let mut canvas = Recorder::new();
    let done = render(&scene(vec![light], vec![floor(), plate()]), &mut canvas, &options(2, 1));
    assert_eq!(done, Ok(()));
    assert_eq!(canvas.calls.len(), 2);
    assert_eq!(canvas.calls[1], DrawCall { x: 1, y: 1, color: RED });

    let mut canvas = Recorder::new();
    let done = render(&scene(vec![light], vec![plate(), floor()]), &mut canvas, &options(2, 1));
    assert_eq!(done, Ok(()));
    assert_eq!(canvas.calls.len(), 2);
    assert_eq!(canvas.calls[1], DrawCall { x: 1, y: 1, color: RED });
}

#[test]
fn a_point_without_a_normal_stops_the_pass() {
    let mut canvas = Recorder::new();
    let bare = Table {
        hits: vec![(pixel_ray(1, 0), Vec3::new(1, 0, 5))],
        normal: None,
        color: RED,
    };
    let mut wide = floor();
    wide.hits.push((pixel_ray(2, 0), Vec3::new(2, 0, 10)));
    let done = render(&scene(vec![Vec3::new(0, 0, 0)], vec![wide, bare]), &mut canvas, &options(3, 1));
    assert_eq!(done, Err(RenderError::Geometry));
    // The pixel before it was drawn, the pixel after it was not.
    assert_eq!(canvas.calls, vec![DrawCall { x: 0, y: 1, color: WHITE }]);
}

#[test]
fn a_point_in_shadow_needs_no_normal() {
    let mut canvas = Recorder::new();
    let light = Vec3::new(4, 0, 2);
    let bare = Table {
        hits: vec![(pixel_ray(0, 0), Vec3::new(0, 0, 10))],
        normal: None,
        color: WHITE,
    };
    let screen = Table {
        hits: vec![(Ray::new(Vec3::new(0, 0, 10), Vec3::new(4, 0, -8)), Vec3::new(2, 0, 6))],
        normal: None,
        color: RED,
    };
    let done = render(&scene(vec![light], vec![bare, screen]), &mut canvas, &options(2, 2));
    assert_eq!(done, Ok(()));
    assert!(canvas.calls.is_empty());
}

#[test]
fn a_refusal_of_the_canvas_stops_the_pass() {
    let mut canvas = Recorder::with_room(1);
    let done = render(&scene(vec![Vec3::new(0, 0, 0)], vec![floor()]), &mut canvas, &options(2, 1));
    assert_eq!(done, Err(RenderError::Io(String::from("canvas full"))));
    assert_eq!(canvas.calls.len(), 2);

    let mut canvas = Recorder::with_room(0);
    let done = render(&scene(vec![Vec3::new(0, 0, 0)], vec![floor()]), &mut canvas, &options(2, 1));
    assert_eq!(done, Err(RenderError::Io(String::from("canvas full"))));
    assert_eq!(canvas.calls, vec![DrawCall { x: 0, y: 1, color: WHITE }]);
}

#[test]
fn a_second_pass_asks_for_the_same() {
    let light = Vec3::new(4, 0, 2);
    let scene = scene(vec![light], vec![floor(), plate()]);
    let mut first = Recorder::new();
    let mut second = Recorder::new();
    assert_eq!(render(&scene, &mut first, &options(2, 2)), Ok(()));
    assert_eq!(render(&scene, &mut second, &options(2, 2)), Ok(()));
    assert_eq!(first.calls.len(), 2);
    assert_eq!(first.calls, second.calls);
    // On a canvas that has been drawn on, the pass adds the same once more.
    assert_eq!(render(&scene, &mut second, &options(2, 2)), Ok(()));
    assert_eq!(second.calls[2..], first.calls[..]);
}

#[test]
fn errors_in_words() {
    assert_eq!(RenderError::Configuration.message(), "There is no light in the scene");
    assert_eq!(RenderError::UnsupportedFeature.message(), "Only one light is implemented for now");
    assert_eq!(RenderError::Geometry.message(), "No normal found");
    assert_eq!(RenderError::Io(String::from("disk full")).message(), "disk full");
}

#[test]
fn a_reason_of_the_canvas_becomes_an_error() {
    assert_eq!(
        RenderError::from(String::from("disk full")),
        RenderError::Io(String::from("disk full"))
    );
    assert_eq!(RenderError::from(String::new()), RenderError::Io(String::new()));
}

#[test]
fn no_place_is_drawn_twice() {
    let mut canvas = Recorder::new();
    let mut hits = Vec::new();
    for y in 0..3 {
        for x in 0..4 {
            hits.push((pixel_ray(x, y), Vec3::new(x as i32, y as i32, 10)));
        }
    }
    let wall = Table { hits, normal: Some(Vec3::new(0, 0, -1)), color: WHITE };
    let done = render(&scene(vec![Vec3::new(0, 0, 0)], vec![wall]), &mut canvas, &options(4, 3));
    assert_eq!(done, Ok(()));
    assert_eq!(canvas.calls.len(), 12);
    for (k, one) in canvas.calls.iter().enumerate() {
        for other in &canvas.calls[k + 1..] {
            assert!(one.x != other.x || one.y != other.y);
        }
        assert!(one.x < 4 && 1 <= one.y && one.y <= 3);
    }
}
