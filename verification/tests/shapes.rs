//! Strokes are recognized with floating point measurements, as an application makes them.

use parry2d_f64::glamx::DAffine2;
use parry2d_f64::math::Vector2;
use parry2d_f64::shape::Cuboid;
use rnote_core::brush::{
    hold_points, Action, Brush, BrushOptions, BrushStyle, BuilderProgress,
    BuilderResult, EventPropagation, Outcome, PenEvent, RulerPlace, Senses,
};
use rnote_core::shapes::{
    drop_repeats, first_min, last_max, loop_points, rdp, remove_flat_corners, RecognizedShape,
    StrokeMeasures, Tools,
};
use std::cell::{Cell, RefCell};
use std::f64::consts::TAU;

/// The maximum distance of the drawn points from a recognized straight shape, relative to the size
/// of the stroke.
const MAX_DEVIATION: f64 = 0.08;
/// The ends of a stroke closer than this, relative to its length, make it closed.
const CLOSED_GAP: f64 = 0.15;
/// The maximum mean deviation of the drawn points from a recognized ellipse, relative to its radii.
const MAX_ELLIPSE_ERROR: f64 = 0.07;
/// Ellipses with an axis ratio above this become circles.
const CIRCLE_RATIO: f64 = 0.85;
/// Lines and axes within this angle of horizontal or vertical are made horizontal or vertical.
const AXIS_SNAP_DEG: f64 = 5.0;
/// Quadrilaterals with all corners within this angle of a right angle become rectangles.
const RIGHT_ANGLE_TOLERANCE_DEG: f64 = 12.0;
/// Corners that turn less than this are left out.
const MIN_CORNER_TURN_DEG: f64 = 25.0;
/// The number of points closed strokes are resampled to, for fitting ellipses.
const RESAMPLE_COUNT: usize = 72;

#[derive(Debug, Clone)]
struct Ellipse {
    radii: Vector2,
    affine: DAffine2,
}

#[derive(Debug, Clone)]
struct Rectangle {
    cuboid: Cuboid,
    affine: DAffine2,
}

/// A clean shape.
#[derive(Debug, Clone)]
enum Shape {
    Line { start: Vector2, end: Vector2 },
    Polyline { start: Vector2, path: Vec<Vector2> },
    Ellipse(Ellipse),
    Rectangle(Rectangle),
    Polygon { start: Vector2, path: Vec<Vector2> },
}

/// Recognize a shape in the points of a freehand stroke.
///
/// Returns `None` when the stroke does not look like one of the shapes.
fn recognize(points: &[Vector2]) -> Option<Shape> {
    let size = Cell::new(0.0);
    let ellipse = RefCell::new(None);
    let rectangle = RefCell::new(None);
    let tools = Tools {
        same: |a: Vector2, b: Vector2| (a - b).length() < 1e-6,
        measure: |points: &Vec<Vector2>| {
            size.set(bounds_diagonal(points));
            measure(points)
        },
        resample: |points: &Vec<Vector2>| resample_closed(points, RESAMPLE_COUNT),
        round: |points: &Vec<Vector2>| {
            *ellipse.borrow_mut() = fit_ellipse(points);
            ellipse.borrow().is_some()
        },
        distances: |points: &Vec<Vector2>| distances_from_centroid(points),
        split: |points: &Vec<Vector2>, lo: usize, hi: usize| {
            farthest_between(points, lo, hi, MAX_DEVIATION * size.get())
        },
        flat: |prev: Vector2, corner: Vector2, next: Vector2| {
            (corner - prev).angle_to(next - corner).abs().to_degrees() < MIN_CORNER_TURN_DEG
        },
        right_angled: |corners: &Vec<Vector2>| {
            *rectangle.borrow_mut() = rectangle_from_corners(corners);
            rectangle.borrow().is_some()
        },
    };

    match rnote_core::shapes::recognize(&points.to_vec(), &tools)? {
        RecognizedShape::Line { start, end } => Some(Shape::Line {
            start,
            end: snap_line_end(start, end),
        }),
        RecognizedShape::Polyline { start, path } => Some(Shape::Polyline { start, path }),
        RecognizedShape::Polygon { start, path } => Some(Shape::Polygon { start, path }),
        RecognizedShape::Ellipse => ellipse.take().map(Shape::Ellipse),
        RecognizedShape::Rectangle { .. } => rectangle.take().map(Shape::Rectangle),
    }
}

/// An integer for each number, ordered as `f64::total_cmp` orders the numbers.
fn order_key(value: f64) -> i64 {
    let bits = value.to_bits() as i64;
    bits ^ (((bits >> 63) as u64) >> 1) as i64
}

fn measure(points: &[Vector2]) -> StrokeMeasures {
    let size = bounds_diagonal(points);
    let length = path_length(points);
    let (start, end) = (points[0], points[points.len() - 1]);
    StrokeMeasures {
        too_small: size < 1e-3,
        wide_gap: (start - end).length() > CLOSED_GAP * length,
        straight: points
            .iter()
            .all(|p| distance_to_segment(*p, start, end) <= MAX_DEVIATION * size),
    }
}

/// The point between two points that is farthest from the segment between them, if it is farther
/// than `epsilon`.
fn farthest_between(points: &[Vector2], lo: usize, hi: usize, epsilon: f64) -> Option<usize> {
    let distances = points[lo + 1..hi]
        .iter()
        .map(|p| distance_to_segment(*p, points[lo], points[hi]))
        .collect::<Vec<f64>>();
    let index = last_max(&distances.iter().map(|d| order_key(*d)).collect())?;
    if distances[index] <= epsilon {
        return None;
    }
    Some(lo + 1 + index)
}

fn distances_from_centroid(points: &[Vector2]) -> Vec<i64> {
    let centroid = points.iter().sum::<Vector2>() / points.len() as f64;
    points
        .iter()
        .map(|p| order_key((*p - centroid).length()))
        .collect()
}

/// Fit an ellipse along the principal axes of the points, which must be spread evenly along the
/// stroke. `None` if the points don't lie on it closely enough.
fn fit_ellipse(points: &[Vector2]) -> Option<Ellipse> {
    let n = points.len() as f64;
    let centroid = points.iter().sum::<Vector2>() / n;
    let (mut cxx, mut cyy, mut cxy) = (0.0, 0.0, 0.0);
    for p in points {
        let d = *p - centroid;
        cxx += d.x * d.x;
        cyy += d.y * d.y;
        cxy += d.x * d.y;
    }
    let angle = snap_axis_angle(0.5 * (2.0 * cxy).atan2(cxx - cyy));
    let (axis_u, axis_v) = axes(angle);

    // The extents along the axes, which hand drawn strokes follow more closely than their variance.
    let (min, max) = extents(points.iter().map(|p| {
        let d = *p - centroid;
        Vector2::new(d.dot(axis_u), d.dot(axis_v))
    }));
    let mut radii = (max - min) * 0.5;
    if radii.min_element() < 1e-3 {
        return None;
    }
    let local_center = (max + min) * 0.5;
    let center = centroid + local_center.x * axis_u + local_center.y * axis_v;

    let error = points
        .iter()
        .map(|p| {
            let d = *p - center;
            let local = Vector2::new(d.dot(axis_u), d.dot(axis_v));
            ((local / radii).length() - 1.0).abs()
        })
        .sum::<f64>()
        / n;
    if error > MAX_ELLIPSE_ERROR {
        return None;
    }

    let angle = if radii.min_element() / radii.max_element() >= CIRCLE_RATIO {
        radii = Vector2::splat((radii.x + radii.y) * 0.5);
        0.0
    } else {
        angle
    };
    Some(Ellipse {
        radii,
        affine: DAffine2::from_angle_translation(angle, center),
    })
}

/// A rectangle, if all corners are close to right angles. It is aligned to the average direction of
/// the edges.
fn rectangle_from_corners(corners: &[Vector2]) -> Option<Rectangle> {
    let n = corners.len();
    for i in 0..n {
        let (prev, corner, next) = (corners[(i + n - 1) % n], corners[i], corners[(i + 1) % n]);
        let angle = (prev - corner).angle_to(next - corner).abs().to_degrees();
        if (angle - 90.0).abs() > RIGHT_ANGLE_TOLERANCE_DEG {
            return None;
        }
    }

    // Average the edge directions, turned into the same quarter by quadrupling the angles.
    let sum = (0..n)
        .map(|i| {
            let edge = corners[(i + 1) % n] - corners[i];
            let angle = 4.0 * edge.y.atan2(edge.x);
            Vector2::new(angle.cos(), angle.sin()) * edge.length()
        })
        .sum::<Vector2>();
    let angle = snap_axis_angle(sum.y.atan2(sum.x) / 4.0);
    let (axis_u, axis_v) = axes(angle);

    let (min, max) = extents(
        corners
            .iter()
            .map(|corner| Vector2::new(corner.dot(axis_u), corner.dot(axis_v))),
    );
    let local_center = (max + min) * 0.5;
    Some(Rectangle {
        cuboid: Cuboid::new((max - min) * 0.5),
        affine: DAffine2::from_angle_translation(
            angle,
            local_center.x * axis_u + local_center.y * axis_v,
        ),
    })
}

/// The unit vectors along an angle and across it.
fn axes(angle: f64) -> (Vector2, Vector2) {
    (
        Vector2::new(angle.cos(), angle.sin()),
        Vector2::new(-angle.sin(), angle.cos()),
    )
}

/// The smallest and the largest coordinates.
fn extents(points: impl Iterator<Item = Vector2>) -> (Vector2, Vector2) {
    points.fold(
        (
            Vector2::splat(f64::INFINITY),
            Vector2::splat(f64::NEG_INFINITY),
        ),
        |(min, max), p| (min.min(p), max.max(p)),
    )
}

/// Snap an angle to horizontal or vertical when it is close to them.
fn snap_axis_angle(angle: f64) -> f64 {
    let quarter = std::f64::consts::FRAC_PI_2;
    let snapped = (angle / quarter).round() * quarter;
    if (angle - snapped).abs() <= AXIS_SNAP_DEG.to_radians() {
        snapped
    } else {
        angle
    }
}

/// The end of a line from `start` to `end`, made horizontal or vertical when it is close to.
fn snap_line_end(start: Vector2, end: Vector2) -> Vector2 {
    let d = end - start;
    let angle = snap_axis_angle(d.y.atan2(d.x));
    start + Vector2::new(angle.cos(), angle.sin()) * d.length()
}

/// Resample a closed stroke to `count` points evenly spread along it.
fn resample_closed(points: &[Vector2], count: usize) -> Vec<Vector2> {
    let mut closed = points.to_vec();
    closed.push(points[0]);
    let length = path_length(&closed);
    let step = length / count as f64;

    let mut resampled = Vec::with_capacity(count);
    let mut segment = 0;
    let mut segment_start = 0.0;
    for i in 0..count {
        let target = i as f64 * step;
        while segment < closed.len() - 2
            && segment_start + (closed[segment + 1] - closed[segment]).length() < target
        {
            segment_start += (closed[segment + 1] - closed[segment]).length();
            segment += 1;
        }
        let (a, b) = (closed[segment], closed[segment + 1]);
        let segment_length = (b - a).length();
        let t = if segment_length > 0.0 {
            ((target - segment_start) / segment_length).clamp(0.0, 1.0)
        } else {
            0.0
        };
        resampled.push(a + (b - a) * t);
    }
    resampled
}

fn distance_to_segment(p: Vector2, a: Vector2, b: Vector2) -> f64 {
    let ab = b - a;
    let len_sq = ab.length_squared();
    if len_sq < 1e-12 {
        return (p - a).length();
    }
    let t = ((p - a).dot(ab) / len_sq).clamp(0.0, 1.0);
    (p - (a + ab * t)).length()
}

fn path_length(points: &[Vector2]) -> f64 {
    points.windows(2).map(|w| (w[1] - w[0]).length()).sum()
}

fn bounds_diagonal(points: &[Vector2]) -> f64 {
    let (min, max) = extents(points.iter().copied());
    (max - min).length()
}

/// A little wobble, like a hand drawn stroke.
fn wobble(i: usize, amount: f64) -> Vector2 {
    let i = i as f64;
    Vector2::new((i * 1.7).sin(), (i * 2.3).cos()) * amount
}

/// Points along the corners, with a few points per edge and some wobble.
fn hand_drawn(corners: &[Vector2], closed: bool) -> Vec<Vector2> {
    let mut edges = corners.windows(2).map(|w| (w[0], w[1])).collect::<Vec<_>>();
    if closed {
        edges.push((corners[corners.len() - 1], corners[0]));
    }
    let mut points = Vec::new();
    for (a, b) in edges {
        for step in 0..20 {
            let t = step as f64 / 20.0;
            points.push(a + (b - a) * t + wobble(points.len(), 1.5));
        }
    }
    if !closed {
        points.push(corners[corners.len() - 1]);
    }
    points
}

fn ellipse_points(center: Vector2, radii: Vector2, angle: f64, sweep: f64) -> Vec<Vector2> {
    let rotation = DAffine2::from_angle_translation(angle, center);
    (0..80)
        .map(|i| {
            let t = sweep * i as f64 / 80.0;
            rotation.transform_point2(Vector2::new(t.cos(), t.sin()) * radii) + wobble(i, 1.5)
        })
        .collect()
}

#[test]
fn lines_snap_to_the_axes() {
    let points = hand_drawn(&[Vector2::new(0.0, 0.0), Vector2::new(200.0, 8.0)], false);
    let Some(Shape::Line { start, end }) = recognize(&points) else {
        panic!("no line");
    };
    assert!((end.y - start.y).abs() < 1e-9, "{start:?} {end:?}");

    // A clearly slanted line stays slanted.
    let points = hand_drawn(&[Vector2::new(0.0, 0.0), Vector2::new(200.0, 100.0)], false);
    let Some(Shape::Line { start, end }) = recognize(&points) else {
        panic!("no line");
    };
    assert!((end - Vector2::new(200.0, 100.0)).length() < 5.0);
}

#[test]
fn open_corners_become_polylines() {
    // An angle: two rays from a common vertex.
    let corners = [
        Vector2::new(200.0, 0.0),
        Vector2::new(0.0, 100.0),
        Vector2::new(200.0, 200.0),
    ];
    let Some(Shape::Polyline { path, .. }) = recognize(&hand_drawn(&corners, false)) else {
        panic!("no polyline");
    };
    assert_eq!(path.len(), 2);
    assert!((path[0] - corners[1]).length() < 10.0);
}

#[test]
fn circles_and_ellipses() {
    let circle = ellipse_points(
        Vector2::new(100.0, 100.0),
        Vector2::new(80.0, 76.0),
        0.3,
        TAU,
    );
    let Some(Shape::Ellipse(ellipse)) = recognize(&circle) else {
        panic!("no circle");
    };
    assert_eq!(ellipse.radii.x, ellipse.radii.y);
    assert!((ellipse.radii.x - 78.0).abs() < 5.0, "{ellipse:?}");

    let points = ellipse_points(Vector2::new(0.0, 0.0), Vector2::new(120.0, 50.0), 0.5, TAU);
    let Some(Shape::Ellipse(ellipse)) = recognize(&points) else {
        panic!("no ellipse");
    };
    assert!(
        (ellipse.radii.max_element() - 120.0).abs() < 8.0,
        "{ellipse:?}"
    );
    assert!(
        (ellipse.radii.min_element() - 50.0).abs() < 8.0,
        "{ellipse:?}"
    );

    // A stroke that is not quite closed still counts.
    let almost = ellipse_points(
        Vector2::new(0.0, 0.0),
        Vector2::new(90.0, 90.0),
        0.0,
        TAU * 0.93,
    );
    assert!(matches!(recognize(&almost), Some(Shape::Ellipse(_))));
}

#[test]
fn triangles_and_rectangles() {
    let triangle = [
        Vector2::new(0.0, 200.0),
        Vector2::new(100.0, 0.0),
        Vector2::new(220.0, 190.0),
    ];
    let Some(Shape::Polygon { path, .. }) = recognize(&hand_drawn(&triangle, true)) else {
        panic!("no triangle");
    };
    assert_eq!(path.len(), 2);

    // A slightly crooked rectangle is straightened.
    let rectangle = [
        Vector2::new(0.0, 0.0),
        Vector2::new(300.0, 6.0),
        Vector2::new(296.0, 150.0),
        Vector2::new(-3.0, 147.0),
    ];
    let Some(Shape::Rectangle(rect)) = recognize(&hand_drawn(&rectangle, true)) else {
        panic!("no rectangle");
    };
    assert!((rect.cuboid.half_extents.x - 150.0).abs() < 8.0, "{rect:?}");
    assert!((rect.cuboid.half_extents.y - 75.0).abs() < 8.0, "{rect:?}");
    // Close to horizontal, so it is axis aligned.
    assert!(rect.affine.matrix2.x_axis.y.abs() < 1e-9, "{rect:?}");

    let pentagon = (0..5)
        .map(|i| {
            let a = TAU * i as f64 / 5.0;
            Vector2::new(a.cos(), a.sin()) * 150.0
        })
        .collect::<Vec<_>>();
    let Some(Shape::Polygon { path, .. }) = recognize(&hand_drawn(&pentagon, true)) else {
        panic!("no pentagon");
    };
    assert_eq!(path.len(), 4);
}

#[test]
fn scribbles_are_not_shapes() {
    let scribble = (0..120)
        .map(|i| {
            let t = i as f64 * 0.35;
            Vector2::new(t * 12.0, (t * 3.1).sin() * 40.0 + (t * 1.3).cos() * 25.0)
        })
        .collect::<Vec<_>>();
    assert!(recognize(&scribble).is_none());
}

#[test]
fn flat_corners_are_left_out_one_after_the_other() {
    // Corners are flat when their number lies between those of their neighbours.
    let flat = |a: i32, b: i32, c: i32| (a < b && b < c) || (a > b && b > c);
    assert_eq!(remove_flat_corners(vec![1, 2, 3, 0, 5], false, &flat), [1, 3, 0, 5]);
    // On closed strokes the ends are looked at, too.
    assert_eq!(remove_flat_corners(vec![2, 9, 4, 7, 1], true, &flat), [9, 4, 7, 1]);
    assert_eq!(remove_flat_corners(vec![1, 2], true, &flat), [1, 2]);
}

#[test]
fn strokes_are_simplified_between_their_ends() {
    let points = vec![10, 11, 12, 13, 14];
    let none = |_: &Vec<i32>, _: usize, _: usize| None;
    assert_eq!(rdp(&points, &none), [10, 14]);
    let third = |_: &Vec<i32>, lo: usize, hi: usize| if lo < 3 && 3 < hi { Some(3) } else { None };
    assert_eq!(rdp(&points, &third), [10, 13, 14]);
    let all = |_: &Vec<i32>, lo: usize, _: usize| Some(lo + 1);
    assert_eq!(rdp(&points, &all), points);
    assert_eq!(rdp(&vec![7], &all), [7]);
    assert_eq!(rdp(&Vec::new(), &all), Vec::<i32>::new());

    assert_eq!(loop_points(&points, 3), [13, 14, 10, 11, 12, 13]);
    assert_eq!(drop_repeats(&vec![1, 1, 2, 2, 1], &|a: i32, b: i32| a == b), [1, 2, 1]);
    assert_eq!(drop_repeats(&Vec::new(), &|a: i32, b: i32| a == b), Vec::<i32>::new());
}

#[test]
fn extremes_of_equal_keys() {
    assert_eq!(last_max(&vec![1, 5, 3, 5, 2]), Some(3));
    assert_eq!(last_max(&Vec::new()), None);
    assert_eq!(first_min(&vec![None, Some(4), Some(2), Some(2)]), Some(2));
    assert_eq!(first_min(&vec![None, None]), None);
    assert!(order_key(-1.0) < order_key(-0.5));
    assert!(order_key(-0.0) < order_key(0.0));
    assert!(order_key(0.5) < order_key(2.0));
}

/// A stroke of the document.
#[derive(Debug, Clone)]
enum Stroke {
    Brush { start: Vector2, ends: Vec<Vector2> },
    Shape(Shape),
}

/// A document without a ruler that is drawn on, with a builder that passes on each point.
#[derive(Default)]
struct Canvas {
    brush: Brush<Vector2, ()>,
    strokes: Vec<(u64, Stroke)>,
    next_key: u64,
    pen: Option<Vector2>,
}

impl Canvas {
    fn perform(&mut self, outcome: Outcome<Vector2, ()>, mut shape: Option<Shape>) {
        for action in outcome.actions {
            match action {
                Action::InsertStroke { key, pos } => {
                    let stroke = Stroke::Brush {
                        start: pos,
                        ends: Vec::new(),
                    };
                    self.strokes.push((key, stroke));
                    self.next_key += 1;
                }
                Action::Build(event) => {
                    self.pen = match event {
                        PenEvent::Down(pos) | PenEvent::Up(pos) => Some(pos),
                        _ => None,
                    };
                }
                Action::ExtendStroke { key } => {
                    let pos = self.pen.unwrap();
                    for (other, stroke) in &mut self.strokes {
                        if let Stroke::Brush { ends, .. } = stroke {
                            if *other == key {
                                ends.push(pos);
                            }
                        }
                    }
                }
                Action::RemoveStroke { key } => self.strokes.retain(|(other, _)| *other != key),
                Action::InsertShape { key } => {
                    self.strokes.push((key, Stroke::Shape(shape.take().unwrap())));
                    self.next_key += 1;
                }
                _ => {}
            }
        }
    }

    fn handle_pen_event(&mut self, event: PenEvent<Vector2>) {
        let last = matches!(event, PenEvent::Up(_));
        let senses = Senses {
            handle_at: |_: Vector2| None,
            snap_target: |_: Vector2| None,
            on_ruler: |_: Vector2| false,
            project: |pos: Vector2, _: ()| pos,
            outside: |_: Vector2| false,
            moved: |pos: Vector2, hold_pos: Vector2| (pos - hold_pos).length() > 4.0,
        };
        let ruler = RulerPlace {
            anchor: Vector2::ZERO,
            dial_pos: Vector2::ZERO,
        };
        let options = BrushOptions {
            style: BrushStyle::Solid,
            shape_recognition: true,
        };
        let key = self.next_key;
        let outcome = self.brush.handle_event(event, &senses, ruler, options, key);
        let asks_builder = outcome.result.is_none();
        self.perform(outcome, None);
        if asks_builder {
            let answer = BuilderResult {
                handled: true,
                propagate: EventPropagation::Stop,
                progress: if last {
                    BuilderProgress::Finished(1)
                } else {
                    BuilderProgress::EmitContinue(1)
                },
            };
            let outcome = self.brush.handle_built(answer, options.style, true);
            self.perform(outcome, None);
        }
    }

    /// The pen was held still.
    fn handle_hold(&mut self) {
        let Some((key, hold_pos)) = self.brush.held_stroke() else {
            return;
        };
        let shape = self.strokes.iter().find_map(|(other, stroke)| match stroke {
            Stroke::Brush { start, ends } if *other == key => {
                recognize(&hold_points(*start, ends, hold_pos))
            }
            _ => None,
        });
        let next_key = self.next_key;
        let outcome = self.brush.handle_hold(shape.is_some(), next_key);
        self.perform(outcome, shape);
    }

    /// Draw a slightly wobbly, almost closed circle. Returns where the pen stopped.
    fn draw_circle(&mut self) -> Vector2 {
        let center = Vector2::new(300.0, 300.0);
        let mut pos = center;
        for i in 0..=60u64 {
            let t = TAU * 0.97 * i as f64 / 60.0;
            let wobble = Vector2::new((i as f64 * 1.7).sin(), (i as f64 * 2.3).cos()) * 2.0;
            pos = center + Vector2::new(t.cos(), t.sin()) * 100.0 + wobble;
            self.handle_pen_event(PenEvent::Down(pos));
        }
        pos
    }

    fn only_stroke(&self) -> Stroke {
        assert_eq!(self.strokes.len(), 1, "expected exactly one stroke");
        self.strokes[0].1.clone()
    }
}

#[test]
fn holding_the_pen_turns_the_stroke_into_a_shape() {
    let mut canvas = Canvas::default();
    let pos = canvas.draw_circle();
    canvas.handle_hold();
    canvas.handle_pen_event(PenEvent::Up(pos));

    let Stroke::Shape(shape) = canvas.only_stroke() else {
        panic!("the stroke was not replaced by a shape");
    };
    let Shape::Ellipse(ellipse) = shape else {
        panic!("not a circle: {shape:?}");
    };
    assert!((ellipse.radii.x - 100.0).abs() < 8.0, "{ellipse:?}");
    assert_eq!(ellipse.radii.x, ellipse.radii.y);
}

#[test]
fn without_holding_the_stroke_stays() {
    let mut canvas = Canvas::default();
    let pos = canvas.draw_circle();
    canvas.handle_pen_event(PenEvent::Up(pos));
    // A hold that arrives too late changes nothing.
    canvas.handle_hold();

    assert!(matches!(canvas.only_stroke(), Stroke::Brush { .. }));
}
