use parry2d_f64::math::Vector2;
use rnote_core::brush::{
    Action, Brush, BrushOptions, BrushStyle, PenEvent, RulerPlace, Senses,
};
use rnote_core::ruler::{
    angle_text, dial_ticks, edge_ticks, metric_steps_mm, pixel_steps, snap_angle_hysteretic,
    AngleCloseness, ArmTouch, Closeness, Place, Rgba8, RotationCenter, RulerConfig, RulerKind,
    SnapEdge, SnapRange, Tick, TickLength,
};

fn steps(px_per_mm: f64) -> (i64, Option<i64>, i64) {
    metric_steps_mm(
        &|step: i64| step as f64 * px_per_mm >= 3.0,
        &|step: i64| step as f64 * px_per_mm >= 36.0,
    )
}

#[test]
fn metric_steps_stay_readable() {
    // Zoomed in: millimeters, half centimeters in between and every centimeter labelled.
    assert_eq!(steps(4.0), (1, Some(5), 10));
    // Around 100% at 96 dpi a millimeter is 3.78 pixels.
    assert_eq!(steps(96.0 / 25.4), (1, Some(5), 10));
    // Zoomed out, the ticks and labels get further apart.
    assert_eq!(steps(1.0), (5, Some(10), 50));
    assert_eq!(steps(0.1), (50, Some(100), 500));

    for px_per_mm in [0.001, 0.05, 0.3, 2.0, 10.0, 100.0] {
        let (tick, medium, label) = steps(px_per_mm);
        assert_eq!(label % tick, 0);
        assert_eq!(label % 10, 0, "labels are whole centimeters");
        if let Some(medium) = medium {
            assert!(tick < medium && medium < label && label % medium == 0);
        }
    }
}

/// A tool of the given kind, with its long edge along the x axis through the anchor and its body
/// above.
struct Tool {
    config: RulerConfig,
    anchor: Vector2,
    size: f64,
    half_width: f64,
    arms: [f64; 2],
}

fn tool(kind: RulerKind) -> Tool {
    Tool {
        config: RulerConfig {
            visible: true,
            kind,
            ..RulerConfig::default()
        },
        anchor: Vector2::new(200.0, 150.0),
        size: 200.0,
        half_width: 60.0,
        arms: [0.0, 60.0],
    }
}

/// Distances as integers in the same order.
fn key(distance: f64) -> i64 {
    (distance * 1e6) as i64
}

impl Tool {
    fn hit_body(&self, pos: Vector2) -> bool {
        let rel = pos - self.anchor;
        let (along, up) = (rel.x, -rel.y);
        self.config.hit_body_window(Place {
            within_width: up.abs() <= self.half_width,
            above_base: up >= 0.0,
            below_legs: up + along.abs() <= self.size,
            within_radius: rel.length() <= self.size,
        })
    }

    fn arm_dir(&self, arm: usize) -> Vector2 {
        let rad = self.arms[arm].to_radians();
        Vector2::new(rad.cos(), -rad.sin())
    }

    fn handle(&self, arm: usize) -> Vector2 {
        self.anchor + (self.size + 30.0) * self.arm_dir(arm)
    }

    fn hit_handle(&self, pos: Vector2) -> Option<usize> {
        let handles = (0..2)
            .map(|arm| {
                let dist = (self.handle(arm) - pos).length();
                (dist <= 18.0).then_some(key(dist))
            })
            .collect();
        self.config.hit_protractor_handle_window(&handles)
    }

    fn hit_arm_by_touch(&self, pos: Vector2) -> Option<usize> {
        let arms = (0..2)
            .map(|arm| {
                let handle = (self.handle(arm) - pos).length();
                let rel = pos - self.anchor;
                let along = rel.dot(self.arm_dir(arm));
                let dist = (rel - along * self.arm_dir(arm)).length();
                ArmTouch {
                    handle: (handle <= 30.0).then_some(key(handle)),
                    arm: (along >= self.size * 0.25 && along <= self.size + 48.0 && dist <= 18.0)
                        .then_some(key(dist)),
                }
            })
            .collect();
        self.config.hit_protractor_arm_touch_window(&arms)
    }

    /// A point of a straight edge, and its direction.
    fn line(&self, edge: SnapEdge) -> (Vector2, Vector2) {
        let leg = |from: Vector2| {
            let top = self.anchor - Vector2::new(0.0, self.size);
            (from, (top - from).normalize())
        };
        match edge {
            SnapEdge::NormalSide => (self.anchor + Vector2::new(0.0, self.half_width), Vector2::X),
            SnapEdge::OtherSide => (self.anchor - Vector2::new(0.0, self.half_width), Vector2::X),
            SnapEdge::Base | SnapEdge::Arc => (self.anchor, Vector2::X),
            SnapEdge::LeftLeg => leg(self.anchor - Vector2::new(self.size, 0.0)),
            SnapEdge::RightLeg => leg(self.anchor + Vector2::new(self.size, 0.0)),
            SnapEdge::Arm(arm) => (self.anchor, self.arm_dir(arm)),
        }
    }

    /// The closest point on an edge.
    fn project(&self, edge: SnapEdge, pos: Vector2) -> Vector2 {
        if edge == SnapEdge::Arc {
            return self.anchor + (pos - self.anchor).normalize() * self.size;
        }
        let (point, dir) = self.line(edge);
        point + (pos - point).dot(dir) * dir
    }

    /// The edge that is snapped to, and the position projected onto it.
    fn snap(&self, pos: Vector2) -> Option<(SnapEdge, Vector2)> {
        let snap_dist = 30.0;
        let closeness = self
            .config
            .snap_candidates()
            .into_iter()
            .map(|candidate| {
                let (point, dir) = self.line(candidate.edge);
                let along = if candidate.edge == SnapEdge::Arc {
                    self.anchor.y - pos.y
                } else {
                    (pos - point).dot(dir)
                };
                let within = |min: f64, max: f64| along >= min - snap_dist && along <= max + snap_dist;
                let distance = (self.project(candidate.edge, pos) - pos).length();
                Closeness {
                    in_range: match candidate.range {
                        SnapRange::Unlimited => true,
                        SnapRange::Base => within(-self.size, self.size),
                        SnapRange::Leg => within(0.0, self.size * std::f64::consts::SQRT_2),
                        SnapRange::Arc => within(0.0, self.size),
                        SnapRange::Arm => within(0.0, self.size + 48.0),
                    },
                    close: distance <= snap_dist,
                    distance: key(distance),
                }
            })
            .collect();
        self.config
            .snap_target(self.hit_body(pos), &closeness)
            .map(|edge| (edge, self.project(edge, pos)))
    }
}

/// The mapping between window and document coordinates, with the canvas offset inside the window.
#[derive(Clone, Copy)]
struct View {
    surface_origin: Vector2,
    total_zoom: f64,
}

impl View {
    const CAMERA_OFFSET: Vector2 = Vector2::new(40.0, 25.0);

    fn to_doc(self, window_pos: Vector2) -> Vector2 {
        (window_pos - self.surface_origin + Self::CAMERA_OFFSET) / self.total_zoom
    }

    fn from_doc(self, doc_pos: Vector2) -> Vector2 {
        doc_pos * self.total_zoom - Self::CAMERA_OFFSET + self.surface_origin
    }
}

#[test]
fn body_stays_under_the_same_screen_position() {
    let ruler = tool(RulerKind::Ruler);
    // 50 pixels below the centerline on screen is inside the 60 pixel half width, no matter the zoom
    // or where the canvas sits inside the window.
    let window_pos = ruler.anchor + Vector2::new(0.0, 50.0);

    for total_zoom in [0.2, 1.0, 6.0] {
        for surface_origin in [Vector2::ZERO, Vector2::new(180.0, 40.0)] {
            let view = View {
                surface_origin,
                total_zoom,
            };
            assert!(
                ruler.hit_body(view.from_doc(view.to_doc(window_pos))),
                "expected a hit at zoom {total_zoom} with origin {surface_origin:?}"
            );
        }
    }
}

#[test]
fn project_to_edge_lands_on_the_edge() {
    let ruler = tool(RulerKind::Ruler);
    let view = View {
        surface_origin: Vector2::new(120.0, 0.0),
        total_zoom: 2.5,
    };
    let pos_window = Vector2::new(320.0, 190.0);

    // A stroke that starts at the edge, and goes on over the body.
    let senses = Senses {
        handle_at: |_: Vector2| None,
        snap_target: |pos: Vector2| ruler.snap(view.from_doc(pos)).map(|s| s.0),
        on_ruler: |pos: Vector2| ruler.hit_body(view.from_doc(pos)),
        project: |pos: Vector2, edge: SnapEdge| {
            view.to_doc(ruler.project(edge, view.from_doc(pos)))
        },
        outside: |_: Vector2| false,
        moved: |_: Vector2, _: Vector2| false,
    };
    let place = RulerPlace {
        anchor: ruler.anchor,
        dial_pos: ruler.anchor,
    };
    let options = BrushOptions {
        style: BrushStyle::Solid,
        shape_recognition: true,
    };
    let mut brush: Brush<Vector2, SnapEdge> = Brush::default();
    let start = view.to_doc(pos_window + Vector2::new(0.0, 40.0));
    let _ = brush.handle_event(PenEvent::Down(start), &senses, place, options, 1);
    let pos = view.to_doc(pos_window);
    let outcome = brush.handle_event(PenEvent::Down(pos), &senses, place, options, 2);
    let Some(Action::Build(PenEvent::Down(projected))) = outcome.actions.last() else {
        panic!("the position was not passed on");
    };
    let projected = view.from_doc(*projected);

    // Keeps its position along the ruler, and sits exactly one half width off the centerline.
    assert!((projected.x - pos_window.x).abs() < 1e-9);
    assert!((projected.y - ruler.anchor.y - ruler.half_width).abs() < 1e-9);
}

#[test]
fn snap_zone_reaches_past_the_edge_in_screen_pixels() {
    let ruler = tool(RulerKind::Ruler);
    // The default snap distance is 25% of the full width, so the zone ends half a body half-width
    // past the edge: 60 + 30 = 90 pixels on screen.
    for total_zoom in [0.2, 1.0, 6.0] {
        let view = View {
            surface_origin: Vector2::new(180.0, 40.0),
            total_zoom,
        };
        // The side of the edge the stroke snaps to.
        let at = |offset: f64| {
            let pos = view.to_doc(ruler.anchor + Vector2::new(0.0, offset));
            ruler.snap(view.from_doc(pos)).map(|(edge, _)| match edge {
                SnapEdge::NormalSide => 1.0,
                SnapEdge::OtherSide => -1.0,
                _ => panic!("the ruler has no other edges"),
            })
        };

        assert_eq!(at(85.0), Some(1.0), "zoom {total_zoom}");
        assert_eq!(at(-85.0), Some(-1.0), "zoom {total_zoom}");
        assert_eq!(at(95.0), None, "zoom {total_zoom}");
        // On the body the ruler is dragged.
        assert_eq!(at(50.0), None);
    }
    assert!(ruler.hit_body(ruler.anchor + Vector2::new(0.0, 50.0)));
}

#[test]
fn set_square_body_and_edges() {
    let set_square = tool(RulerKind::SetSquare);
    let anchor = set_square.anchor;
    // The body is above the long edge.
    assert!(set_square.hit_body(anchor + Vector2::new(0.0, -100.0)));
    assert!(set_square.hit_body(anchor + Vector2::new(90.0, -100.0)));
    assert!(!set_square.hit_body(anchor + Vector2::new(110.0, -100.0)));
    assert!(!set_square.hit_body(anchor + Vector2::new(0.0, 10.0)));

    // Below the long edge it snaps to it, left of the right short edge to that.
    let snap = |pos: Vector2| set_square.snap(pos).map(|s| s.1);
    let on_long_edge = snap(anchor + Vector2::new(50.0, 20.0)).unwrap();
    assert!((on_long_edge - (anchor + Vector2::new(50.0, 0.0))).length() < 1e-9);
    let on_short_edge = snap(anchor + Vector2::new(115.0, -100.0)).unwrap();
    // The short edges run at 45°.
    let rel = on_short_edge - anchor;
    assert!((rel.x - rel.y - 200.0).abs() < 1e-9, "{rel:?}");
    // Far away there is nothing to snap to.
    assert_eq!(snap(anchor + Vector2::new(0.0, 200.0)), None);
    assert_eq!(snap(anchor + Vector2::new(400.0, 20.0)), None);
}

#[test]
fn protractor_arms_can_be_grabbed_by_touch() {
    let mut protractor = tool(RulerKind::Protractor);
    protractor.arms = [0.0, 90.0];
    let anchor = protractor.anchor;
    let up = Vector2::new(0.0, -1.0);

    // Next to the handle, where a pen would miss it.
    let near_handle = protractor.handle(1) + Vector2::new(24.0, 0.0);
    assert_eq!(protractor.hit_handle(near_handle), None);
    assert_eq!(protractor.hit_arm_by_touch(near_handle), Some(1));
    // Anywhere along the arm, but not at the center where both meet.
    let on_arm = anchor + up * 120.0 + Vector2::new(10.0, 0.0);
    assert_eq!(protractor.hit_arm_by_touch(on_arm), Some(1));
    assert_eq!(protractor.hit_arm_by_touch(anchor), None);
    // Away from the arms, the protractor itself is dragged.
    let rad = 45.0_f64.to_radians();
    let elsewhere = anchor + Vector2::new(rad.cos(), -rad.sin()) * 120.0;
    assert_eq!(protractor.hit_arm_by_touch(elsewhere), None);

    // Other rulers have no arms, nor do hidden ones.
    protractor.config.kind = RulerKind::SetSquare;
    assert_eq!(protractor.hit_arm_by_touch(on_arm), None);
    protractor.config.kind = RulerKind::Protractor;
    protractor.config.visible = false;
    assert_eq!(protractor.hit_arm_by_touch(on_arm), None);
    assert_eq!(protractor.hit_handle(protractor.handle(1)), None);
    assert!(!protractor.hit_body(on_arm));
    assert_eq!(protractor.snap(on_arm), None);
}

#[test]
fn protractor_arms_and_arc() {
    let mut protractor = tool(RulerKind::Protractor);
    let anchor = protractor.anchor;
    protractor.arms = [20.0, 60.0];

    // The handles can be grabbed.
    assert_eq!(protractor.hit_handle(protractor.handle(1)), Some(1));
    assert_eq!(protractor.hit_handle(anchor), None);

    // Inside the body strokes snap to the arms, outside to the arc.
    let near_arm = anchor + protractor.arm_dir(1) * 100.0 + Vector2::new(3.0, 0.0);
    assert!(protractor.hit_body(near_arm));
    assert_eq!(protractor.snap(near_arm).map(|s| s.0), Some(SnapEdge::Arm(1)));

    let near_arc = anchor + Vector2::new(0.0, -215.0);
    assert_eq!(protractor.snap(near_arc).map(|s| s.0), Some(SnapEdge::Arc));
    // Away from the arms, the body is dragged instead.
    let rad = 140.0_f64.to_radians();
    let inside = anchor + Vector2::new(rad.cos(), -rad.sin()) * 100.0;
    assert_eq!(protractor.snap(inside), None);
    assert!(protractor.hit_body(inside));
}

#[test]
fn the_nearest_handle_is_taken() {
    let config = tool(RulerKind::Protractor).config;
    assert_eq!(config.hit_protractor_handle_window(&vec![Some(7), Some(3)]), Some(1));
    assert_eq!(config.hit_protractor_handle_window(&vec![Some(3), Some(3)]), Some(0));
    assert_eq!(config.hit_protractor_handle_window(&vec![None, None]), None);
}

#[test]
fn rulers_turn_around_different_points() {
    let center = |kind| tool(kind).config.rotation_center();
    assert_eq!(center(RulerKind::Ruler), RotationCenter::Dial);
    assert_eq!(center(RulerKind::SetSquare), RotationCenter::Centroid);
    assert_eq!(center(RulerKind::Protractor), RotationCenter::Anchor);
}

#[test]
fn defaults() {
    let config = RulerConfig::default();
    assert!(!config.visible && config.angle_snap_enabled && config.show_dial);
    assert!(config.metric_scale);
    assert_eq!(config.kind, RulerKind::default());
    assert_eq!(RulerKind::default(), RulerKind::Ruler);
}

#[test]
fn colors_contrast_with_the_background() {
    let rgba = |v, a| Rgba8 { r: v, g: v, b: v, a };
    assert_eq!(RulerConfig::body_stroke_color(true), rgba(255, 220));
    assert_eq!(RulerConfig::body_stroke_color(false), rgba(0, 220));
    assert_eq!(RulerConfig::tick_color(true), rgba(255, 240));
    assert_eq!(RulerConfig::tick_color(false), rgba(0, 240));
    assert_eq!(RulerConfig::angle_text_color(true), rgba(255, 255));
    assert_eq!(RulerConfig::angle_text_color(false), rgba(0, 255));
    assert_eq!(RulerConfig::measurement_background_color(true), rgba(40, 230));
    assert_eq!(RulerConfig::measurement_background_color(false), rgba(255, 230));
}

#[test]
fn locked_angles_are_left_more_easily() {
    let target = |locked, within_enter, within_leave| AngleCloseness {
        locked,
        within_enter,
        within_leave,
    };
    // Close enough to enter.
    assert_eq!(snap_angle_hysteretic(&vec![target(false, true, false)]), Some(0));
    // The same distance is enough to leave.
    assert_eq!(snap_angle_hysteretic(&vec![target(true, true, false)]), None);
    assert_eq!(
        snap_angle_hysteretic(&vec![
            target(true, true, false),
            target(false, false, false),
            target(false, true, false),
            target(false, true, true),
        ]),
        Some(2)
    );
}

#[test]
fn ticks_of_the_edges() {
    let ticks = edge_ticks(-10, 5, (1, Some(5), 10), true).unwrap();
    assert_eq!(ticks.len(), 16);
    let tick = |index, length, label| Tick { index, length, label };
    assert_eq!(ticks[0], tick(-10, TickLength::Major, Some(1)));
    assert_eq!(ticks[1], tick(-9, TickLength::Minor, None));
    assert_eq!(ticks[5], tick(-5, TickLength::Medium, None));
    assert_eq!(ticks[10], tick(0, TickLength::Major, Some(0)));
    assert_eq!(ticks[15], tick(5, TickLength::Medium, None));

    let ticks = edge_ticks(9, 10, pixel_steps(), false).unwrap();
    assert_eq!(ticks, [tick(9, TickLength::Minor, None), tick(10, TickLength::Major, None)]);

    let ticks = edge_ticks(2, 2, (50, None, 100), true).unwrap();
    assert_eq!(ticks, [tick(2, TickLength::Major, Some(10))]);

    assert_eq!(edge_ticks(3, 2, (1, None, 10), true), Some(Vec::new()));
    assert_eq!(edge_ticks(0, 4097, (1, None, 10), true), None);
    assert_eq!(edge_ticks(0, 4096, (1, None, 10), true).unwrap().len(), 4097);
}

#[test]
fn ticks_of_the_dial() {
    let ticks = dial_ticks();
    assert_eq!(ticks.len(), 60);
    assert_eq!(ticks.iter().filter(|major| **major).count(), 12);
    assert!(ticks[0] && ticks[55] && !ticks[1] && !ticks[59]);
}

#[test]
fn angles_are_shown_with_at_most_one_decimal() {
    assert_eq!(angle_text(375, true, 38), "37.5°");
    assert_eq!(angle_text(-375, true, -38), "-37.5°");
    assert_eq!(angle_text(-3, true, 0), "-0.3°");
    // Turned by hand.
    assert_eq!(angle_text(123, false, 12), "12°");
    assert_eq!(angle_text(-3, false, 0), "0°");
    assert_eq!(angle_text(0, true, 0), "0°");
    // A quarter turn is positive.
    assert_eq!(angle_text(-900, true, -90), "90°");
    assert_eq!(angle_text(-899, false, -90), "90°");
    assert_eq!(angle_text(900, true, 90), "90°");
}
