use rnote_core::brush::{
    hold_points, Action, Brush, BrushOptions, BrushState, BrushStyle, BuilderProgress,
    BuilderResult, EventPropagation, EventResult, Outcome, PenEvent, PenProgress, RulerPlace, Senses,
    Surroundings,
};

type Pos = (i32, i32);
type Edge = u8;

fn around() -> Surroundings<Pos, Edge> {
    Surroundings {
        handle: None,
        ruler_snap: None,
        on_ruler: false,
        projected: (0, 0),
        outside: false,
        moved: false,
        anchor: (5, 5),
        dial_pos: (6, 6),
    }
}

fn options() -> BrushOptions {
    BrushOptions {
        style: BrushStyle::Solid,
        shape_recognition: true,
    }
}

/// Hand an event to the brush, with senses that tell what is around.
fn handle(
    brush: &mut Brush<Pos, Edge>,
    event: PenEvent<Pos>,
    around: Surroundings<Pos, Edge>,
    options: BrushOptions,
    key: u64,
) -> Outcome<Pos, Edge> {
    let senses = Senses {
        handle_at: |_: Pos| around.handle,
        snap_target: |_: Pos| around.ruler_snap,
        on_ruler: |_: Pos| around.on_ruler,
        project: |_: Pos, _: Edge| around.projected,
        outside: |_: Pos| around.outside,
        moved: |_: Pos, _: Pos| around.moved,
    };
    let ruler = RulerPlace {
        anchor: around.anchor,
        dial_pos: around.dial_pos,
    };
    brush.handle_event(event, &senses, ruler, options, key)
}

/// Hand an event to the brush, with a ruler whose edges run along the x axis. An edge is snapped to
/// from up to ten pixels away.
fn handle_at_edges(
    brush: &mut Brush<Pos, Edge>,
    event: PenEvent<Pos>,
    edges: &[Edge],
) -> Outcome<Pos, Edge> {
    let senses = Senses {
        handle_at: |_: Pos| None,
        snap_target: |pos: Pos| {
            edges
                .iter()
                .copied()
                .find(|edge| (pos.1 - i32::from(*edge)).abs() <= 10)
        },
        on_ruler: |_: Pos| false,
        project: |pos: Pos, edge: Edge| (pos.0, i32::from(edge)),
        outside: |pos: Pos| pos.0 < 0,
        moved: |_: Pos, _: Pos| false,
    };
    let ruler = RulerPlace {
        anchor: (0, 0),
        dial_pos: (0, 0),
    };
    brush.handle_event(event, &senses, ruler, options(), 7)
}

fn names(outcome: &Outcome<Pos, Edge>) -> Vec<String> {
    outcome.actions.iter().map(|a| format!("{a:?}")).collect()
}

fn taken(progress: PenProgress) -> Option<EventResult> {
    Some(EventResult {
        handled: true,
        propagate: EventPropagation::Stop,
        progress,
    })
}

fn ignored(progress: PenProgress) -> Option<EventResult> {
    Some(EventResult {
        handled: false,
        propagate: EventPropagation::Proceed,
        progress,
    })
}

fn answer(progress: BuilderProgress) -> BuilderResult {
    BuilderResult {
        handled: true,
        propagate: EventPropagation::Stop,
        progress,
    }
}

fn drawing() -> Brush<Pos, Edge> {
    let mut brush = Brush::default();
    let outcome = handle(&mut brush, PenEvent::Down((1, 2)), around(), options(), 7);
    assert_eq!(outcome.result, taken(PenProgress::InProgress));
    brush
}

#[test]
fn strokes_start_where_the_pen_touches() {
    let mut brush: Brush<Pos, Edge> = Brush::default();
    let outcome = handle(&mut brush, PenEvent::Down((1, 2)), around(), options(), 7);
    assert_eq!(
        names(&outcome),
        [
            "TriggerBrushSound",
            "NewStyleSeeds",
            "InsertStroke { key: 7, pos: (1, 2) }",
            "RegenerateRendering { key: 7 }",
            "SetMeasurement(None)",
            "StartHoldTask",
            "StartBuilder { pos: (1, 2) }",
        ]
    );
    assert!(!outcome.redraw && !outcome.store_modified);
    assert_eq!(brush.held_stroke(), Some((7, (1, 2))));
    assert!(brush.has_bounds_on_doc());
    assert!(brush.draws_on_doc(BrushStyle::Textured));
    assert!(!brush.draws_on_doc(BrushStyle::Marker));

    // Too far outside.
    let mut brush: Brush<Pos, Edge> = Brush::default();
    let outside = Surroundings { outside: true, ..around() };
    let outcome = handle(&mut brush, PenEvent::Down((1, 2)), outside, options(), 7);
    assert_eq!(outcome.result, ignored(PenProgress::Idle));
    assert!(matches!(brush.state, BrushState::Idle));

    // In the air.
    let outcome = handle(&mut brush, PenEvent::Other, around(), options(), 7);
    assert_eq!(outcome.result, ignored(PenProgress::Idle));
}

#[test]
fn snapped_strokes_are_measured_and_stay_on_the_edge() {
    let mut brush: Brush<Pos, Edge> = Brush::default();
    let snapped = Surroundings {
        ruler_snap: Some(3),
        on_ruler: true,
        projected: (1, 0),
        ..around()
    };
    let marker = BrushOptions { style: BrushStyle::Marker, ..options() };
    let outcome = handle(&mut brush, PenEvent::Down((1, 2)), snapped, marker, 7);
    assert_eq!(
        names(&outcome),
        [
            "PlayMarkerSound",
            "NewStyleSeeds",
            "InsertStroke { key: 7, pos: (1, 0) }",
            "RegenerateRendering { key: 7 }",
            "SetMeasurement(Some(RulerMeasurement { start: (1, 0), end: (1, 0), target: 3 }))",
            "StartBuilder { pos: (1, 0) }",
        ]
    );
    // Strokes on the ruler are never turned into shapes.
    assert_eq!(brush.held_stroke(), None);
    let outcome = brush.handle_hold(true, 9);
    assert!(outcome.actions.is_empty());

    let moved = Surroundings { projected: (4, 0), moved: true, ruler_snap: None, ..around() };
    let outcome = handle(&mut brush, PenEvent::Down((4, 9)), moved, marker, 8);
    assert_eq!(names(&outcome), ["SetMeasurementEnd((4, 0))", "Build(Down((4, 0)))"]);
    assert_eq!(outcome.result, None);
    assert!(matches!(
        brush.state,
        BrushState::Drawing { ruler_snap: Some(3), current_stroke_key: 7, .. }
    ));
    let outcome = handle(&mut brush, PenEvent::Other, moved, marker, 8);
    assert_eq!(names(&outcome), ["Build(Other)"]);
    let outcome = handle(&mut brush, PenEvent::Up((4, 9)), moved, marker, 8);
    assert_eq!(names(&outcome), ["SetMeasurementEnd((4, 0))", "Build(Up((4, 0)))"]);
}

#[test]
fn strokes_stay_on_the_edge_they_started_at() {
    let edges = [20, 100];
    let mut brush: Brush<Pos, Edge> = Brush::default();
    let outcome = handle_at_edges(&mut brush, PenEvent::Down((1, 26)), &edges);
    assert!(names(&outcome).contains(&"InsertStroke { key: 7, pos: (1, 20) }".to_string()));
    // Neither far away nor next to another edge is it left.
    for pos in [(3, 22), (5, 60), (8, 100)] {
        let outcome = handle_at_edges(&mut brush, PenEvent::Down(pos), &edges);
        assert_eq!(
            names(&outcome),
            [
                format!("SetMeasurementEnd(({}, 20))", pos.0),
                format!("Build(Down(({}, 20)))", pos.0),
            ]
        );
    }
    // Not even when the ruler is hidden.
    let outcome = handle_at_edges(&mut brush, PenEvent::Up((9, 55)), &[]);
    assert_eq!(names(&outcome), ["SetMeasurementEnd((9, 20))", "Build(Up((9, 20)))"]);
}

#[test]
fn strokes_that_start_away_from_the_ruler_never_snap() {
    let edges = [20, 100];
    let mut brush: Brush<Pos, Edge> = Brush::default();
    let outcome = handle_at_edges(&mut brush, PenEvent::Down((1, 60)), &edges);
    assert!(names(&outcome).contains(&"InsertStroke { key: 7, pos: (1, 60) }".to_string()));
    let outcome = handle_at_edges(&mut brush, PenEvent::Down((3, 22)), &edges);
    assert_eq!(names(&outcome), ["Build(Down((3, 22)))"]);
    let outcome = handle_at_edges(&mut brush, PenEvent::Up((8, 100)), &edges);
    assert_eq!(names(&outcome), ["Build(Up((8, 100)))"]);
    // Whether a position is outside is decided once it is projected.
    let mut brush: Brush<Pos, Edge> = Brush::default();
    let outcome = handle_at_edges(&mut brush, PenEvent::Down((-1, 22)), &edges);
    assert_eq!(outcome.result, ignored(PenProgress::Idle));
}

#[test]
fn finished_strokes_get_their_style_and_are_recorded() {
    let end = [
        "ApplyStyle { key: 7 }",
        "UpdateGeometry { key: 7 }",
        "RegenerateRenderingThreaded { key: 7 }",
        "ResizeAutoexpand",
        "SetMeasurement(None)",
        "Record",
    ];
    let mut brush = drawing();
    let outcome = brush.handle_built(answer(BuilderProgress::Finished(0)), BrushStyle::Solid, true);
    assert_eq!(names(&outcome), end);
    assert_eq!(outcome.result, taken(PenProgress::Finished));
    assert!(outcome.store_modified);
    assert!(matches!(brush.state, BrushState::Idle));

    let mut brush = drawing();
    let outcome = handle(&mut brush, PenEvent::Cancel, around(), options(), 8);
    assert_eq!(names(&outcome), end);
    assert_eq!(outcome.result, taken(PenProgress::Finished));
    assert!(matches!(brush.state, BrushState::Idle));

    let mut brush = drawing();
    let outcome = brush.handle_built(answer(BuilderProgress::Finished(2)), BrushStyle::Solid, true);
    assert_eq!(
        names(&outcome)[..2],
        ["ExtendStroke { key: 7 }", "AppendRendering { key: 7, n_segments: 2 }"]
    );
}

#[test]
fn emitted_segments_are_added() {
    let mut brush = drawing();
    let outcome =
        brush.handle_built(answer(BuilderProgress::EmitContinue(3)), BrushStyle::Solid, true);
    assert_eq!(
        names(&outcome),
        [
            "TriggerBrushSound",
            "ExtendStroke { key: 7 }",
            "AppendRendering { key: 7, n_segments: 3 }",
        ]
    );
    assert!(outcome.store_modified);
    assert_eq!(outcome.result, taken(PenProgress::InProgress));

    // The marker makes no sound, and a stroke that is gone is not extended.
    let outcome =
        brush.handle_built(answer(BuilderProgress::EmitContinue(3)), BrushStyle::Marker, false);
    assert_eq!(names(&outcome), ["AppendRendering { key: 7, n_segments: 3 }"]);
    assert!(!outcome.store_modified);
    let outcome =
        brush.handle_built(answer(BuilderProgress::EmitContinue(0)), BrushStyle::Marker, true);
    assert!(outcome.actions.is_empty() && !outcome.store_modified);
    let outcome = brush.handle_built(answer(BuilderProgress::InProgress), BrushStyle::Solid, true);
    assert_eq!(names(&outcome), ["TriggerBrushSound"]);
}

#[test]
fn held_strokes_become_shapes() {
    let mut brush = drawing();
    // Moving noticeably restarts the hold.
    let moved = Surroundings { moved: true, ..around() };
    let outcome = handle(&mut brush, PenEvent::Down((9, 9)), moved, options(), 8);
    assert_eq!(names(&outcome), ["RestartHoldTask", "Build(Down((9, 9)))"]);
    assert_eq!(brush.held_stroke(), Some((7, (9, 9))));
    let outcome = handle(&mut brush, PenEvent::Down((9, 8)), around(), options(), 8);
    assert_eq!(names(&outcome), ["Build(Down((9, 8)))"]);
    assert_eq!(brush.held_stroke(), Some((7, (9, 9))));

    // Nothing recognized.
    let outcome = brush.handle_hold(false, 8);
    assert!(outcome.actions.is_empty() && !outcome.redraw);
    let outcome = brush.handle_hold(true, 8);
    assert_eq!(
        names(&outcome),
        [
            "RemoveStroke { key: 7 }",
            "InsertShape { key: 8 }",
            "RegenerateRendering { key: 8 }",
        ]
    );
    assert!(outcome.redraw && outcome.store_modified);
    assert!(!brush.has_bounds_on_doc());

    // The shape waits for the pen to be lifted.
    let outcome = handle(&mut brush, PenEvent::Down((1, 1)), around(), options(), 9);
    assert_eq!(outcome.result, taken(PenProgress::InProgress));
    let outcome = handle(&mut brush, PenEvent::Other, around(), options(), 9);
    assert_eq!(outcome.result, ignored(PenProgress::InProgress));
    let outcome = handle(&mut brush, PenEvent::Up((1, 1)), around(), options(), 9);
    assert_eq!(
        names(&outcome),
        [
            "UpdateGeometry { key: 8 }",
            "RegenerateRenderingThreaded { key: 8 }",
            "ResizeAutoexpand",
            "Record",
        ]
    );
    assert_eq!(outcome.result, taken(PenProgress::Finished));
    assert!(outcome.store_modified);

    // A hold that arrives too late changes nothing.
    let outcome = brush.handle_hold(true, 9);
    assert!(outcome.actions.is_empty() && !outcome.store_modified);
    assert!(matches!(brush.state, BrushState::Idle));
}

#[test]
fn without_shape_recognition_nothing_is_held() {
    let mut brush: Brush<Pos, Edge> = Brush::default();
    let off = BrushOptions { shape_recognition: false, ..options() };
    let outcome = handle(&mut brush, PenEvent::Down((1, 2)), around(), off, 7);
    assert!(!outcome.actions.iter().any(|a| matches!(a, Action::StartHoldTask)));
    assert_eq!(brush.held_stroke(), None);
}

#[test]
fn the_ruler_is_dragged() {
    let mut brush: Brush<Pos, Edge> = Brush::default();
    let on_ruler = Surroundings { on_ruler: true, ..around() };
    let outcome = handle(&mut brush, PenEvent::Down((1, 2)), on_ruler, options(), 7);
    assert!(outcome.redraw && outcome.actions.is_empty());
    let outcome = handle(&mut brush, PenEvent::Down((3, 4)), around(), options(), 7);
    assert_eq!(
        names(&outcome),
        ["MoveRuler { anchor_begin: (5, 5), dial_pos_begin: (6, 6), start_pos: (1, 2), pos: (3, 4) }"]
    );
    assert!(outcome.redraw);
    let outcome = handle(&mut brush, PenEvent::Other, around(), options(), 7);
    assert_eq!(outcome.result, ignored(PenProgress::InProgress));
    let outcome = handle(&mut brush, PenEvent::Up((3, 4)), around(), options(), 7);
    assert_eq!(outcome.result, taken(PenProgress::Finished));
    assert!(outcome.redraw && !outcome.store_modified);
    assert!(matches!(brush.state, BrushState::Idle));

    // A handle of the protractor comes first.
    let on_handle = Surroundings {
        handle: Some(1),
        ruler_snap: Some(2),
        on_ruler: true,
        ..around()
    };
    let _ = handle(&mut brush, PenEvent::Down((1, 2)), on_handle, options(), 7);
    let outcome = handle(&mut brush, PenEvent::Down((3, 4)), around(), options(), 7);
    assert_eq!(names(&outcome), ["TurnProtractorArm { arm: 1, pos: (3, 4) }"]);
    let outcome = handle(&mut brush, PenEvent::Cancel, around(), options(), 7);
    assert_eq!(outcome.result, taken(PenProgress::Finished));
    assert!(matches!(brush.state, BrushState::Idle));
}

#[test]
fn points_of_a_held_stroke() {
    assert_eq!(hold_points((0, 0), &vec![(1, 1), (2, 2)], (3, 3)), [(0, 0), (1, 1), (2, 2), (3, 3)]);
    assert_eq!(hold_points(1, &Vec::new(), 2), [1, 2]);
}
