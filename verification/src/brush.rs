//! The brush: what it does with the events of a pen.
//!
//! The brush itself only decides. What has to be known of the ruler and the document it asks for, and
//! what has to be done comes back as a list of actions. Positions and the edges of the ruler are
//! passed through as they are.

use vstd::prelude::*;

verus! {

/// The styles of brush strokes.
#[derive(Debug, Clone, Copy, PartialEq, Eq, Structural)]
pub enum BrushStyle {
    Marker,
    Solid,
    Textured,
}

/// Whether others get to see an event.
#[derive(Debug, Clone, Copy, PartialEq, Eq, Structural)]
pub enum EventPropagation {
    Proceed,
    Stop,
}

/// How far the pen is.
#[derive(Debug, Clone, Copy, PartialEq, Eq, Structural)]
pub enum PenProgress {
    Idle,
    InProgress,
    Finished,
}

/// What became of an event.
#[derive(Debug, Clone, Copy, PartialEq, Eq, Structural)]
pub struct EventResult {
    pub handled: bool,
    pub propagate: EventPropagation,
    pub progress: PenProgress,
}

/// An event of the pen.
#[derive(Debug, Clone, Copy)]
pub enum PenEvent<P> {
    /// The pen touches the document at a position.
    Down(P),
    /// The pen is lifted at a position.
    Up(P),
    Cancel,
    /// Pens in the air, keys and text.
    Other,
}

/// What the brush is doing. Strokes are referred to by keys.
#[derive(Debug, Clone, Copy)]
pub enum BrushState<P, T> {
    Idle,
    Drawing {
        current_stroke_key: u64,
        /// If the stroke started snapped to the ruler, the edge it locked to. All subsequent input
        /// is projected onto this edge for the duration of the stroke. `None` means the stroke
        /// started unsnapped and will never snap.
        ruler_snap: Option<T>,
        /// Whether holding the pen still recognizes a shape in the stroke. Not if shape recognition
        /// is off or the stroke snapped to the ruler.
        hold_armed: bool,
        /// Where the pen was when it last moved noticeably.
        hold_pos: P,
    },
    /// The stroke was replaced by a recognized shape, waiting for the pen to be lifted.
    Recognized { shape_key: u64 },
    DraggingRuler { anchor_begin: P, dial_pos_begin: P, start_pos: P },
    /// Turning an arm of the protractor.
    DraggingProtractorArm { arm: usize },
}

/// A stroke drawn along the ruler.
#[derive(Debug, Clone, Copy)]
pub struct RulerMeasurement<P, T> {
    pub start: P,
    pub end: P,
    /// The edge the stroke is drawn along.
    pub target: T,
}

/// What is known where the pen touches the document.
#[derive(Debug, Clone, Copy)]
pub struct Surroundings<P, T> {
    /// The handle of the protractor there, if there is one.
    pub handle: Option<usize>,
    /// The edge of the ruler that a stroke starting there snaps to.
    pub ruler_snap: Option<T>,
    /// Whether the ruler lies there.
    pub on_ruler: bool,
    /// The position, projected onto the edge that the stroke snaps to or has locked to.
    pub projected: P,
    /// Whether the projected position is too far outside the document.
    pub outside: bool,
    /// Whether the pen moved noticeably since it was last held still.
    pub moved: bool,
    /// Where the ruler is.
    pub anchor: P,
    pub dial_pos: P,
}

/// Where the ruler is.
#[derive(Debug, Clone, Copy)]
pub struct RulerPlace<P> {
    pub anchor: P,
    pub dial_pos: P,
}

/// How the brush asks what it has to know of the ruler and the document.
pub struct Senses<H, S, B, J, O, M> {
    /// The handle of the protractor at a position, if there is one.
    pub handle_at: H,
    /// The edge of the ruler that a stroke starting at a position snaps to.
    pub snap_target: S,
    /// Whether the ruler lies at a position.
    pub on_ruler: B,
    /// A position, projected onto an edge of the ruler.
    pub project: J,
    /// Whether a position is too far outside the document.
    pub outside: O,
    /// Whether a position is noticeably away from where the pen was last held still.
    pub moved: M,
}

/// Senses that can be asked about any position.
pub open spec fn senses_anything<
    P,
    T,
    H: Fn(P) -> Option<usize>,
    S: Fn(P) -> Option<T>,
    B: Fn(P) -> bool,
    J: Fn(P, T) -> P,
    O: Fn(P) -> bool,
    M: Fn(P, P) -> bool,
>(senses: Senses<H, S, B, J, O, M>) -> bool {
    &&& forall|pos: P| #[trigger] call_requires(senses.handle_at, (pos,))
    &&& forall|pos: P| #[trigger] call_requires(senses.snap_target, (pos,))
    &&& forall|pos: P| #[trigger] call_requires(senses.on_ruler, (pos,))
    &&& forall|pos: P, edge: T| #[trigger] call_requires(senses.project, (pos, edge))
    &&& forall|pos: P| #[trigger] call_requires(senses.outside, (pos,))
    &&& forall|pos: P, hold_pos: P| #[trigger] call_requires(senses.moved, (pos, hold_pos))
}

/// Whether `r` is the position, projected onto the edge if there is one.
pub open spec fn projects<P, T, J: Fn(P, T) -> P>(project: J, edge: Option<T>, pos: P, r: P) -> bool {
    match edge {
        Some(edge) => call_ensures(project, (pos, edge), r),
        None => r == pos,
    }
}

/// Whether `around` is what the senses tell of an event. Where a stroke starts they are asked which
/// edge it snaps to. While it is drawn, positions are projected onto the edge that it locked to.
pub open spec fn sensed<
    P,
    T,
    H: Fn(P) -> Option<usize>,
    S: Fn(P) -> Option<T>,
    B: Fn(P) -> bool,
    J: Fn(P, T) -> P,
    O: Fn(P) -> bool,
    M: Fn(P, P) -> bool,
>(
    senses: Senses<H, S, B, J, O, M>,
    ruler: RulerPlace<P>,
    state: BrushState<P, T>,
    event: PenEvent<P>,
    around: Surroundings<P, T>,
) -> bool {
    &&& around.anchor == ruler.anchor
    &&& around.dial_pos == ruler.dial_pos
    &&& match state {
        BrushState::Idle => match event {
            PenEvent::Down(pos) => {
                &&& call_ensures(senses.handle_at, (pos,), around.handle)
                &&& call_ensures(senses.snap_target, (pos,), around.ruler_snap)
                &&& call_ensures(senses.on_ruler, (pos,), around.on_ruler)
                &&& projects(senses.project, around.ruler_snap, pos, around.projected)
                &&& call_ensures(senses.outside, (around.projected,), around.outside)
            },
            _ => true,
        },
        BrushState::Drawing { ruler_snap, hold_pos, .. } => match event {
            PenEvent::Down(pos) => {
                &&& projects(senses.project, ruler_snap, pos, around.projected)
                &&& call_ensures(senses.moved, (pos, hold_pos), around.moved)
            },
            PenEvent::Up(pos) => projects(senses.project, ruler_snap, pos, around.projected),
            _ => true,
        },
        _ => true,
    }
}

/// The settings of the brush.
#[derive(Debug, Clone, Copy, PartialEq, Eq, Structural)]
pub struct BrushOptions {
    pub style: BrushStyle,
    pub shape_recognition: bool,
}

/// Something to be done.
#[derive(Debug, Clone, Copy)]
pub enum Action<P, T> {
    PlayMarkerSound,
    TriggerBrushSound,
    NewStyleSeeds,
    /// Insert a stroke that starts at a position, with the preview style, on the current layer.
    InsertStroke { key: u64, pos: P },
    RegenerateRendering { key: u64 },
    RegenerateRenderingThreaded { key: u64 },
    SetMeasurement(Option<RulerMeasurement<P, T>>),
    SetMeasurementEnd(P),
    StartHoldTask,
    /// Let the hold task wait again, with a new one if it fired already.
    RestartHoldTask,
    StartBuilder { pos: P },
    /// Hand the event to the builder of the path.
    Build(PenEvent<P>),
    MoveRuler { anchor_begin: P, dial_pos_begin: P, start_pos: P, pos: P },
    TurnProtractorArm { arm: usize, pos: P },
    /// Add what the builder emitted to the stroke.
    ExtendStroke { key: u64 },
    AppendRendering { key: u64, n_segments: usize },
    /// Give the stroke the style of the current options, in place of the preview style.
    ApplyStyle { key: u64 },
    UpdateGeometry { key: u64 },
    ResizeAutoexpand,
    Record,
    RemoveStroke { key: u64 },
    /// Insert the recognized shape, with the shape style, on the current layer.
    InsertShape { key: u64 },
}

/// What the builder of the path made of an event.
#[derive(Debug, Clone, Copy, PartialEq, Eq, Structural)]
pub enum BuilderProgress {
    InProgress,
    /// The builder emitted some segments.
    EmitContinue(usize),
    /// The path is complete, with the last segments.
    Finished(usize),
}

/// The answer of the builder of the path.
#[derive(Debug, Clone, Copy, PartialEq, Eq, Structural)]
pub struct BuilderResult {
    pub handled: bool,
    pub propagate: EventPropagation,
    pub progress: BuilderProgress,
}

/// What comes of an event.
#[derive(Debug)]
pub struct Outcome<P, T> {
    /// The result of the event, unless the builder of the path has to be asked for it.
    pub result: Option<EventResult>,
    pub redraw: bool,
    pub store_modified: bool,
    pub actions: Vec<Action<P, T>>,
}

/// The brush.
#[derive(Debug)]
pub struct Brush<P, T> {
    pub state: BrushState<P, T>,
}

/// Nothing was done with an event.
pub open spec fn ignored(progress: PenProgress) -> EventResult {
    EventResult { handled: false, propagate: EventPropagation::Proceed, progress }
}

/// The event was taken.
pub open spec fn taken(progress: PenProgress) -> EventResult {
    EventResult { handled: true, propagate: EventPropagation::Stop, progress }
}

/// What an outcome says, and the state that goes with it.
#[verifier::ext_equal]
pub struct Step<P, T> {
    pub state: BrushState<P, T>,
    pub result: Option<EventResult>,
    pub redraw: bool,
    pub store_modified: bool,
    pub actions: Seq<Action<P, T>>,
}

impl<P, T> Outcome<P, T> {
    /// The step that led to a state with this outcome.
    pub open spec fn step(&self, state: BrushState<P, T>) -> Step<P, T> {
        Step {
            state,
            result: self.result,
            redraw: self.redraw,
            store_modified: self.store_modified,
            actions: self.actions@,
        }
    }
}

/// A step that does nothing.
pub open spec fn nothing<P, T>(state: BrushState<P, T>, result: EventResult) -> Step<P, T> {
    Step { state, result: Some(result), redraw: false, store_modified: false, actions: Seq::empty() }
}

/// The pen touches the document. On a handle of the protractor it turns the arm, on the ruler where
/// it can't be drawn along it drags the ruler. Otherwise a stroke starts, unless that is too far
/// outside the document.
pub open spec fn touch<P, T>(
    pos: P,
    around: Surroundings<P, T>,
    options: BrushOptions,
    next_key: u64,
) -> Step<P, T> {
    if around.handle is Some {
        Step {
            state: BrushState::DraggingProtractorArm { arm: around.handle->0 },
            result: Some(taken(PenProgress::InProgress)),
            redraw: true,
            store_modified: false,
            actions: Seq::empty(),
        }
    } else if around.ruler_snap is None && around.on_ruler {
        Step {
            state: BrushState::DraggingRuler {
                anchor_begin: around.anchor,
                dial_pos_begin: around.dial_pos,
                start_pos: pos,
            },
            result: Some(taken(PenProgress::InProgress)),
            redraw: true,
            store_modified: false,
            actions: Seq::empty(),
        }
    } else if around.outside {
        nothing(BrushState::Idle, ignored(PenProgress::Idle))
    } else {
        start_stroke(
            if around.ruler_snap is Some {
                around.projected
            } else {
                pos
            },
            around.ruler_snap,
            options,
            next_key,
        )
    }
}

/// A stroke starts. Its length is shown if it is drawn along the ruler. Such strokes are straight
/// already, so no shape is recognized in them.
pub open spec fn start_stroke<P, T>(
    pos: P,
    ruler_snap: Option<T>,
    options: BrushOptions,
    key: u64,
) -> Step<P, T> {
    let hold_armed = options.shape_recognition && ruler_snap is None;
    let sound: Action<P, T> = if options.style == BrushStyle::Marker {
        Action::PlayMarkerSound
    } else {
        Action::TriggerBrushSound
    };
    let measurement = match ruler_snap {
        Some(target) => Some(RulerMeasurement { start: pos, end: pos, target }),
        None => None,
    };
    let inserted = seq![
        sound,
        Action::NewStyleSeeds,
        Action::InsertStroke { key, pos },
        Action::RegenerateRendering { key },
        Action::SetMeasurement(measurement),
    ];
    let held = if hold_armed {
        inserted.push(Action::StartHoldTask)
    } else {
        inserted
    };
    Step {
        state: BrushState::Drawing { current_stroke_key: key, ruler_snap, hold_armed, hold_pos: pos },
        result: Some(taken(PenProgress::InProgress)),
        redraw: false,
        store_modified: false,
        actions: held.push(Action::StartBuilder { pos }),
    }
}

/// The actions that end a stroke or a shape.
pub open spec fn finishing<P, T>(key: u64) -> Seq<Action<P, T>> {
    seq![
        Action::UpdateGeometry { key },
        Action::RegenerateRenderingThreaded { key },
        Action::ResizeAutoexpand,
    ]
}

/// A stroke ends: it gets its style, and no length is shown any more.
pub open spec fn end_stroke<P, T>(key: u64) -> Seq<Action<P, T>> {
    seq![Action::ApplyStyle { key }] + finishing(key) + seq![
        Action::SetMeasurement(None),
        Action::Record,
    ]
}

/// The pen draws: whenever it moves noticeably it has to be held still again, and on the ruler it
/// stays on the edge the stroke locked to.
pub open spec fn draw<P, T>(
    key: u64,
    ruler_snap: Option<T>,
    hold_armed: bool,
    hold_pos: P,
    event: PenEvent<P>,
    around: Surroundings<P, T>,
) -> Step<P, T> {
    let moved = hold_armed && event is Down && around.moved;
    let held = if moved {
        seq![Action::RestartHoldTask]
    } else {
        Seq::empty()
    };
    let projected = ruler_snap is Some && (event is Down || event is Up);
    let event_on_edge = if projected {
        match event {
            PenEvent::Down(_) => PenEvent::Down(around.projected),
            _ => PenEvent::Up(around.projected),
        }
    } else {
        event
    };
    let measured = if projected {
        held.push(Action::SetMeasurementEnd(around.projected))
    } else {
        held
    };
    Step {
        state: BrushState::Drawing {
            current_stroke_key: key,
            ruler_snap,
            hold_armed,
            hold_pos: match event {
                PenEvent::Down(pos) if moved => pos,
                _ => hold_pos,
            },
        },
        result: None,
        redraw: false,
        store_modified: false,
        actions: measured.push(Action::Build(event_on_edge)),
    }
}

impl<P, T> BrushState<P, T> {
    /// Strokes that snapped to the ruler are never turned into shapes.
    pub open spec fn wf(self) -> bool {
        self matches BrushState::Drawing { ruler_snap, hold_armed, .. } ==> hold_armed
            ==> ruler_snap is None
    }

    /// What the brush does with an event.
    pub open spec fn handled(
        self,
        event: PenEvent<P>,
        around: Surroundings<P, T>,
        options: BrushOptions,
        next_key: u64,
    ) -> Step<P, T> {
        match self {
            BrushState::Idle => match event {
                PenEvent::Down(pos) => touch(pos, around, options, next_key),
                _ => nothing(self, ignored(PenProgress::Idle)),
            },
            BrushState::DraggingRuler { anchor_begin, dial_pos_begin, start_pos } => match event {
                PenEvent::Down(pos) => dragged(
                    self,
                    Action::MoveRuler { anchor_begin, dial_pos_begin, start_pos, pos },
                ),
                PenEvent::Other => nothing(self, ignored(PenProgress::InProgress)),
                _ => released(),
            },
            BrushState::DraggingProtractorArm { arm } => match event {
                PenEvent::Down(pos) => dragged(self, Action::TurnProtractorArm { arm, pos }),
                PenEvent::Other => nothing(self, ignored(PenProgress::InProgress)),
                _ => released(),
            },
            BrushState::Recognized { shape_key } => match event {
                PenEvent::Down(_) => nothing(self, taken(PenProgress::InProgress)),
                PenEvent::Other => nothing(self, ignored(PenProgress::InProgress)),
                _ => Step {
                    state: BrushState::Idle,
                    result: Some(taken(PenProgress::Finished)),
                    redraw: false,
                    store_modified: true,
                    actions: finishing(shape_key).push(Action::Record),
                },
            },
            BrushState::Drawing { current_stroke_key, ruler_snap, hold_armed, hold_pos } => {
                match event {
                    PenEvent::Cancel => Step {
                        state: BrushState::Idle,
                        result: Some(taken(PenProgress::Finished)),
                        redraw: false,
                        store_modified: true,
                        actions: end_stroke(current_stroke_key),
                    },
                    _ => draw(current_stroke_key, ruler_snap, hold_armed, hold_pos, event, around),
                }
            },
        }
    }

    /// What the brush does with the answer of the builder of the path. Other states than drawing
    /// have no builder.
    pub open spec fn built(self, answer: BuilderResult, style: BrushStyle, found: bool) -> Step<P, T> {
        match self {
            BrushState::Drawing { current_stroke_key, .. } => {
                let key = current_stroke_key;
                let sound: Seq<Action<P, T>> = if style != BrushStyle::Marker {
                    seq![Action::TriggerBrushSound]
                } else {
                    Seq::empty()
                };
                let (state, progress, modified, actions) = match answer.progress {
                    BuilderProgress::InProgress => (self, PenProgress::InProgress, false, sound),
                    BuilderProgress::EmitContinue(n) => (
                        self,
                        PenProgress::InProgress,
                        n != 0 && found,
                        sound + emitted(key, n, found),
                    ),
                    BuilderProgress::Finished(n) => (
                        BrushState::Idle,
                        PenProgress::Finished,
                        true,
                        emitted(key, n, found) + end_stroke(key),
                    ),
                };
                Step {
                    state,
                    result: Some(
                        EventResult { handled: answer.handled, propagate: answer.propagate, progress },
                    ),
                    redraw: false,
                    store_modified: modified,
                    actions,
                }
            },
            _ => nothing(
                self,
                EventResult {
                    handled: answer.handled,
                    propagate: answer.propagate,
                    progress: PenProgress::InProgress,
                },
            ),
        }
    }

    /// What the brush does when the pen was held still: if a shape was recognized in the stroke, it
    /// replaces the stroke.
    pub open spec fn held(self, recognized: bool, shape_key: u64) -> Step<P, T> {
        match self {
            BrushState::Drawing { current_stroke_key, hold_armed, .. } if hold_armed
                && recognized => Step {
                state: BrushState::Recognized { shape_key },
                result: None,
                redraw: true,
                store_modified: true,
                actions: seq![
                    Action::RemoveStroke { key: current_stroke_key },
                    Action::InsertShape { key: shape_key },
                    Action::RegenerateRendering { key: shape_key },
                ],
            },
            _ => Step {
                state: self,
                result: None,
                redraw: false,
                store_modified: false,
                actions: Seq::empty(),
            },
        }
    }
}

impl<P, T> BrushState<P, T> {
    /// The stroke a shape is looked for when the pen was held still, and where the pen is.
    pub open spec fn waiting(self) -> Option<(u64, P)> {
        match self {
            BrushState::Drawing { current_stroke_key, hold_armed, hold_pos, .. } if hold_armed => Some(
                (current_stroke_key, hold_pos),
            ),
            _ => None,
        }
    }

    /// Whether the path that is being built has bounds on the document.
    pub open spec fn bounded(self) -> bool {
        self is Drawing
    }

    /// Whether the path that is being built is drawn on the document.
    pub open spec fn drawn(self, style: BrushStyle) -> bool {
        self is Drawing && style != BrushStyle::Marker
    }
}

/// Segments are added to a stroke. A stroke that is gone is not extended.
pub open spec fn emitted<P, T>(key: u64, n_segments: usize, found: bool) -> Seq<Action<P, T>> {
    if n_segments == 0 {
        Seq::empty()
    } else if found {
        seq![Action::ExtendStroke { key }, Action::AppendRendering { key, n_segments }]
    } else {
        seq![Action::AppendRendering { key, n_segments }]
    }
}

/// The ruler or one of its arms follows the pen.
pub open spec fn dragged<P, T>(state: BrushState<P, T>, action: Action<P, T>) -> Step<P, T> {
    Step {
        state,
        result: Some(taken(PenProgress::InProgress)),
        redraw: true,
        store_modified: false,
        actions: seq![action],
    }
}

/// The ruler is let go.
pub open spec fn released<P, T>() -> Step<P, T> {
    Step {
        state: BrushState::Idle,
        result: Some(taken(PenProgress::Finished)),
        redraw: true,
        store_modified: false,
        actions: Seq::empty(),
    }
}

fn ignore(progress: PenProgress) -> (r: EventResult)
    ensures
        r == ignored(progress),
{
    EventResult { handled: false, propagate: EventPropagation::Proceed, progress }
}

fn take(progress: PenProgress) -> (r: EventResult)
    ensures
        r == taken(progress),
{
    EventResult { handled: true, propagate: EventPropagation::Stop, progress }
}

fn quiet<P, T>(result: EventResult) -> (r: Outcome<P, T>)
    ensures
        forall|state: BrushState<P, T>| #[trigger] r.step(state) == nothing(state, result),
{
    let r = Outcome {
        result: Some(result),
        redraw: false,
        store_modified: false,
        actions: Vec::new(),
    };
    assert forall|state: BrushState<P, T>| #[trigger] r.step(state) == nothing(state, result) by {
        assert(r.step(state) =~= nothing(state, result));
    }
    r
}

fn push_finishing<P, T>(actions: &mut Vec<Action<P, T>>, key: u64)
    ensures
        final(actions)@ == old(actions)@ + finishing::<P, T>(key),
{
    actions.push(Action::UpdateGeometry { key });
    actions.push(Action::RegenerateRenderingThreaded { key });
    actions.push(Action::ResizeAutoexpand);
    assert(actions@ =~= old(actions)@ + finishing::<P, T>(key));
}

fn push_end_stroke<P, T>(actions: &mut Vec<Action<P, T>>, key: u64)
    ensures
        final(actions)@ == old(actions)@ + end_stroke::<P, T>(key),
{
    actions.push(Action::ApplyStyle { key });
    push_finishing(actions, key);
    actions.push(Action::SetMeasurement(None));
    actions.push(Action::Record);
    assert(actions@ =~= old(actions)@ + end_stroke::<P, T>(key));
}

fn push_emitted<P, T>(actions: &mut Vec<Action<P, T>>, key: u64, n_segments: usize, found: bool)
    ensures
        final(actions)@ == old(actions)@ + emitted::<P, T>(key, n_segments, found),
{
    if n_segments != 0 {
        if found {
            actions.push(Action::ExtendStroke { key });
        }
        actions.push(Action::AppendRendering { key, n_segments });
    }
    assert(actions@ =~= old(actions)@ + emitted::<P, T>(key, n_segments, found));
}

/// The position, projected onto the edge if there is one.
fn project_onto<P: Copy, T: Copy, J: Fn(P, T) -> P>(project: &J, edge: Option<T>, pos: P) -> (r: P)
    requires
        forall|pos: P, edge: T| #[trigger] call_requires(*project, (pos, edge)),
    ensures
        projects(*project, edge, pos, r),
{
    match edge {
        Some(edge) => project(pos, edge),
        None => pos,
    }
}

impl<P: Copy, T: Copy> Default for Brush<P, T> {
    fn default() -> (r: Self)
        ensures
            r.state is Idle,
    {
        Brush { state: BrushState::Idle }
    }
}

impl<P: Copy, T: Copy> Brush<P, T> {
    /// Handle an event of the pen. `next_key` is the key of the next stroke that is inserted.
    ///
    /// While drawing, the event ends with the builder of the path, whose answer is handled by
    /// [`Brush::handle_built`].
    pub fn handle_event<
        H: Fn(P) -> Option<usize>,
        S: Fn(P) -> Option<T>,
        B: Fn(P) -> bool,
        J: Fn(P, T) -> P,
        O: Fn(P) -> bool,
        M: Fn(P, P) -> bool,
    >(
        &mut self,
        event: PenEvent<P>,
        senses: &Senses<H, S, B, J, O, M>,
        ruler: RulerPlace<P>,
        options: BrushOptions,
        next_key: u64,
    ) -> (r: Outcome<P, T>)
        requires
            senses_anything::<P, T, H, S, B, J, O, M>(*senses),
        ensures
            exists|around: Surroundings<P, T>| #[trigger]
                sensed(*senses, ruler, old(self).state, event, around) && r.step(final(self).state)
                    == old(self).state.handled(event, around, options, next_key),
    {
        let around = self.sense(event, senses, ruler);
        assert(sensed(*senses, ruler, self.state, event, around));
        self.decide(event, around, options, next_key)
    }

    /// Ask the senses what has to be known for an event.
    fn sense<
        H: Fn(P) -> Option<usize>,
        S: Fn(P) -> Option<T>,
        B: Fn(P) -> bool,
        J: Fn(P, T) -> P,
        O: Fn(P) -> bool,
        M: Fn(P, P) -> bool,
    >(&self, event: PenEvent<P>, senses: &Senses<H, S, B, J, O, M>, ruler: RulerPlace<P>) -> (around:
        Surroundings<P, T>)
        requires
            senses_anything::<P, T, H, S, B, J, O, M>(*senses),
        ensures
            sensed(*senses, ruler, self.state, event, around),
    {
        let mut around: Surroundings<P, T> = Surroundings {
            handle: None,
            ruler_snap: None,
            on_ruler: false,
            projected: ruler.anchor,
            outside: false,
            moved: false,
            anchor: ruler.anchor,
            dial_pos: ruler.dial_pos,
        };
        match self.state {
            BrushState::Idle => {
                if let PenEvent::Down(pos) = event {
                    // Decide once at the start of the stroke whether to snap to the ruler. The
                    // decision is locked for the remainder of the stroke.
                    around.ruler_snap = (senses.snap_target)(pos);
                    around.handle = (senses.handle_at)(pos);
                    around.on_ruler = (senses.on_ruler)(pos);
                    around.projected = project_onto(&senses.project, around.ruler_snap, pos);
                    around.outside = (senses.outside)(around.projected);
                }
            },
            BrushState::Drawing { ruler_snap, hold_pos, .. } => match event {
                PenEvent::Down(pos) => {
                    around.projected = project_onto(&senses.project, ruler_snap, pos);
                    around.moved = (senses.moved)(pos, hold_pos);
                },
                PenEvent::Up(pos) => {
                    around.projected = project_onto(&senses.project, ruler_snap, pos);
                },
                _ => {},
            },
            _ => {},
        }
        around
    }

    /// Decide what to do with an event.
    fn decide(
        &mut self,
        event: PenEvent<P>,
        around: Surroundings<P, T>,
        options: BrushOptions,
        next_key: u64,
    ) -> (r: Outcome<P, T>)
        ensures
            r.step(final(self).state) == old(self).state.handled(event, around, options, next_key),
    {
        let ghost before = self.state;
        let ghost step = before.handled(event, around, options, next_key);
        match self.state {
            BrushState::Idle => match event {
                PenEvent::Down(pos) => self.handle_touch(pos, around, options, next_key),
                _ => quiet(ignore(PenProgress::Idle)),
            },
            BrushState::DraggingRuler { anchor_begin, dial_pos_begin, start_pos } => match event {
                PenEvent::Down(pos) => self.handle_drag(
                    Action::MoveRuler { anchor_begin, dial_pos_begin, start_pos, pos },
                ),
                PenEvent::Other => quiet(ignore(PenProgress::InProgress)),
                _ => self.handle_release(),
            },
            BrushState::DraggingProtractorArm { arm } => match event {
                PenEvent::Down(pos) => self.handle_drag(Action::TurnProtractorArm { arm, pos }),
                PenEvent::Other => quiet(ignore(PenProgress::InProgress)),
                _ => self.handle_release(),
            },
            BrushState::Recognized { shape_key } => match event {
                PenEvent::Down(_) => quiet(take(PenProgress::InProgress)),
                PenEvent::Other => quiet(ignore(PenProgress::InProgress)),
                _ => {
                    let mut actions: Vec<Action<P, T>> = Vec::new();
                    push_finishing(&mut actions, shape_key);
                    actions.push(Action::Record);
                    self.state = BrushState::Idle;
                    let r = Outcome {
                        result: Some(take(PenProgress::Finished)),
                        redraw: false,
                        store_modified: true,
                        actions,
                    };
                    assert(r.step(self.state) =~= step);
                    r
                },
            },
            BrushState::Drawing { current_stroke_key, ruler_snap, hold_armed, hold_pos } => {
                match event {
                    PenEvent::Cancel => {
                        let mut actions: Vec<Action<P, T>> = Vec::new();
                        push_end_stroke(&mut actions, current_stroke_key);
                        self.state = BrushState::Idle;
                        let r = Outcome {
                            result: Some(take(PenProgress::Finished)),
                            redraw: false,
                            store_modified: true,
                            actions,
                        };
                        assert(r.step(self.state) =~= step);
                        r
                    },
                    _ => self.handle_draw(event, around),
                }
            },
        }
    }

    /// The pen touches the document while the brush is idle.
    fn handle_touch(
        &mut self,
        pos: P,
        around: Surroundings<P, T>,
        options: BrushOptions,
        next_key: u64,
    ) -> (r: Outcome<P, T>)
        requires
            old(self).state is Idle,
        ensures
            r.step(final(self).state) == touch(pos, around, options, next_key),
    {
        let ghost step = touch(pos, around, options, next_key);
        // If the input lands on a protractor handle, turn its arm. Else if it lands on the ruler
        // body where it can't be drawn along, drag the ruler instead of drawing.
        let dragging: Option<BrushState<P, T>> = match around.handle {
            Some(arm) => Some(BrushState::DraggingProtractorArm { arm }),
            None => if around.ruler_snap.is_none() && around.on_ruler {
                Some(
                    BrushState::DraggingRuler {
                        anchor_begin: around.anchor,
                        dial_pos_begin: around.dial_pos,
                        start_pos: pos,
                    },
                )
            } else {
                None
            },
        };
        if let Some(dragging) = dragging {
            self.state = dragging;
            let r = Outcome {
                result: Some(take(PenProgress::InProgress)),
                redraw: true,
                store_modified: false,
                actions: Vec::new(),
            };
            assert(r.step(self.state) =~= step);
            return r;
        }
        if around.outside {
            return quiet(ignore(PenProgress::Idle));
        }
        let pos: P = match around.ruler_snap {
            Some(_) => around.projected,
            None => pos,
        };
        let mut actions: Vec<Action<P, T>> = Vec::new();
        if options.style == BrushStyle::Marker {
            actions.push(Action::PlayMarkerSound);
        } else {
            actions.push(Action::TriggerBrushSound);
        }
        actions.push(Action::NewStyleSeeds);
        actions.push(Action::InsertStroke { key: next_key, pos });
        actions.push(Action::RegenerateRendering { key: next_key });
        // Show the length of strokes drawn along the ruler.
        actions.push(
            Action::SetMeasurement(
                match around.ruler_snap {
                    Some(target) => Some(RulerMeasurement { start: pos, end: pos, target }),
                    None => None,
                },
            ),
        );
        // Strokes along the ruler are straight already.
        let hold_armed: bool = options.shape_recognition && around.ruler_snap.is_none();
        if hold_armed {
            actions.push(Action::StartHoldTask);
        }
        actions.push(Action::StartBuilder { pos });
        self.state = BrushState::Drawing {
            current_stroke_key: next_key,
            ruler_snap: around.ruler_snap,
            hold_armed,
            hold_pos: pos,
        };
        let r = Outcome {
            result: Some(take(PenProgress::InProgress)),
            redraw: false,
            store_modified: false,
            actions,
        };
        assert(r.step(self.state) =~= step);
        r
    }

    fn handle_drag(&mut self, action: Action<P, T>) -> (r: Outcome<P, T>)
        ensures
            r.step(final(self).state) == dragged(old(self).state, action),
    {
        let mut actions: Vec<Action<P, T>> = Vec::new();
        actions.push(action);
        let r = Outcome {
            result: Some(take(PenProgress::InProgress)),
            redraw: true,
            store_modified: false,
            actions,
        };
        assert(r.step(self.state) =~= dragged(self.state, action));
        r
    }

    fn handle_release(&mut self) -> (r: Outcome<P, T>)
        ensures
            r.step(final(self).state) == released::<P, T>(),
    {
        self.state = BrushState::Idle;
        let r = Outcome {
            result: Some(take(PenProgress::Finished)),
            redraw: true,
            store_modified: false,
            actions: Vec::new(),
        };
        assert(r.step(self.state) =~= released::<P, T>());
        r
    }

    /// The pen draws.
    fn handle_draw(&mut self, event: PenEvent<P>, around: Surroundings<P, T>) -> (r: Outcome<P, T>)
        requires
            old(self).state is Drawing,
        ensures
            r.step(final(self).state) == draw(
                old(self).state->current_stroke_key,
                old(self).state->ruler_snap,
                old(self).state->hold_armed,
                old(self).state->hold_pos,
                event,
                around,
            ),
    {
        let ghost before = self.state;
        let mut actions: Vec<Action<P, T>> = Vec::new();
        if let BrushState::Drawing { current_stroke_key, ruler_snap, hold_armed, hold_pos } =
            self.state {
            // Wait for the pen to be held still again whenever it moves noticeably.
            let mut new_hold_pos: P = hold_pos;
            if let PenEvent::Down(pos) = event {
                if hold_armed && around.moved {
                    new_hold_pos = pos;
                    actions.push(Action::RestartHoldTask);
                }
            }
            // If the stroke started snapped, every subsequent point is projected onto the same
            // edge, the stroke stays on the ruler until release.
            let mut event_on_edge: PenEvent<P> = event;
            if ruler_snap.is_some() {
                match event {
                    PenEvent::Down(_) => {
                        event_on_edge = PenEvent::Down(around.projected);
                        actions.push(Action::SetMeasurementEnd(around.projected));
                    },
                    PenEvent::Up(_) => {
                        event_on_edge = PenEvent::Up(around.projected);
                        actions.push(Action::SetMeasurementEnd(around.projected));
                    },
                    _ => {},
                }
            }
            actions.push(Action::Build(event_on_edge));
            self.state = BrushState::Drawing {
                current_stroke_key,
                ruler_snap,
                hold_armed,
                hold_pos: new_hold_pos,
            };
        }
        let r = Outcome { result: None, redraw: false, store_modified: false, actions };
        assert(r.step(self.state) =~= draw(
            before->current_stroke_key,
            before->ruler_snap,
            before->hold_armed,
            before->hold_pos,
            event,
            around,
        ));
        r
    }

    /// Handle the answer of the builder of the path. `found` tells whether the stroke is still
    /// there.
    pub fn handle_built(&mut self, answer: BuilderResult, style: BrushStyle, found: bool) -> (r:
        Outcome<P, T>)
        ensures
            r.step(final(self).state) == old(self).state.built(answer, style, found),
    {
        let ghost step = self.state.built(answer, style, found);
        match self.state {
            BrushState::Drawing { current_stroke_key, .. } => {
                let mut actions: Vec<Action<P, T>> = Vec::new();
                let mut store_modified: bool = false;
                let progress: PenProgress = match answer.progress {
                    BuilderProgress::InProgress => {
                        if style != BrushStyle::Marker {
                            actions.push(Action::TriggerBrushSound);
                        }
                        PenProgress::InProgress
                    },
                    BuilderProgress::EmitContinue(n) => {
                        if style != BrushStyle::Marker {
                            actions.push(Action::TriggerBrushSound);
                        }
                        push_emitted(&mut actions, current_stroke_key, n, found);
                        store_modified = n != 0 && found;
                        PenProgress::InProgress
                    },
                    BuilderProgress::Finished(n) => {
                        push_emitted(&mut actions, current_stroke_key, n, found);
                        push_end_stroke(&mut actions, current_stroke_key);
                        self.state = BrushState::Idle;
                        store_modified = true;
                        PenProgress::Finished
                    },
                };
                let r = Outcome {
                    result: Some(
                        EventResult { handled: answer.handled, propagate: answer.propagate, progress },
                    ),
                    redraw: false,
                    store_modified,
                    actions,
                };
                assert(r.step(self.state) =~= step);
                r
            },
            _ => quiet(
                EventResult {
                    handled: answer.handled,
                    propagate: answer.propagate,
                    progress: PenProgress::InProgress,
                },
            ),
        }
    }

    /// The stroke a shape is looked for when the pen was held still, and where the pen is.
    pub fn held_stroke(&self) -> (r: Option<(u64, P)>)
        ensures
            r == self.state.waiting(),
    {
        match self.state {
            BrushState::Drawing { current_stroke_key, hold_armed, hold_pos, .. } => if hold_armed {
                Some((current_stroke_key, hold_pos))
            } else {
                None
            },
            _ => None,
        }
    }

    /// The pen was held still while drawing: if a shape was recognized in the stroke drawn so far,
    /// replace the stroke with it. `shape_key` is the key of the next stroke that is inserted.
    pub fn handle_hold(&mut self, recognized: bool, shape_key: u64) -> (r: Outcome<P, T>)
        ensures
            r.step(final(self).state) == old(self).state.held(recognized, shape_key),
    {
        let ghost step = self.state.held(recognized, shape_key);
        let mut r: Outcome<P, T> = Outcome {
            result: None,
            redraw: false,
            store_modified: false,
            actions: Vec::new(),
        };
        if let BrushState::Drawing { current_stroke_key, hold_armed, .. } = self.state {
            if hold_armed && recognized {
                r.actions.push(Action::RemoveStroke { key: current_stroke_key });
                r.actions.push(Action::InsertShape { key: shape_key });
                r.actions.push(Action::RegenerateRendering { key: shape_key });
                self.state = BrushState::Recognized { shape_key };
                r.redraw = true;
                r.store_modified = true;
            }
        }
        assert(r.step(self.state) =~= step);
        r
    }

    /// Whether the path that is being built has bounds on the document.
    pub fn has_bounds_on_doc(&self) -> (r: bool)
        ensures
            r == self.state.bounded(),
    {
        match self.state {
            BrushState::Drawing { .. } => true,
            _ => false,
        }
    }

    /// Whether the path that is being built is drawn on the document. The marker is not, as the pen
    /// would render on top of other strokes, while the stroke itself would render underneath them.
    pub fn draws_on_doc(&self, style: BrushStyle) -> (r: bool)
        ensures
            r == self.state.drawn(style),
    {
        match self.state {
            BrushState::Drawing { .. } => style != BrushStyle::Marker,
            _ => false,
        }
    }
}

/// The points of a stroke with the given start and ends of segments, up to where the pen is held.
pub open spec fn points_until_held<P>(start: P, ends: Seq<P>, hold_pos: P) -> Seq<P> {
    seq![start] + ends + seq![hold_pos]
}

/// A shape is looked for in all points of the stroke, from its start to where the pen is held, in the
/// order in which they were drawn.
pub proof fn law_shapes_are_looked_for_in_the_whole_stroke<P>(
    start: P,
    ends: Seq<P>,
    hold_pos: P,
    k: int,
)
    requires
        0 <= k < ends.len(),
    ensures
        ({
            let points = points_until_held(start, ends, hold_pos);
            &&& points.len() == ends.len() + 2
            &&& points[0] == start
            &&& points[k + 1] == ends[k]
            &&& points.last() == hold_pos
        }),
{
}

/// The points of a stroke in which a shape is looked for. The builder may not have passed on the
/// last points to the stroke yet, the pen is still where it was held.
pub fn hold_points<P: Copy>(start: P, ends: &Vec<P>, hold_pos: P) -> (r: Vec<P>)
    ensures
        r@ == points_until_held(start, ends@, hold_pos),
        r@.len() == ends@.len() + 2,
        r@[0] == start,
        r@.last() == hold_pos,
        forall|k: int| 0 <= k < ends@.len() ==> #[trigger] r@[k + 1] == ends@[k],
{
    let mut points: Vec<P> = Vec::new();
    points.push(start);
    let mut k: usize = 0;
    assert(points@ =~= seq![start] + ends@.take(0));
    while k < ends.len()
        invariant
            k <= ends@.len(),
            points@ == seq![start] + ends@.take(k as int),
        decreases ends@.len() - k,
    {
        points.push(ends[k]);
        assert(points@ =~= seq![start] + ends@.take(k + 1));
        k += 1;
    }
    points.push(hold_pos);
    assert(points@ =~= seq![start] + ends@ + seq![hold_pos]);
    points
}

// ---------------------------------------------------------------------------------------------
// Laws

/// Strokes on the ruler are never turned into shapes, whatever happens.
pub proof fn law_snapped_strokes_stay_strokes<P, T>(
    state: BrushState<P, T>,
    event: PenEvent<P>,
    around: Surroundings<P, T>,
    options: BrushOptions,
    next_key: u64,
    answer: BuilderResult,
    found: bool,
    recognized: bool,
)
    requires
        state.wf(),
    ensures
        state.handled(event, around, options, next_key).state.wf(),
        state.built(answer, options.style, found).state.wf(),
        state.held(recognized, next_key).state.wf(),
        state matches BrushState::Drawing { ruler_snap, .. } ==> ruler_snap is Some ==> state.held(
            recognized,
            next_key,
        ).state == state,
{
}

/// Something that happens to the brush.
pub enum Happening<P, T> {
    Event { event: PenEvent<P>, around: Surroundings<P, T>, options: BrushOptions, next_key: u64 },
    Built { answer: BuilderResult, style: BrushStyle, found: bool },
    Held { recognized: bool, shape_key: u64 },
}

impl<P, T> BrushState<P, T> {
    /// The state after something happened.
    pub open spec fn after(self, happening: Happening<P, T>) -> BrushState<P, T> {
        match happening {
            Happening::Event { event, around, options, next_key } => self.handled(
                event,
                around,
                options,
                next_key,
            ).state,
            Happening::Built { answer, style, found } => self.built(answer, style, found).state,
            Happening::Held { recognized, shape_key } => self.held(recognized, shape_key).state,
        }
    }

    /// The state after several things happened.
    pub open spec fn after_all(self, happenings: Seq<Happening<P, T>>) -> BrushState<P, T>
        decreases happenings.len(),
    {
        if happenings.len() == 0 {
            self
        } else {
            self.after_all(happenings.drop_last()).after(happenings.last())
        }
    }

    /// Whether the same stroke is drawn all the time.
    pub open spec fn draws_through(self, happenings: Seq<Happening<P, T>>) -> bool {
        forall|k: int|
            0 <= k <= happenings.len() ==> (#[trigger] self.after_all(happenings.take(k))) is Drawing
    }
}

/// As long as a stroke is drawn, it keeps the edge that it locked to, whatever happens.
pub proof fn law_the_snap_stays_locked<P, T>(
    state: BrushState<P, T>,
    happenings: Seq<Happening<P, T>>,
)
    requires
        state.draws_through(happenings),
    ensures
        state.after_all(happenings) is Drawing,
        state.after_all(happenings)->ruler_snap == state->ruler_snap,
        state.after_all(happenings)->current_stroke_key == state->current_stroke_key,
    decreases happenings.len(),
{
    assert(happenings.take(happenings.len() as int) =~= happenings);
    assert(state.after_all(happenings.take(happenings.len() as int)) is Drawing);
    if happenings.len() > 0 {
        let rest = happenings.drop_last();
        assert forall|k: int| 0 <= k <= rest.len() implies (#[trigger] state.after_all(
            rest.take(k),
        )) is Drawing by {
            assert(rest.take(k) =~= happenings.take(k));
            assert(state.after_all(happenings.take(k)) is Drawing);
        }
        law_the_snap_stays_locked(state, rest);
    }
}

/// Whether a stroke is drawn along the ruler is decided once, where it starts at `start`: the edge it
/// locks to is the one that is snapped to there. However far the pen moves away from it later, the
/// builder and the measurement get the position projected onto that edge. A stroke that snapped to
/// nothing gets the position itself, wherever the pen moves. What can be sensed may have changed since
/// the stroke started.
pub proof fn law_snapped_strokes_stay_on_the_edge<
    P,
    T,
    H: Fn(P) -> Option<usize>,
    S: Fn(P) -> Option<T>,
    B: Fn(P) -> bool,
    J: Fn(P, T) -> P,
    O: Fn(P) -> bool,
    M: Fn(P, P) -> bool,
>(
    senses: Senses<H, S, B, J, O, M>,
    ruler: RulerPlace<P>,
    options: BrushOptions,
    next_key: u64,
    start: P,
    at_start: Surroundings<P, T>,
    happenings: Seq<Happening<P, T>>,
    later: Senses<H, S, B, J, O, M>,
    later_ruler: RulerPlace<P>,
    later_options: BrushOptions,
    later_key: u64,
    pos: P,
    up: bool,
    around: Surroundings<P, T>,
)
    requires
        sensed(senses, ruler, BrushState::Idle, PenEvent::Down(start), at_start),
        BrushState::Idle.handled(
            PenEvent::Down(start),
            at_start,
            options,
            next_key,
        ).state.draws_through(happenings),
        sensed(
            later,
            later_ruler,
            BrushState::Idle.handled(
                PenEvent::Down(start),
                at_start,
                options,
                next_key,
            ).state.after_all(happenings),
            pen_at(pos, up),
            around,
        ),
    ensures
        ({
            let first = BrushState::Idle.handled(
                PenEvent::Down(start),
                at_start,
                options,
                next_key,
            ).state;
            let state = first.after_all(happenings);
            let actions = state.handled(
                pen_at(pos, up),
                around,
                later_options,
                later_key,
            ).actions;
            &&& state is Drawing
            &&& call_ensures(senses.snap_target, (start,), state->ruler_snap)
            &&& match state->ruler_snap {
                Some(edge) => exists|landed: P| #[trigger]
                    call_ensures(later.project, (pos, edge), landed) && actions.last()
                        == Action::<P, T>::Build(pen_at(landed, up)) && actions.contains(
                        Action::SetMeasurementEnd(landed),
                    ),
                None => actions.last() == Action::<P, T>::Build(pen_at(pos, up)),
            }
        }),
{
    let first = BrushState::Idle.handled(
        PenEvent::Down(start),
        at_start,
        options,
        next_key,
    ).state;
    law_the_snap_stays_locked(first, happenings);
    assert(happenings.take(0) =~= Seq::<Happening<P, T>>::empty());
    assert(first.after_all(happenings.take(0)) is Drawing);
    let state = first.after_all(happenings);
    let actions = state.handled(pen_at(pos, up), around, later_options, later_key).actions;
    if state->ruler_snap is Some {
        assert(call_ensures(later.project, (pos, state->ruler_snap->0), around.projected));
        assert(actions[actions.len() - 2] == Action::<P, T>::SetMeasurementEnd(around.projected));
    }
}

/// The pen touches the document, or is lifted from it.
pub open spec fn pen_at<P>(pos: P, up: bool) -> PenEvent<P> {
    if up {
        PenEvent::Up(pos)
    } else {
        PenEvent::Down(pos)
    }
}

/// The progress that is reported goes with the state: the pen is in progress as long as the brush
/// is not idle, and when it is finished the brush is idle again.
pub proof fn law_the_progress_goes_with_the_state<P, T>(
    state: BrushState<P, T>,
    event: PenEvent<P>,
    around: Surroundings<P, T>,
    options: BrushOptions,
    next_key: u64,
)
    ensures
        ({
            let step = state.handled(event, around, options, next_key);
            match step.result {
                Some(result) => match result.progress {
                    PenProgress::Idle => state is Idle && step.state is Idle,
                    PenProgress::InProgress => step.state !is Idle,
                    PenProgress::Finished => state !is Idle && step.state is Idle,
                },
                None => state is Drawing && step.state is Drawing,
            }
        }),
{
}

/// Events that are not handled are left to others, and change nothing.
pub proof fn law_ignored_events_change_nothing<P, T>(
    state: BrushState<P, T>,
    event: PenEvent<P>,
    around: Surroundings<P, T>,
    options: BrushOptions,
    next_key: u64,
)
    ensures
        ({
            let step = state.handled(event, around, options, next_key);
            step.result matches Some(result) ==> {
                &&& result.handled == (result.propagate == EventPropagation::Stop)
                &&& !result.handled ==> step.state == state && step.actions == Seq::<
                    Action<P, T>,
                >::empty() && !step.redraw && !step.store_modified
            }
        }),
{
}

/// Lifting the pen or cancelling always ends what the brush is doing, apart from strokes, which end
/// when their builder is done.
pub proof fn law_lifting_the_pen_ends_everything<P, T>(
    state: BrushState<P, T>,
    event: PenEvent<P>,
    around: Surroundings<P, T>,
    options: BrushOptions,
    next_key: u64,
)
    requires
        event is Up || event is Cancel,
    ensures
        state !is Drawing ==> state.handled(event, around, options, next_key).state is Idle,
        event is Cancel ==> state.handled(event, around, options, next_key).state is Idle,
{
}

/// When a stroke or a shape is finished it is recorded, and no length is shown any more.
pub proof fn law_finished_strokes_are_recorded<P, T>(
    state: BrushState<P, T>,
    event: PenEvent<P>,
    around: Surroundings<P, T>,
    options: BrushOptions,
    next_key: u64,
    answer: BuilderResult,
    found: bool,
)
    ensures
        ({
            let step = state.handled(event, around, options, next_key);
            (state is Drawing || state is Recognized) && step.state is Idle ==> step.actions.last()
                == Action::<P, T>::Record && step.store_modified
        }),
        ({
            let step = state.handled(event, around, options, next_key);
            state is Drawing && step.state is Idle ==> step.actions.contains(
                Action::SetMeasurement(None),
            )
        }),
        ({
            let step = state.built(answer, options.style, found);
            state is Drawing && step.state is Idle ==> step.actions.last() == Action::<
                P,
                T,
            >::Record && step.store_modified && step.actions.contains(Action::SetMeasurement(None))
        }),
{
    let step = state.handled(event, around, options, next_key);
    if state is Drawing && step.state is Idle {
        assert(step.actions[step.actions.len() - 2] == Action::<P, T>::SetMeasurement(None));
    }
    let step = state.built(answer, options.style, found);
    if state is Drawing && step.state is Idle {
        assert(step.actions[step.actions.len() - 2] == Action::<P, T>::SetMeasurement(None));
    }
}

/// A hold that arrives when nothing is drawn changes nothing.
pub proof fn law_late_holds_change_nothing<P, T>(
    state: BrushState<P, T>,
    recognized: bool,
    shape_key: u64,
)
    requires
        state !is Drawing,
    ensures
        ({
            let step = state.held(recognized, shape_key);
            step.state == state && step.actions == Seq::<Action<P, T>>::empty() && !step.redraw
                && !step.store_modified
        }),
{
}

/// Where the pen touches the document while the brush is idle, what is there decides: a handle of the
/// protractor is turned, also where a stroke could snap. The ruler is dragged where it lies and no
/// edge is snapped to. Nothing happens where the position, projected onto the edge that is snapped to,
/// is too far outside. Otherwise a stroke starts there.
pub proof fn law_what_is_under_the_pen_decides<
    P,
    T,
    H: Fn(P) -> Option<usize>,
    S: Fn(P) -> Option<T>,
    B: Fn(P) -> bool,
    J: Fn(P, T) -> P,
    O: Fn(P) -> bool,
    M: Fn(P, P) -> bool,
>(
    senses: Senses<H, S, B, J, O, M>,
    ruler: RulerPlace<P>,
    pos: P,
    around: Surroundings<P, T>,
    options: BrushOptions,
    next_key: u64,
)
    requires
        sensed(senses, ruler, BrushState::Idle, PenEvent::Down(pos), around),
    ensures
        call_ensures(senses.handle_at, (pos,), around.handle),
        call_ensures(senses.snap_target, (pos,), around.ruler_snap),
        call_ensures(senses.on_ruler, (pos,), around.on_ruler),
        around.ruler_snap matches Some(edge) ==> call_ensures(
            senses.project,
            (pos, edge),
            around.projected,
        ),
        around.ruler_snap is None ==> around.projected == pos,
        call_ensures(senses.outside, (around.projected,), around.outside),
        ({
            let step = BrushState::Idle.handled(PenEvent::Down(pos), around, options, next_key);
            let drags = step.result == Some(
                EventResult {
                    handled: true,
                    propagate: EventPropagation::Stop,
                    progress: PenProgress::InProgress,
                },
            ) && step.redraw && !step.store_modified && step.actions.len() == 0;
            &&& around.handle matches Some(arm) ==> drags && step.state
                == BrushState::<P, T>::DraggingProtractorArm { arm }
            &&& around.handle is None && around.ruler_snap is None && around.on_ruler ==> drags
                && step.state == BrushState::<P, T>::DraggingRuler {
                anchor_begin: ruler.anchor,
                dial_pos_begin: ruler.dial_pos,
                start_pos: pos,
            }
            &&& around.handle is None && (around.ruler_snap is Some || !around.on_ruler) ==> {
                &&& step.state is Idle <==> around.outside
                &&& step.state is Drawing <==> !around.outside
                &&& around.outside ==> step.actions.len() == 0 && step.result == Some(
                    EventResult {
                        handled: false,
                        propagate: EventPropagation::Proceed,
                        progress: PenProgress::Idle,
                    },
                )
                &&& !around.outside ==> step.actions.last() == Action::<P, T>::StartBuilder {
                    pos: around.projected,
                } && step.state->hold_pos == around.projected && step.state->ruler_snap
                    == around.ruler_snap && step.state->current_stroke_key == next_key
            }
        }),
{
}

/// A stroke starts with one stroke inserted under the next key, where the pen touches the document or
/// on the edge that is snapped to. On an edge its length is shown, from there on. Without one it is
/// waited for the pen to be held still, if shapes are recognized. The marker sounds differently.
pub proof fn law_a_stroke_starts_where_it_is_put<P, T>(
    pos: P,
    around: Surroundings<P, T>,
    options: BrushOptions,
    next_key: u64,
)
    requires
        BrushState::Idle.handled(PenEvent::Down(pos), around, options, next_key).state is Drawing,
        around.ruler_snap is None ==> around.projected == pos,
    ensures
        ({
            let step = BrushState::Idle.handled(PenEvent::Down(pos), around, options, next_key);
            let armed = options.shape_recognition && around.ruler_snap is None;
            let measured: Option<RulerMeasurement<P, T>> = match around.ruler_snap {
                Some(target) => Some(
                    RulerMeasurement { start: around.projected, end: around.projected, target },
                ),
                None => None,
            };
            &&& step.result == Some(
                EventResult {
                    handled: true,
                    propagate: EventPropagation::Stop,
                    progress: PenProgress::InProgress,
                },
            )
            &&& step.state->hold_armed == armed
            &&& step.actions.contains(Action::NewStyleSeeds)
            &&& step.actions.contains(Action::RegenerateRendering { key: next_key })
            &&& step.actions.contains(Action::SetMeasurement(measured))
            &&& step.actions.contains(
                Action::InsertStroke { key: next_key, pos: around.projected },
            )
            &&& step.actions.contains(Action::StartHoldTask) <==> armed
            &&& step.actions.contains(Action::PlayMarkerSound) <==> options.style
                == BrushStyle::Marker
            &&& step.actions.contains(Action::TriggerBrushSound) <==> options.style
                != BrushStyle::Marker
            &&& step.actions.len() == if armed {
                7int
            } else {
                6
            }
        }),
{
    let step = BrushState::Idle.handled(PenEvent::Down(pos), around, options, next_key);
    assert(step.actions[0] == if options.style == BrushStyle::Marker {
        Action::<P, T>::PlayMarkerSound
    } else {
        Action::<P, T>::TriggerBrushSound
    });
    assert(step.actions[1] == Action::<P, T>::NewStyleSeeds);
    assert(step.actions[2] is InsertStroke);
    assert(step.actions[3] is RegenerateRendering);
    assert(step.actions[4] is SetMeasurement);
    if options.shape_recognition && around.ruler_snap is None {
        assert(step.actions[5] == Action::<P, T>::StartHoldTask);
    }
}

impl<P, T> BrushState<P, T> {
    /// Whether the ruler is dragged all the time.
    pub open spec fn drags_through(self, happenings: Seq<Happening<P, T>>) -> bool {
        forall|k: int|
            0 <= k <= happenings.len() ==> (#[trigger] self.after_all(
                happenings.take(k),
            )) is DraggingRuler
    }

    /// Whether an arm of the protractor is turned all the time.
    pub open spec fn turns_through(self, happenings: Seq<Happening<P, T>>) -> bool {
        forall|k: int|
            0 <= k <= happenings.len() ==> (#[trigger] self.after_all(
                happenings.take(k),
            )) is DraggingProtractorArm
    }
}

/// As long as the ruler is dragged or an arm is turned, it is remembered where this began.
proof fn lemma_drags_are_remembered<P, T>(state: BrushState<P, T>, happenings: Seq<Happening<P, T>>)
    requires
        state.drags_through(happenings) || state.turns_through(happenings),
    ensures
        state.after_all(happenings) == state,
        state.drags_through(happenings) ==> state is DraggingRuler,
        state.turns_through(happenings) ==> state is DraggingProtractorArm,
    decreases happenings.len(),
{
    let n = happenings.len() as int;
    assert(happenings.take(n) =~= happenings);
    assert(happenings.take(0) =~= Seq::<Happening<P, T>>::empty());
    assert(state.after_all(happenings.take(0)) == state);
    assert(state.after_all(happenings.take(n)) is DraggingRuler || state.after_all(
        happenings.take(n),
    ) is DraggingProtractorArm);
    if n > 0 {
        let rest = happenings.drop_last();
        assert forall|k: int| 0 <= k <= rest.len() implies (#[trigger] state.after_all(rest.take(k)))
            == state.after_all(happenings.take(k)) by {
            assert(rest.take(k) =~= happenings.take(k));
        }
        assert forall|k: int| 0 <= k <= rest.len() implies (state.drags_through(happenings) ==> (
        #[trigger] state.after_all(rest.take(k))) is DraggingRuler) && (state.turns_through(
            happenings,
        ) ==> state.after_all(rest.take(k)) is DraggingProtractorArm) by {
            assert(state.after_all(rest.take(k)) == state.after_all(happenings.take(k)));
        }
        if state.drags_through(happenings) {
            assert(state.drags_through(rest));
        } else {
            assert(state.turns_through(rest));
        }
        lemma_drags_are_remembered(state, rest);
    }
}

/// The ruler follows the pen: through any run of events in which it stays dragged, each position of
/// the pen moves it from where it was when the drag began, by the way from the first position of the
/// pen. What happens in between does not matter.
pub proof fn law_the_ruler_follows_the_pen<
    P,
    T,
    H: Fn(P) -> Option<usize>,
    S: Fn(P) -> Option<T>,
    B: Fn(P) -> bool,
    J: Fn(P, T) -> P,
    O: Fn(P) -> bool,
    M: Fn(P, P) -> bool,
>(
    senses: Senses<H, S, B, J, O, M>,
    ruler: RulerPlace<P>,
    options: BrushOptions,
    next_key: u64,
    start: P,
    at_start: Surroundings<P, T>,
    happenings: Seq<Happening<P, T>>,
    pos: P,
    around: Surroundings<P, T>,
    later_options: BrushOptions,
    later_key: u64,
)
    requires
        sensed(senses, ruler, BrushState::Idle, PenEvent::Down(start), at_start),
        BrushState::Idle.handled(
            PenEvent::Down(start),
            at_start,
            options,
            next_key,
        ).state.drags_through(happenings),
    ensures
        ({
            let first = BrushState::Idle.handled(
                PenEvent::Down(start),
                at_start,
                options,
                next_key,
            ).state;
            let state = first.after_all(happenings);
            let step = state.handled(PenEvent::Down(pos), around, later_options, later_key);
            &&& step.actions == seq![
                Action::<P, T>::MoveRuler {
                    anchor_begin: ruler.anchor,
                    dial_pos_begin: ruler.dial_pos,
                    start_pos: start,
                    pos,
                },
            ]
            &&& step.state is DraggingRuler
            &&& step.redraw && !step.store_modified
            &&& step.result == Some(
                EventResult {
                    handled: true,
                    propagate: EventPropagation::Stop,
                    progress: PenProgress::InProgress,
                },
            )
        }),
{
    let first = BrushState::Idle.handled(PenEvent::Down(start), at_start, options, next_key).state;
    lemma_drags_are_remembered(first, happenings);
}

/// The arm of the protractor that was grabbed follows the pen: through any run of events in which an
/// arm stays turned, each position of the pen turns that arm towards it.
pub proof fn law_the_arm_follows_the_pen<P, T>(
    options: BrushOptions,
    next_key: u64,
    start: P,
    at_start: Surroundings<P, T>,
    happenings: Seq<Happening<P, T>>,
    pos: P,
    around: Surroundings<P, T>,
    later_options: BrushOptions,
    later_key: u64,
)
    requires
        BrushState::Idle.handled(
            PenEvent::Down(start),
            at_start,
            options,
            next_key,
        ).state.turns_through(happenings),
    ensures
        ({
            let first = BrushState::Idle.handled(
                PenEvent::Down(start),
                at_start,
                options,
                next_key,
            ).state;
            let state = first.after_all(happenings);
            let step = state.handled(PenEvent::Down(pos), around, later_options, later_key);
            &&& at_start.handle matches Some(arm) && step.actions == seq![
                Action::<P, T>::TurnProtractorArm { arm, pos },
            ]
            &&& step.state is DraggingProtractorArm
            &&& step.redraw && !step.store_modified
            &&& step.result == Some(
                EventResult {
                    handled: true,
                    propagate: EventPropagation::Stop,
                    progress: PenProgress::InProgress,
                },
            )
        }),
{
    let first = BrushState::Idle.handled(PenEvent::Down(start), at_start, options, next_key).state;
    lemma_drags_are_remembered(first, happenings);
}

/// Letting go of the ruler, of an arm or of a recognized shape finishes it and is taken. Other input
/// in between is left to others. The ruler is drawn anew when it is let go.
pub proof fn law_letting_go_finishes<P, T>(
    state: BrushState<P, T>,
    event: PenEvent<P>,
    around: Surroundings<P, T>,
    options: BrushOptions,
    next_key: u64,
)
    requires
        state is DraggingRuler || state is DraggingProtractorArm || state is Recognized,
    ensures
        ({
            let step = state.handled(event, around, options, next_key);
            &&& event is Up || event is Cancel ==> {
                &&& step.state is Idle
                &&& step.result == Some(
                    EventResult {
                        handled: true,
                        propagate: EventPropagation::Stop,
                        progress: PenProgress::Finished,
                    },
                )
                &&& step.redraw == (state !is Recognized)
                &&& step.store_modified == (state is Recognized)
                &&& state !is Recognized ==> step.actions.len() == 0
            }
            &&& event is Other ==> step.state == state && step.actions.len() == 0 && !step.redraw
                && !step.store_modified && step.result == Some(
                EventResult {
                    handled: false,
                    propagate: EventPropagation::Proceed,
                    progress: PenProgress::InProgress,
                },
            )
            &&& event is Down && state is Recognized ==> step.state == state && step.actions.len() == 0
                && !step.redraw && !step.store_modified && step.result == Some(
                EventResult {
                    handled: true,
                    propagate: EventPropagation::Stop,
                    progress: PenProgress::InProgress,
                },
            )
        }),
{
}

/// While a stroke is drawn that a shape is looked for, it is remembered where the pen was when it last
/// moved noticeably, and whenever it does the wait for it to be held still begins again. Other strokes
/// and smaller moves leave the wait alone. The stroke stays the same, and each event is handed to the
/// builder once, as it is where no edge was snapped to.
pub proof fn law_noticeable_moves_begin_the_wait_again<
    P,
    T,
    H: Fn(P) -> Option<usize>,
    S: Fn(P) -> Option<T>,
    B: Fn(P) -> bool,
    J: Fn(P, T) -> P,
    O: Fn(P) -> bool,
    M: Fn(P, P) -> bool,
>(
    senses: Senses<H, S, B, J, O, M>,
    ruler: RulerPlace<P>,
    state: BrushState<P, T>,
    event: PenEvent<P>,
    around: Surroundings<P, T>,
    options: BrushOptions,
    next_key: u64,
)
    requires
        state is Drawing,
        event !is Cancel,
        sensed(senses, ruler, state, event, around),
    ensures
        ({
            let step = state.handled(event, around, options, next_key);
            let restarts = step.actions.contains(Action::RestartHoldTask);
            &&& step.state is Drawing
            &&& step.state->current_stroke_key == state->current_stroke_key
            &&& step.state->ruler_snap == state->ruler_snap
            &&& step.state->hold_armed == state->hold_armed
            &&& event matches PenEvent::Down(pos) ==> {
                &&& call_ensures(senses.moved, (pos, state->hold_pos), around.moved)
                &&& restarts <==> state->hold_armed && around.moved
                &&& restarts ==> step.state->hold_pos == pos
            }
            &&& event !is Down ==> !restarts
            &&& !restarts ==> step.state->hold_pos == state->hold_pos
            &&& step.actions.last() is Build
            &&& forall|k: int|
                0 <= k < step.actions.len() - 1 ==> !((#[trigger] step.actions[k]) is Build)
            &&& state->ruler_snap is None || event is Other ==> step.actions.last() == Action::<
                P,
                T,
            >::Build(event)
            &&& state->ruler_snap is Some && !restarts && event !is Other ==> step.actions.len() == 2
            &&& step.result is None && !step.redraw && !step.store_modified
        }),
{
    let step = state.handled(event, around, options, next_key);
    if event is Down && state->hold_armed && around.moved {
        assert(step.actions[0] == Action::<P, T>::RestartHoldTask);
    }
}

/// What the builder emits is added to the stroke that is drawn, as long as that is there, and shown.
/// While the path goes on nothing else happens apart from the sound. When the path is complete the
/// stroke gets its style, its geometry and its rendering are brought up to date, the document grows,
/// no length is shown any more and the stroke is recorded, in this order. The answer of the builder on
/// whether the event was handled is passed on.
pub proof fn law_what_is_built_is_added_to_the_stroke<P, T>(
    state: BrushState<P, T>,
    answer: BuilderResult,
    style: BrushStyle,
    found: bool,
)
    requires
        state is Drawing,
    ensures
        ({
            let step = state.built(answer, style, found);
            let key = state->current_stroke_key;
            let ends = answer.progress is Finished;
            let n: usize = match answer.progress {
                BuilderProgress::InProgress => 0,
                BuilderProgress::EmitContinue(n) => n,
                BuilderProgress::Finished(n) => n,
            };
            &&& step.result == Some(
                EventResult {
                    handled: answer.handled,
                    propagate: answer.propagate,
                    progress: if ends {
                        PenProgress::Finished
                    } else {
                        PenProgress::InProgress
                    },
                },
            )
            &&& ends ==> step.state is Idle
            &&& !ends ==> step.state == state
            &&& !step.redraw
            &&& step.store_modified == (ends || n != 0 && found)
            &&& step.actions.contains(Action::TriggerBrushSound) <==> !ends && style
                != BrushStyle::Marker
            &&& step.actions.contains(Action::ExtendStroke { key }) <==> n != 0 && found
            &&& step.actions.contains(Action::AppendRendering { key, n_segments: n }) <==> n != 0
            &&& !ends ==> step.actions.len() <= 3 && (step.actions.len() == 0 ==> style
                == BrushStyle::Marker && n == 0)
            &&& ends ==> step.actions.len() >= 6 && step.actions.skip(step.actions.len() - 6) == seq![
                Action::<P, T>::ApplyStyle { key },
                Action::UpdateGeometry { key },
                Action::RegenerateRenderingThreaded { key },
                Action::ResizeAutoexpand,
                Action::SetMeasurement(None),
                Action::Record,
            ]
            &&& forall|k: int|
                0 <= k < step.actions.len() ==> (#[trigger] step.actions[k] matches
                Action::AppendRendering { key: other, n_segments } ==> other == key && n_segments == n)
        }),
{
    let step = state.built(answer, style, found);
    let key = state->current_stroke_key;
    let n: usize = match answer.progress {
        BuilderProgress::InProgress => 0,
        BuilderProgress::EmitContinue(n) => n,
        BuilderProgress::Finished(n) => n,
    };
    let ends = answer.progress is Finished;
    let sounds: int = if !ends && style != BrushStyle::Marker {
        1
    } else {
        0
    };
    if sounds == 1 {
        assert(step.actions[0] == Action::<P, T>::TriggerBrushSound);
    }
    if n != 0 && found {
        assert(step.actions[sounds] == Action::<P, T>::ExtendStroke { key });
        assert(step.actions[sounds + 1] == Action::<P, T>::AppendRendering { key, n_segments: n });
    } else if n != 0 {
        assert(step.actions[sounds] == Action::<P, T>::AppendRendering { key, n_segments: n });
    }
    if ends {
        assert(step.actions.skip(step.actions.len() - 6) =~= seq![
            Action::<P, T>::ApplyStyle { key },
            Action::UpdateGeometry { key },
            Action::RegenerateRenderingThreaded { key },
            Action::ResizeAutoexpand,
            Action::SetMeasurement(None),
            Action::Record,
        ]);
    }
}

/// Cancelling a stroke ends it as completing it does, and a shape is finished like a stroke, but for
/// its style and its length.
pub proof fn law_cancelled_strokes_and_shapes_are_finished<P, T>(
    state: BrushState<P, T>,
    around: Surroundings<P, T>,
    options: BrushOptions,
    next_key: u64,
    answer: BuilderResult,
    event: PenEvent<P>,
)
    requires
        answer.progress == BuilderProgress::Finished(0),
    ensures
        state is Drawing ==> {
            let cancelled = state.handled(PenEvent::Cancel, around, options, next_key);
            let completed = state.built(answer, options.style, true);
            &&& cancelled.actions == completed.actions
            &&& cancelled.state == completed.state
            &&& cancelled.store_modified == completed.store_modified
            &&& cancelled.result == Some(
                EventResult {
                    handled: true,
                    propagate: EventPropagation::Stop,
                    progress: PenProgress::Finished,
                },
            )
        },
        (state matches BrushState::Recognized { shape_key } && (event is Up || event is Cancel)) ==> {
            let key = state->shape_key;
            state.handled(event, around, options, next_key).actions == seq![
                Action::<P, T>::UpdateGeometry { key },
                Action::RegenerateRenderingThreaded { key },
                Action::ResizeAutoexpand,
                Action::Record,
            ]
        },
{
    if state is Drawing {
        let cancelled = state.handled(PenEvent::Cancel, around, options, next_key);
        let completed = state.built(answer, options.style, true);
        assert(cancelled.actions =~= completed.actions);
    }
    if let BrushState::Recognized { shape_key } = state {
        if event is Up || event is Cancel {
            assert(state.handled(event, around, options, next_key).actions =~= seq![
                Action::<P, T>::UpdateGeometry { key: shape_key },
                Action::RegenerateRenderingThreaded { key: shape_key },
                Action::ResizeAutoexpand,
                Action::Record,
            ]);
        }
    }
}

/// A shape that was recognized replaces the stroke it was looked for in, under its own key, and then
/// waits for the pen to be lifted. It is looked for in the stroke that is drawn, with the pen where it
/// is held, exactly where such a replacement can come. Without a shape nothing changes.
pub proof fn law_a_recognized_shape_replaces_its_stroke<P, T>(
    state: BrushState<P, T>,
    recognized: bool,
    shape_key: u64,
)
    ensures
        ({
            let step = state.held(recognized, shape_key);
            let replaces = recognized && state.waiting() is Some;
            &&& replaces ==> {
                &&& step.actions == seq![
                    Action::<P, T>::RemoveStroke { key: state->current_stroke_key },
                    Action::InsertShape { key: shape_key },
                    Action::RegenerateRendering { key: shape_key },
                ]
                &&& step.state == BrushState::<P, T>::Recognized { shape_key }
                &&& step.redraw && step.store_modified
            }
            &&& !replaces ==> step.state == state && step.actions.len() == 0 && !step.redraw
                && !step.store_modified
            &&& step.result is None
        }),
        state.waiting() is Some <==> state is Drawing && state->hold_armed,
        state.waiting() matches Some((key, pos)) ==> key == state->current_stroke_key && pos
            == state->hold_pos,
{
}

/// The path that is being built is drawn while a stroke is drawn, in every style but that of the
/// marker, and has bounds then.
pub proof fn law_the_path_is_drawn_with_its_stroke<P, T>(state: BrushState<P, T>)
    ensures
        state.bounded() <==> state is Drawing,
        state.drawn(BrushStyle::Solid) == state.bounded(),
        state.drawn(BrushStyle::Textured) == state.bounded(),
        !state.drawn(BrushStyle::Marker),
{
}

/// An answer of a builder that nothing is drawn with changes nothing.
pub proof fn law_late_answers_change_nothing<P, T>(
    state: BrushState<P, T>,
    answer: BuilderResult,
    style: BrushStyle,
    found: bool,
)
    requires
        state !is Drawing,
    ensures
        ({
            let step = state.built(answer, style, found);
            &&& step.state == state && step.actions.len() == 0 && !step.redraw && !step.store_modified
            &&& step.result == Some(
                EventResult {
                    handled: answer.handled,
                    propagate: answer.propagate,
                    progress: PenProgress::InProgress,
                },
            )
        }),
{
}

/// A step holds what an outcome says, and nothing else.
pub proof fn law_steps_hold_what_outcomes_say<P, T>(r: Outcome<P, T>, state: BrushState<P, T>)
    ensures
        r.step(state).state == state,
        r.step(state).result == r.result,
        r.step(state).redraw == r.redraw,
        r.step(state).store_modified == r.store_modified,
        r.step(state).actions == r.actions@,
{
}

} // verus!
