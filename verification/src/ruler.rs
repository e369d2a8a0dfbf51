//! The ruler, the set square and the protractor.
//!
//! Distances and angles are measured by the caller, in whatever numbers the canvas uses. Here it is
//! decided what they mean.

use crate::marker;
use crate::shapes;
use vstd::prelude::*;

verus! {

/// The kinds of rulers.
///
/// All of them are placed with an anchor and an angle: the ruler's centerline, the long edge of the
/// set square and the base line of the protractor run through the anchor. The set square and the
/// protractor lie on one side of it, with the anchor in the middle of their long edge.
#[derive(Debug, Clone, Copy, PartialEq, Eq, Structural)]
pub enum RulerKind {
    /// A straight edge spanning the viewport.
    Ruler,
    /// A right isosceles triangle with a centimeter scale on its long edge and a degree scale
    /// around its middle, like a "Geodreieck".
    SetSquare,
    /// A half circle with a degree scale and two arms to measure angles.
    Protractor,
}

impl Default for RulerKind {
    fn default() -> (r: Self)
        ensures
            r == RulerKind::Ruler,
    {
        RulerKind::Ruler
    }
}

/// The settings of the ruler that are not measured.
#[derive(Debug, Clone, Copy, PartialEq, Eq, Structural)]
pub struct RulerConfig {
    /// Whether the ruler is currently shown and active for snapping.
    pub visible: bool,
    /// Whether to snap the ruler's angle to common values during two-finger rotation.
    pub angle_snap_enabled: bool,
    /// Whether to render the angle dial in the center of rotation.
    pub show_dial: bool,
    /// Whether the tick marks show millimeters and centimeters of the document.
    pub metric_scale: bool,
    /// Which kind of ruler is shown.
    pub kind: RulerKind,
}

impl Default for RulerConfig {
    fn default() -> (r: Self)
        ensures
            r == (RulerConfig {
                visible: false,
                angle_snap_enabled: true,
                show_dial: true,
                metric_scale: true,
                kind: RulerKind::Ruler,
            }),
    {
        RulerConfig {
            visible: false,
            angle_snap_enabled: true,
            show_dial: true,
            metric_scale: true,
            kind: RulerKind::Ruler,
        }
    }
}

// ---------------------------------------------------------------------------------------------
// Colors

/// A color.
#[derive(Debug, Clone, Copy, PartialEq, Eq, Structural)]
pub struct Rgba8 {
    pub r: u8,
    pub g: u8,
    pub b: u8,
    pub a: u8,
}

/// White in dark mode and black otherwise, with the given opacity.
pub open spec fn contrasting(dark_mode: bool, a: u8) -> Rgba8 {
    if dark_mode {
        Rgba8 { r: 255, g: 255, b: 255, a }
    } else {
        Rgba8 { r: 0, g: 0, b: 0, a }
    }
}

fn contrast(dark_mode: bool, a: u8) -> (r: Rgba8)
    ensures
        r == contrasting(dark_mode, a),
{
    let v: u8 = if dark_mode {
        255
    } else {
        0
    };
    Rgba8 { r: v, g: v, b: v, a }
}

impl RulerConfig {
    /// Color used for the body outline.
    pub fn body_stroke_color(dark_mode: bool) -> (r: Rgba8)
        ensures
            r == contrasting(dark_mode, 220),
    {
        contrast(dark_mode, 220)
    }

    /// Color used for the tick marks (long edges and dial ticks).
    pub fn tick_color(dark_mode: bool) -> (r: Rgba8)
        ensures
            r == contrasting(dark_mode, 240),
    {
        contrast(dark_mode, 240)
    }

    /// Color used for the angle text in the dial.
    pub fn angle_text_color(dark_mode: bool) -> (r: Rgba8)
        ensures
            r == contrasting(dark_mode, 255),
    {
        contrast(dark_mode, 255)
    }

    /// Background behind the length shown while drawing along the ruler.
    pub fn measurement_background_color(dark_mode: bool) -> (r: Rgba8)
        ensures
            dark_mode ==> r == (Rgba8 { r: 40, g: 40, b: 40, a: 230 }),
            !dark_mode ==> r == (Rgba8 { r: 255, g: 255, b: 255, a: 230 }),
    {
        let v: u8 = if dark_mode {
            40
        } else {
            255
        };
        Rgba8 { r: v, g: v, b: v, a: 230 }
    }
}

// ---------------------------------------------------------------------------------------------
// The body and the protractor arms

/// Where a position lies, relative to the anchor and the directions of the ruler.
#[derive(Debug, Clone, Copy, PartialEq, Eq, Structural)]
pub struct Place {
    /// Not farther from the centerline than half the width of the ruler.
    pub within_width: bool,
    /// On the side of the long edge and of the base line where the body is, or on them.
    pub above_base: bool,
    /// Below both short edges of the set square, or on them.
    pub below_legs: bool,
    /// Not farther from the anchor than the radius of the protractor.
    pub within_radius: bool,
}

/// Where an arm of the protractor is touched.
#[derive(Debug, Clone, Copy, PartialEq, Eq, Structural)]
pub struct ArmTouch {
    /// How far the handle is, if it is close enough. Larger distances are larger numbers.
    pub handle: Option<i64>,
    /// How far the arm itself is, if it is close enough and away from the center.
    pub arm: Option<i64>,
}

/// How far the touches of arms are.
pub open spec fn touch_distances(arms: Seq<ArmTouch>) -> Seq<Option<i64>> {
    arms.map_values(|t: ArmTouch| t.distance())
}

impl ArmTouch {
    /// How far the touch is: from the handle where it is close enough, else from the arm.
    pub open spec fn distance(self) -> Option<i64> {
        if self.handle is Some {
            self.handle
        } else {
            self.arm
        }
    }
}

/// What the ruler turns around.
#[derive(Debug, Clone, Copy, PartialEq, Eq, Structural)]
pub enum RotationCenter {
    Dial,
    Centroid,
    Anchor,
}

/// What a kind of ruler turns around.
pub open spec fn turns_around(kind: RulerKind) -> RotationCenter {
    match kind {
        RulerKind::Ruler => RotationCenter::Dial,
        RulerKind::SetSquare => RotationCenter::Centroid,
        RulerKind::Protractor => RotationCenter::Anchor,
    }
}

/// Only the ruler turns around its dial, which can be moved along it. The protractor turns around its
/// anchor, so that the angles it measures stay in place, and the set square around the middle of its body.
pub proof fn law_kinds_turn_around_their_own_center(kind: RulerKind)
    ensures
        turns_around(kind) == RotationCenter::Dial <==> kind == RulerKind::Ruler,
        turns_around(kind) == RotationCenter::Centroid <==> kind == RulerKind::SetSquare,
        turns_around(kind) == RotationCenter::Anchor <==> kind == RulerKind::Protractor,
{
}

/// A hidden ruler has no body. Rulers that are shown have a body that only depends on where the place
/// lies to the edges of their kind.
pub proof fn law_bodies_lie_between_their_edges(config: RulerConfig, place: Place, other: Place)
    ensures
        config.on_body(place) ==> config.visible,
        config.kind == RulerKind::Ruler && place.within_width == other.within_width ==> config.on_body(
            place,
        ) == config.on_body(other),
        config.visible && config.kind == RulerKind::Ruler ==> config.on_body(place)
            == place.within_width,
        config.kind != RulerKind::Ruler && config.on_body(place) ==> place.above_base,
        config.visible && place.above_base ==> {
            &&& config.kind == RulerKind::SetSquare ==> config.on_body(place) == place.below_legs
            &&& config.kind == RulerKind::Protractor ==> config.on_body(place) == place.within_radius
        },
{
}

impl RulerConfig {
    /// Whether the place lies within the ruler body.
    pub open spec fn on_body(self, place: Place) -> bool {
        self.visible && match self.kind {
            RulerKind::Ruler => place.within_width,
            RulerKind::SetSquare => place.above_base && place.below_legs,
            RulerKind::Protractor => place.above_base && place.within_radius,
        }
    }

    /// Whether the place lies within the ruler body.
    pub fn hit_body_window(&self, place: Place) -> (r: bool)
        ensures
            r == self.on_body(place),
    {
        if !self.visible {
            return false;
        }
        match self.kind {
            RulerKind::Ruler => place.within_width,
            RulerKind::SetSquare => place.above_base && place.below_legs,
            RulerKind::Protractor => place.above_base && place.within_radius,
        }
    }

    /// Whether `r` is the arm that is hit, where `distances` tells how far those are that are close
    /// enough: the nearest one. Only protractors that are shown have arms.
    pub open spec fn hits_arm(self, distances: Seq<Option<i64>>, r: Option<usize>) -> bool {
        if self.visible && self.kind == RulerKind::Protractor {
            match r {
                Some(arm) => shapes::is_first_min(distances, arm as int),
                None => forall|k: int| 0 <= k < distances.len() ==> (#[trigger] distances[k]) is None,
            }
        } else {
            r is None
        }
    }

    /// The protractor arm whose handle is hit: the nearest one. `handles` tells how far the handles
    /// are that are close enough.
    pub fn hit_protractor_handle_window(&self, handles: &Vec<Option<i64>>) -> (r: Option<usize>)
        ensures
            self.hits_arm(handles@, r),
    {
        if !self.visible || self.kind != RulerKind::Protractor {
            return None;
        }
        shapes::first_min(handles)
    }

    /// The protractor arm that is hit by touch input, which is less precise than a pen or a mouse:
    /// its handle, or the arm itself away from the center.
    pub fn hit_protractor_arm_touch_window(&self, arms: &Vec<ArmTouch>) -> (r: Option<usize>)
        ensures
            self.hits_arm(touch_distances(arms@), r),
    {
        if !self.visible || self.kind != RulerKind::Protractor {
            return None;
        }
        let ghost distances = touch_distances(arms@);
        let mut keys: Vec<Option<i64>> = Vec::new();
        let mut k: usize = 0;
        while k < arms.len()
            invariant
                k <= arms@.len(),
                distances == touch_distances(arms@),
                keys@ == distances.take(k as int),
            decreases arms@.len() - k,
        {
            let touch = arms[k];
            if touch.handle.is_some() {
                keys.push(touch.handle);
            } else {
                keys.push(touch.arm);
            }
            assert(keys@ =~= distances.take(k + 1));
            k += 1;
        }
        assert(distances.take(k as int) =~= distances);
        shapes::first_min(&keys)
    }

    /// The point the ruler turns around: the dial of the ruler, the centroid of the set square and
    /// the center of the protractor's base line.
    pub fn rotation_center(&self) -> (r: RotationCenter)
        ensures
            r == turns_around(self.kind),
    {
        match self.kind {
            RulerKind::Ruler => RotationCenter::Dial,
            RulerKind::SetSquare => RotationCenter::Centroid,
            RulerKind::Protractor => RotationCenter::Anchor,
        }
    }
}

// ---------------------------------------------------------------------------------------------
// Snapping to the edges

/// An edge that strokes can snap to.
#[derive(Debug, Clone, Copy, PartialEq, Eq, Structural)]
pub enum SnapEdge {
    /// The edge of the ruler on the side its normal points to.
    NormalSide,
    /// The other edge of the ruler.
    OtherSide,
    /// The long edge of the set square, or the base line of the protractor.
    Base,
    /// The short edges of the set square.
    LeftLeg,
    RightLeg,
    /// The arc of the protractor.
    Arc,
    /// An arm of the protractor.
    Arm(usize),
}

/// Along an edge, where it can be snapped to.
#[derive(Debug, Clone, Copy, PartialEq, Eq, Structural)]
pub enum SnapRange {
    Unlimited,
    /// The length of the base, to both sides of the anchor.
    Base,
    /// The length of a short edge, from its corner.
    Leg,
    /// Up to the radius above the base line.
    Arc,
    /// The length of an arm, from the anchor.
    Arm,
}

/// A place where strokes can snap to the ruler.
#[derive(Debug, Clone, Copy, PartialEq, Eq, Structural)]
pub struct SnapCandidate {
    pub edge: SnapEdge,
    pub range: SnapRange,
    /// Whether the edge can be snapped to from inside the ruler body. Otherwise the body is dragged
    /// there.
    pub inside_body: bool,
}

/// How a position lies to a candidate.
#[derive(Debug, Clone, Copy, PartialEq, Eq, Structural)]
pub struct Closeness {
    /// Whether the position is not farther from the range than the snap distance.
    pub in_range: bool,
    /// Whether the position is not farther from the edge than the snap distance.
    pub close: bool,
    /// How far the edge is. Larger distances are larger numbers.
    pub distance: i64,
}

pub open spec fn candidate(edge: SnapEdge, range: SnapRange, inside_body: bool) -> SnapCandidate {
    SnapCandidate { edge, range, inside_body }
}

/// The edges of the kinds of rulers. The arms of the protractor can be drawn along from inside, too,
/// starting at the center.
pub open spec fn candidates(kind: RulerKind) -> Seq<SnapCandidate> {
    match kind {
        RulerKind::Ruler => seq![
            candidate(SnapEdge::NormalSide, SnapRange::Unlimited, false),
            candidate(SnapEdge::OtherSide, SnapRange::Unlimited, false),
        ],
        RulerKind::SetSquare => seq![
            candidate(SnapEdge::Base, SnapRange::Base, false),
            candidate(SnapEdge::LeftLeg, SnapRange::Leg, false),
            candidate(SnapEdge::RightLeg, SnapRange::Leg, false),
        ],
        RulerKind::Protractor => seq![
            candidate(SnapEdge::Base, SnapRange::Base, false),
            candidate(SnapEdge::Arc, SnapRange::Arc, false),
            candidate(SnapEdge::Arm(0), SnapRange::Arm, true),
            candidate(SnapEdge::Arm(1), SnapRange::Arm, true),
        ],
    }
}

/// How far a candidate is, if a stroke can snap to it from there.
pub open spec fn reachable(c: SnapCandidate, inside_body: bool, closeness: Closeness) -> Option<i64> {
    if (!inside_body || c.inside_body) && closeness.in_range && closeness.close {
        Some(closeness.distance)
    } else {
        None
    }
}

/// How far the candidates are that can be snapped to.
pub open spec fn reachables(
    kind: RulerKind,
    inside_body: bool,
    closeness: Seq<Closeness>,
) -> Seq<Option<i64>> {
    Seq::new(
        candidates(kind).len(),
        |k: int| reachable(candidates(kind)[k], inside_body, closeness[k]),
    )
}

impl RulerConfig {
    /// The places where strokes can snap to the ruler.
    pub fn snap_candidates(&self) -> (r: Vec<SnapCandidate>)
        ensures
            r@ == candidates(self.kind),
    {
        let mut r: Vec<SnapCandidate> = Vec::new();
        match self.kind {
            RulerKind::Ruler => {
                r.push(
                    SnapCandidate {
                        edge: SnapEdge::NormalSide,
                        range: SnapRange::Unlimited,
                        inside_body: false,
                    },
                );
                r.push(
                    SnapCandidate {
                        edge: SnapEdge::OtherSide,
                        range: SnapRange::Unlimited,
                        inside_body: false,
                    },
                );
            },
            RulerKind::SetSquare => {
                r.push(
                    SnapCandidate {
                        edge: SnapEdge::Base,
                        range: SnapRange::Base,
                        inside_body: false,
                    },
                );
                r.push(
                    SnapCandidate {
                        edge: SnapEdge::LeftLeg,
                        range: SnapRange::Leg,
                        inside_body: false,
                    },
                );
                r.push(
                    SnapCandidate {
                        edge: SnapEdge::RightLeg,
                        range: SnapRange::Leg,
                        inside_body: false,
                    },
                );
            },
            RulerKind::Protractor => {
                r.push(
                    SnapCandidate {
                        edge: SnapEdge::Base,
                        range: SnapRange::Base,
                        inside_body: false,
                    },
                );
                r.push(
                    SnapCandidate {
                        edge: SnapEdge::Arc,
                        range: SnapRange::Arc,
                        inside_body: false,
                    },
                );
                r.push(
                    SnapCandidate {
                        edge: SnapEdge::Arm(0),
                        range: SnapRange::Arm,
                        inside_body: true,
                    },
                );
                r.push(
                    SnapCandidate {
                        edge: SnapEdge::Arm(1),
                        range: SnapRange::Arm,
                        inside_body: true,
                    },
                );
            },
        }
        assert(r@ =~= candidates(self.kind));
        r
    }

    /// Whether `r` is the edge that a stroke snaps to.
    pub open spec fn snaps_to(
        self,
        inside_body: bool,
        closeness: Seq<Closeness>,
        r: Option<SnapEdge>,
    ) -> bool {
        if self.visible {
            match r {
                Some(edge) => exists|k: int| #[trigger]
                    shapes::is_first_min(reachables(self.kind, inside_body, closeness), k) && edge
                        == candidates(self.kind)[k].edge,
                None => forall|k: int|
                    0 <= k < closeness.len() ==> (#[trigger] reachables(
                        self.kind,
                        inside_body,
                        closeness,
                    )[k]) is None,
            }
        } else {
            r is None
        }
    }

    /// The edge of the ruler that a stroke snaps to, if it starts close enough to one: the nearest
    /// one. `closeness` tells how the start lies to each of [`RulerConfig::snap_candidates`].
    pub fn snap_target(&self, inside_body: bool, closeness: &Vec<Closeness>) -> (r: Option<SnapEdge>)
        requires
            closeness@.len() == candidates(self.kind).len(),
        ensures
            self.snaps_to(inside_body, closeness@, r),
    {
        if !self.visible {
            return None;
        }
        let all = self.snap_candidates();
        let ghost keys = reachables(self.kind, inside_body, closeness@);
        let mut distances: Vec<Option<i64>> = Vec::new();
        let mut k: usize = 0;
        while k < all.len()
            invariant
                k <= all@.len(),
                all@ == candidates(self.kind),
                closeness@.len() == all@.len(),
                keys == reachables(self.kind, inside_body, closeness@),
                distances@ == keys.take(k as int),
            decreases all@.len() - k,
        {
            let near = closeness[k];
            if (!inside_body || all[k].inside_body) && near.in_range && near.close {
                distances.push(Some(near.distance));
            } else {
                distances.push(None);
            }
            assert(distances@ =~= keys.take(k + 1));
            k += 1;
        }
        assert(keys.take(k as int) =~= keys);
        match shapes::first_min(&distances) {
            Some(i) => {
                assert(shapes::is_first_min(keys, i as int));
                Some(all[i].edge)
            },
            None => None,
        }
    }
}

/// From inside the body, strokes only snap to the arms of the protractor. Everywhere else the body
/// is dragged.
pub proof fn law_only_arms_are_snapped_to_from_inside(
    kind: RulerKind,
    closeness: Seq<Closeness>,
    k: int,
)
    requires
        closeness.len() == candidates(kind).len(),
        shapes::is_first_min(reachables(kind, true, closeness), k),
    ensures
        kind == RulerKind::Protractor,
        candidates(kind)[k].edge is Arm,
{
    let keys = reachables(kind, true, closeness);
    assert(keys[k] is Some);
}

/// Whether an edge belongs to a kind of ruler: the ruler has two edges, the set square three, and the
/// protractor its base line, its arc and two arms.
pub open spec fn has_edge(kind: RulerKind, edge: SnapEdge) -> bool {
    match edge {
        SnapEdge::NormalSide | SnapEdge::OtherSide => kind == RulerKind::Ruler,
        SnapEdge::LeftLeg | SnapEdge::RightLeg => kind == RulerKind::SetSquare,
        SnapEdge::Arc => kind == RulerKind::Protractor,
        SnapEdge::Base => kind == RulerKind::SetSquare || kind == RulerKind::Protractor,
        SnapEdge::Arm(arm) => kind == RulerKind::Protractor && arm < 2,
    }
}

/// Every edge of a kind of ruler can be snapped to at exactly one place among the candidates, and no
/// other edge can. Only the edges of the ruler have no ends, and only arms are snapped to from inside.
pub proof fn law_every_edge_is_a_candidate_once(kind: RulerKind, edge: SnapEdge)
    ensures
        has_edge(kind, edge) <==> exists|k: int|
            0 <= k < candidates(kind).len() && (#[trigger] candidates(kind)[k]).edge == edge,
        forall|j: int, k: int|
            0 <= j < candidates(kind).len() && 0 <= k < candidates(kind).len() && (
            #[trigger] candidates(kind)[j]).edge == (#[trigger] candidates(kind)[k]).edge ==> j == k,
        forall|k: int|
            0 <= k < candidates(kind).len() ==> {
                let c = #[trigger] candidates(kind)[k];
                &&& c.inside_body <==> c.edge is Arm
                &&& c.range == SnapRange::Unlimited <==> c.edge is NormalSide || c.edge is OtherSide
                &&& c.range == SnapRange::Base <==> c.edge is Base
                &&& c.range == SnapRange::Leg <==> c.edge is LeftLeg || c.edge is RightLeg
                &&& c.range == SnapRange::Arc <==> c.edge is Arc
                &&& c.range == SnapRange::Arm <==> c.edge is Arm
            },
{
    let c = candidates(kind);
    match kind {
        RulerKind::Ruler => {
            assert(c.len() == 2);
            assert(c[0].edge == SnapEdge::NormalSide);
            assert(c[1].edge == SnapEdge::OtherSide);
        },
        RulerKind::SetSquare => {
            assert(c.len() == 3);
            assert(c[0].edge == SnapEdge::Base);
            assert(c[1].edge == SnapEdge::LeftLeg);
            assert(c[2].edge == SnapEdge::RightLeg);
        },
        RulerKind::Protractor => {
            assert(c.len() == 4);
            assert(c[0].edge == SnapEdge::Base);
            assert(c[1].edge == SnapEdge::Arc);
            assert(c[2].edge == SnapEdge::Arm(0));
            assert(c[3].edge == SnapEdge::Arm(1));
        },
    }
}

/// A visible ruler is snapped to at an edge whenever only that edge is in range and close, from
/// outside the body or along an arm. A hidden ruler is never snapped to.
pub proof fn law_the_only_close_edge_is_snapped_to(
    config: RulerConfig,
    edge: SnapEdge,
    inside_body: bool,
    closeness: Seq<Closeness>,
    r: Option<SnapEdge>,
)
    requires
        closeness.len() == candidates(config.kind).len(),
        has_edge(config.kind, edge),
        !inside_body || edge is Arm,
        forall|k: int|
            0 <= k < closeness.len() ==> ((#[trigger] closeness[k]).in_range && closeness[k].close
                <==> candidates(config.kind)[k].edge == edge),
        config.snaps_to(inside_body, closeness, r),
    ensures
        config.visible ==> r == Some(edge),
        !config.visible ==> r is None,
{
    law_every_edge_is_a_candidate_once(config.kind, edge);
    let k = choose|k: int|
        0 <= k < candidates(config.kind).len() && (#[trigger] candidates(config.kind)[k]).edge == edge;
    let keys = reachables(config.kind, inside_body, closeness);
    assert(closeness[k].in_range);
    assert(keys[k] is Some);
    if config.visible {
        if let Some(other) = r {
            let j = choose|j: int| #[trigger]
                shapes::is_first_min(keys, j) && other == candidates(config.kind)[j].edge;
            assert(keys[j] is Some);
            assert(closeness[j].in_range);
        }
    }
}

/// The edge that is snapped to is an edge of the ruler that is in range and close, and none of the
/// other edges that are is nearer. Only arms are snapped to from inside the body. There is one exactly
/// when some edge can be snapped to.
pub proof fn law_the_nearest_edge_is_snapped_to(
    config: RulerConfig,
    inside_body: bool,
    closeness: Seq<Closeness>,
    r: Option<SnapEdge>,
    j: int,
)
    requires
        config.visible,
        closeness.len() == candidates(config.kind).len(),
        config.snaps_to(inside_body, closeness, r),
        0 <= j < closeness.len(),
    ensures
        ({
            let open = closeness[j].in_range && closeness[j].close && (!inside_body || candidates(
                config.kind,
            )[j].edge is Arm);
            &&& r matches Some(edge) ==> has_edge(config.kind, edge) && exists|k: int|
                0 <= k < closeness.len() && (#[trigger] candidates(config.kind)[k]).edge == edge
                    && closeness[k].in_range && closeness[k].close && (inside_body ==> edge is Arm)
                    && (open ==> closeness[k].distance <= closeness[j].distance) && (open && j < k
                    ==> closeness[k].distance < closeness[j].distance)
            &&& open ==> r is Some
        }),
{
    let keys = reachables(config.kind, inside_body, closeness);
    law_every_edge_is_a_candidate_once(config.kind, candidates(config.kind)[j].edge);
    let open = closeness[j].in_range && closeness[j].close && (!inside_body || candidates(
        config.kind,
    )[j].edge is Arm);
    assert(open <==> keys[j] is Some);
    if let Some(edge) = r {
        let k = choose|k: int| #[trigger]
            shapes::is_first_min(keys, k) && edge == candidates(config.kind)[k].edge;
        assert(keys[k] is Some);
        law_every_edge_is_a_candidate_once(config.kind, edge);
        assert(candidates(config.kind)[k].edge == edge);
    }
}

/// The arm that is hit is the nearest one that is close enough, the first one of those that are equally
/// near, and there is one exactly when an arm is close enough to a protractor that is shown.
pub proof fn law_the_nearest_arm_is_hit(
    config: RulerConfig,
    distances: Seq<Option<i64>>,
    r: Option<usize>,
    j: int,
)
    requires
        config.hits_arm(distances, r),
        0 <= j < distances.len(),
    ensures
        r is Some ==> config.visible && config.kind == RulerKind::Protractor,
        config.visible && config.kind == RulerKind::Protractor && distances[j] is Some ==> r is Some,
        r matches Some(arm) ==> arm < distances.len() && distances[arm as int] is Some && (
        distances[j] matches Some(other) ==> distances[arm as int]->0 <= other && (
        distances[arm as int]->0 == other ==> arm <= j)),
{
}

/// Touches of an arm are as far as its handle where that is close enough, and else as far as the arm.
/// So an arm is touched wherever its handle or the arm itself is close enough.
pub proof fn law_handles_come_before_arms(arms: Seq<ArmTouch>, k: int)
    requires
        0 <= k < arms.len(),
    ensures
        touch_distances(arms).len() == arms.len(),
        arms[k].handle is Some ==> touch_distances(arms)[k] == arms[k].handle,
        arms[k].handle is None ==> touch_distances(arms)[k] == arms[k].arm,
{
}

// ---------------------------------------------------------------------------------------------
// Snapping to angles

/// How an angle lies to one of the angles that it can snap to.
#[derive(Debug, Clone, Copy, PartialEq, Eq, Structural)]
pub struct AngleCloseness {
    /// The ruler was locked to the target before.
    pub locked: bool,
    /// Close enough to be pulled in to the target.
    pub within_enter: bool,
    /// Close enough to stay locked to the target.
    pub within_leave: bool,
}

impl AngleCloseness {
    /// Whether the angle snaps to the target: the narrow window applies only to the target the ruler
    /// is currently locked to.
    pub open spec fn snaps(self) -> bool {
        if self.locked {
            self.within_leave
        } else {
            self.within_enter
        }
    }
}

/// Whether `r` is the first target that is snapped to.
pub open spec fn first_snapping(targets: Seq<AngleCloseness>, r: Option<usize>) -> bool {
    match r {
        Some(i) => i < targets.len() && targets[i as int].snaps() && forall|j: int|
            0 <= j < i ==> !(#[trigger] targets[j]).snaps(),
        None => forall|j: int| 0 <= j < targets.len() ==> !(#[trigger] targets[j]).snaps(),
    }
}

/// Snap with different windows for entering and leaving: the narrow "leave" window applies only to
/// the target the ruler is currently locked on, so it's easy to escape that one without making it
/// hard to engage any of the others. Returns the first target that is snapped to.
pub fn snap_angle_hysteretic(targets: &Vec<AngleCloseness>) -> (r: Option<usize>)
    ensures
        first_snapping(targets@, r),
{
    let mut k: usize = 0;
    while k < targets.len()
        invariant
            k <= targets@.len(),
            forall|j: int| 0 <= j < k ==> !(#[trigger] targets@[j]).snaps(),
        decreases targets@.len() - k,
    {
        let target = targets[k];
        let snaps: bool = if target.locked {
            target.within_leave
        } else {
            target.within_enter
        };
        if snaps {
            return Some(k);
        }
        k += 1;
    }
    None
}

/// An angle snaps to the first target whose window it is in. The window of the target that the ruler
/// is locked to is the narrow one for leaving it, those of the others are the wide ones for entering
/// them.
pub proof fn law_the_first_window_is_snapped_to(
    targets: Seq<AngleCloseness>,
    r: Option<usize>,
    j: int,
)
    requires
        first_snapping(targets, r),
        0 <= j < targets.len(),
    ensures
        r matches Some(i) ==> {
            &&& i < targets.len()
            &&& targets[i as int].locked ==> targets[i as int].within_leave
            &&& !targets[i as int].locked ==> targets[i as int].within_enter
        },
        targets[j].locked && targets[j].within_leave || !targets[j].locked && targets[j].within_enter
            ==> (r matches Some(i) && i <= j),
{
}

// ---------------------------------------------------------------------------------------------
// Tick marks

/// The steps that ticks and labels of the metric scale can have, in millimeters.
pub open spec fn step_mm(k: int) -> int {
    if k <= 0 {
        1
    } else if k == 1 {
        5
    } else if k == 2 {
        10
    } else if k == 3 {
        50
    } else if k == 4 {
        100
    } else if k == 5 {
        500
    } else if k == 6 {
        1000
    } else if k == 7 {
        5000
    } else {
        10000
    }
}

fn step_at(k: usize) -> (r: i64)
    ensures
        r == step_mm(k as int),
{
    match k {
        0 => 1,
        1 => 5,
        2 => 10,
        3 => 50,
        4 => 100,
        5 => 500,
        6 => 1000,
        7 => 5000,
        _ => 10000,
    }
}

/// Whether the step at `k` is the first one from `from` on that fits, or the largest one if none
/// does.
pub open spec fn first_fitting<F: Fn(i64) -> bool>(fits: F, from: int, k: int) -> bool {
    &&& from <= k <= 8
    &&& forall|j: int| from <= j < k ==> #[trigger] call_ensures(fits, (step_mm(j) as i64,), false)
    &&& call_ensures(fits, (step_mm(k) as i64,), true) || (k == 8 && call_ensures(
        fits,
        (step_mm(k) as i64,),
        false,
    ))
}

/// Where labels start: at whole centimeters, and not closer than the ticks.
pub open spec fn first_label(tick: int) -> int {
    if tick <= 2 {
        2
    } else {
        tick
    }
}

/// The step between the medium ticks: the one after that of the ticks, if it divides that of the
/// labels.
pub open spec fn medium_step(tick: int, label: int) -> Option<i64> {
    if tick < 8 && step_mm(tick + 1) < step_mm(label) && step_mm(label) % step_mm(tick + 1) == 0 {
        Some(step_mm(tick + 1) as i64)
    } else {
        None
    }
}

/// Smaller steps divide larger ones.
proof fn lemma_steps_divide(i: int, j: int)
    requires
        0 <= i <= j <= 8,
    ensures
        step_mm(j) % step_mm(i) == 0,
    decreases j - i,
{
    let s = step_mm(i);
    if i == j {
        vstd::arithmetic::div_mod::lemma_mod_self_0(s);
    } else {
        lemma_steps_divide(i, j - 1);
        let factor: int = if j % 2 == 1 {
            5
        } else {
            2
        };
        assert(step_mm(j) == factor * step_mm(j - 1));
        vstd::arithmetic::div_mod::lemma_mul_mod_noop_right(factor, step_mm(j - 1), s);
        assert(factor * 0 == 0) by (nonlinear_arith);
        vstd::arithmetic::div_mod::lemma_small_mod(0, s as nat);
    }
}

fn find_fitting<F: Fn(i64) -> bool>(fits: &F, from: usize) -> (r: usize)
    requires
        from <= 8,
        forall|step: i64| #[trigger] call_requires(*fits, (step,)),
    ensures
        first_fitting(*fits, from as int, r as int),
{
    let mut k: usize = from;
    loop
        invariant
            from <= k <= 8,
            forall|step: i64| #[trigger] call_requires(*fits, (step,)),
            forall|j: int|
                from <= j < k ==> #[trigger] call_ensures(*fits, (step_mm(j) as i64,), false),
        decreases 8 - k,
    {
        let step: i64 = step_at(k);
        assert(step == step_mm(k as int) as i64);
        if fits(step) {
            return k;
        }
        assert(call_ensures(*fits, (step_mm(k as int) as i64,), false));
        if k == 8 {
            return k;
        }
        k += 1;
    }
}

/// Whether these are the steps of the metric scale, where the first two tell whether ticks and labels
/// with a given step are far enough apart.
pub open spec fn has_steps<T: Fn(i64) -> bool, L: Fn(i64) -> bool>(
    tick_fits: T,
    label_fits: L,
    r: (i64, Option<i64>, i64),
) -> bool {
    exists|tick: int, label: int| #[trigger]
        first_fitting(tick_fits, 0, tick) && #[trigger] first_fitting(
            label_fits,
            first_label(tick),
            label,
        ) && r == (step_mm(tick) as i64, medium_step(tick, label), step_mm(label) as i64)
}

/// The steps of the metric scale in millimeters: between the ticks, between the medium ticks if
/// there are any, and between the labelled ticks, which are always whole centimeters. The arguments
/// tell whether ticks and labels with a given step are far enough apart.
pub fn metric_steps_mm<T: Fn(i64) -> bool, L: Fn(i64) -> bool>(tick_fits: &T, label_fits: &L) -> (r: (
    i64,
    Option<i64>,
    i64,
))
    requires
        forall|step: i64| #[trigger] call_requires(*tick_fits, (step,)),
        forall|step: i64| #[trigger] call_requires(*label_fits, (step,)),
    ensures
        has_steps(*tick_fits, *label_fits, r),
        // The scale stays readable: labels are ticks and medium ticks too.
        0 < r.0 <= r.2 <= 10000,
        r.2 % r.0 == 0,
        r.2 % 10 == 0,
        r.1 matches Some(medium) ==> r.0 < medium < r.2 && r.2 % medium == 0 && medium % r.0 == 0,
{
    let tick: usize = find_fitting(tick_fits, 0);
    let from: usize = if tick <= 2 {
        2
    } else {
        tick
    };
    let label: usize = find_fitting(label_fits, from);
    let tick_step: i64 = step_at(tick);
    let label_step: i64 = step_at(label);
    let mut medium: Option<i64> = None;
    if tick < 8 {
        let next: i64 = step_at(tick + 1);
        if next < label_step && label_step % next == 0 {
            medium = Some(next);
        }
    }
    proof {
        lemma_steps_divide(tick as int, label as int);
        lemma_steps_divide(2, label as int);
        if tick < 8 {
            lemma_steps_divide(tick as int, tick + 1);
        }
    }
    assert(first_fitting(*label_fits, first_label(tick as int), label as int));
    (tick_step, medium, label_step)
}

/// The steps that people read rulers with: one and five millimeters, and ten, a hundred and so on
/// times as much, up to ten meters.
pub open spec fn readable_step(s: int) -> bool {
    s == 1 || s == 5 || s == 10 || s == 50 || s == 100 || s == 500 || s == 1000 || s == 5000 || s
        == 10000
}

/// The metric scale is as fine as it can be: no smaller readable step between the ticks fits, and no
/// smaller one of whole centimeters between the labels that is not finer than the ticks. Both fit,
/// unless none does. Medium ticks have the readable step next to that of the ticks, if that is
/// smaller than the one of the labels.
pub proof fn law_the_scale_is_as_fine_as_it_can_be<T: Fn(i64) -> bool, L: Fn(i64) -> bool>(
    tick_fits: T,
    label_fits: L,
    r: (i64, Option<i64>, i64),
    s: i64,
)
    requires
        has_steps(tick_fits, label_fits, r),
    ensures
        readable_step(r.0 as int),
        readable_step(r.2 as int),
        readable_step(s as int) && s < r.0 ==> call_ensures(tick_fits, (s,), false),
        r.0 != 10000 ==> call_ensures(tick_fits, (r.0,), true),
        readable_step(s as int) && 10 <= s && r.0 <= s < r.2 ==> call_ensures(label_fits, (s,), false),
        r.2 != 10000 ==> call_ensures(label_fits, (r.2,), true),
        10 <= r.2 && r.0 <= r.2,
        readable_step(s as int) && r.0 < s < r.2 ==> (r.1 matches Some(medium) && medium <= s),
        r.1 matches Some(medium) ==> readable_step(medium as int) && r.0 < medium < r.2,
{
    let (tick, label) = choose|tick: int, label: int| #[trigger]
        first_fitting(tick_fits, 0, tick) && #[trigger] first_fitting(
            label_fits,
            first_label(tick),
            label,
        ) && r == (step_mm(tick) as i64, medium_step(tick, label), step_mm(label) as i64);
    if readable_step(s as int) {
        let k: int = if s == 1 {
            0
        } else if s == 5 {
            1
        } else if s == 10 {
            2
        } else if s == 50 {
            3
        } else if s == 100 {
            4
        } else if s == 500 {
            5
        } else if s == 1000 {
            6
        } else if s == 5000 {
            7
        } else {
            8
        };
        assert(step_mm(k) as i64 == s);
        if k < tick {
            assert(call_ensures(tick_fits, (step_mm(k) as i64,), false));
        }
        if first_label(tick) <= k < label {
            assert(call_ensures(label_fits, (step_mm(k) as i64,), false));
        }
    }
    if tick < label {
        lemma_steps_divide(tick + 1, label);
    }
}

/// The steps of the scale that is independent of the document.
pub open spec fn pixel_scale() -> (i64, Option<i64>, i64) {
    (1i64, Some(5i64), 10i64)
}

/// Of the ticks of the scale that is independent of the document every tenth is a major one, and those in
/// the middle between them are the medium ones. None is labelled.
pub proof fn law_every_tenth_tick_is_major(i: int)
    ensures
        tick_at(i, pixel_scale(), false).length == TickLength::Major <==> i % 10 == 0,
        tick_at(i, pixel_scale(), false).length == TickLength::Medium <==> i % 10 == 5,
        tick_at(i, pixel_scale(), false).label is None,
{
}

/// The steps of the scale that is independent of the document.
pub fn pixel_steps() -> (r: (i64, Option<i64>, i64))
    ensures
        r == pixel_scale(),
{
    (1, Some(5), 10)
}

/// The lengths of tick marks.
#[derive(Debug, Clone, Copy, PartialEq, Eq, Structural)]
pub enum TickLength {
    Minor,
    Medium,
    Major,
}

/// A tick mark on the long edges.
#[derive(Debug, Clone, Copy, PartialEq, Eq, Structural)]
pub struct Tick {
    /// Which tick it is, counted from the anchor.
    pub index: i64,
    pub length: TickLength,
    /// The centimeters it is labelled with.
    pub label: Option<i64>,
}

/// No more ticks than this are drawn.
pub const MAX_TICKS: i64 = 4096;

/// The absolute value.
pub open spec fn magnitude(v: int) -> int {
    if v < 0 {
        -v
    } else {
        v
    }
}

/// The tick with the given index.
pub open spec fn tick_at(index: int, steps: (i64, Option<i64>, i64), metric: bool) -> Tick {
    let value = index * steps.0;
    if value % (steps.2 as int) == 0 {
        Tick {
            index: index as i64,
            length: TickLength::Major,
            label: if metric {
                Some((magnitude(value) / 10) as i64)
            } else {
                None
            },
        }
    } else {
        Tick {
            index: index as i64,
            length: match steps.1 {
                Some(step) if value % (step as int) == 0 => TickLength::Medium,
                _ => TickLength::Minor,
            },
            label: None,
        }
    }
}

/// Steps between ticks as the scales have them.
pub open spec fn valid_steps(steps: (i64, Option<i64>, i64)) -> bool {
    &&& 0 < steps.0
    &&& 0 < steps.2
    &&& steps.1 matches Some(step) ==> 0 < step
}

/// Whether the values of the ticks can be computed, and their sizes where they are labelled.
pub open spec fn ticks_fit(
    i_min: i64,
    i_max: i64,
    steps: (i64, Option<i64>, i64),
    metric: bool,
) -> bool {
    &&& i64::MIN <= i_min * steps.0
    &&& metric ==> i64::MIN < i_min * steps.0
    &&& i_max * steps.0 <= i64::MAX
}

/// The ticks with the indices from the first to the last one.
pub open spec fn ticks_between(
    i_min: int,
    i_max: int,
    steps: (i64, Option<i64>, i64),
    metric: bool,
) -> Seq<Tick> {
    Seq::new(
        if i_min <= i_max {
            (i_max - i_min + 1) as nat
        } else {
            0
        },
        |k: int| tick_at(i_min + k, steps, metric),
    )
}

/// The remainder, which is never negative.
pub(crate) fn rem_euclid(v: i64, step: i64) -> (r: i64)
    requires
        0 < step,
    ensures
        r == v as int % step as int,
{
    if v >= 0 {
        v % step
    } else {
        // One more than the negative value never overflows when its sign changes.
        let m: i64 = (-(v + 1)) % step;
        let r: i64 = step - 1 - m;
        proof {
            lemma_negative_remainder(v as int, step as int);
        }
        r
    }
}

proof fn lemma_negative_remainder(v: int, step: int)
    requires
        v < 0,
        0 < step,
    ensures
        v % step == step - 1 - (-(v + 1)) % step,
{
    let n = -(v + 1);
    let q = n / step;
    let m = n % step;
    assert(n == q * step + m && 0 <= m < step) by {
        vstd::arithmetic::div_mod::lemma_fundamental_div_mod(n, step);
        assert(step * q == q * step) by (nonlinear_arith);
        vstd::arithmetic::div_mod::lemma_mod_bound(n, step);
    }
    assert(v == (-q - 1) * step + (step - 1 - m)) by (nonlinear_arith)
        requires
            v == -n - 1,
            n == q * step + m,
    ;
    vstd::arithmetic::div_mod::lemma_fundamental_div_mod_converse(v, step, -q - 1, step - 1 - m);
}

/// Whether `r` are the tick marks with the given indices, or none if these are too many.
pub open spec fn draws_ticks(
    i_min: int,
    i_max: int,
    steps: (i64, Option<i64>, i64),
    metric: bool,
    r: Option<Vec<Tick>>,
) -> bool {
    &&& i_max - i_min > MAX_TICKS ==> r is None
    &&& i_max - i_min <= MAX_TICKS ==> (r matches Some(ticks) && ticks@ == ticks_between(
        i_min,
        i_max,
        steps,
        metric,
    ))
}

/// Scales are drawn unless they have too many ticks. A scale that is drawn has a tick for every index from
/// the first to the last, in order, and none if there is no index.
pub proof fn law_scales_are_drawn_unless_too_fine(
    i_min: int,
    i_max: int,
    steps: (i64, Option<i64>, i64),
    metric: bool,
    r: Option<Vec<Tick>>,
    i: int,
)
    requires
        draws_ticks(i_min, i_max, steps, metric, r),
        i64::MIN <= i_min <= i64::MAX,
        i64::MIN <= i_max <= i64::MAX,
    ensures
        r is None <==> i_max - i_min > 4096,
        r matches Some(ticks) ==> {
            &&& i_max < i_min ==> ticks@.len() == 0
            &&& i_min <= i_max ==> ticks@.len() == i_max - i_min + 1
            &&& i_min <= i <= i_max ==> ticks@[i - i_min].index == i
        },
{
}

/// The tick marks on the long edges with the given indices, unless these are too many.
pub fn edge_ticks(i_min: i64, i_max: i64, steps: (i64, Option<i64>, i64), metric: bool) -> (r: Option<
    Vec<Tick>,
>)
    requires
        valid_steps(steps),
        i_max - i_min <= i64::MAX,
        0 <= i_max - i_min <= MAX_TICKS ==> ticks_fit(i_min, i_max, steps, metric),
    ensures
        draws_ticks(i_min as int, i_max as int, steps, metric, r),
        r matches Some(ticks) ==> forall|k: int|
            0 <= k < ticks@.len() ==> (#[trigger] ticks@[k]).index == i_min + k,
{
    if i_min > i_max {
        let ticks: Vec<Tick> = Vec::new();
        assert(ticks@ =~= ticks_between(i_min as int, i_max as int, steps, metric));
        return Some(ticks);
    }
    if i_max - i_min > MAX_TICKS {
        return None;
    }
    let ghost all = ticks_between(i_min as int, i_max as int, steps, metric);
    let mut ticks: Vec<Tick> = Vec::new();
    let count: i64 = i_max - i_min;
    let mut k: i64 = 0;
    while k <= count
        invariant
            count == i_max - i_min,
            0 <= k <= count + 1,
            count <= MAX_TICKS,
            valid_steps(steps),
            ticks_fit(i_min, i_max, steps, metric),
            all == ticks_between(i_min as int, i_max as int, steps, metric),
            ticks@ == all.take(k as int),
        decreases count + 1 - k,
    {
        let i: i64 = i_min + k;
        proof {
            assert(i_min * steps.0 <= i * steps.0 <= i_max * steps.0) by (nonlinear_arith)
                requires
                    i_min <= i <= i_max,
                    0 < steps.0,
            ;
        }
        let value: i64 = i * steps.0;
        let mut label: Option<i64> = None;
        let length: TickLength = if rem_euclid(value, steps.2) == 0 {
            if metric {
                // Whole centimeters.
                let size: i64 = if value < 0 {
                    -value
                } else {
                    value
                };
                label = Some(size / 10);
            }
            TickLength::Major
        } else {
            match steps.1 {
                Some(step) => if rem_euclid(value, step) == 0 {
                    TickLength::Medium
                } else {
                    TickLength::Minor
                },
                None => TickLength::Minor,
            }
        };
        ticks.push(Tick { index: i, length, label });
        assert(ticks@ =~= all.take(k + 1));
        k += 1;
    }
    assert(all.take(k as int) =~= all);
    Some(ticks)
}

/// The ticks go from the first index to the last one, one by one. Those at multiples of the step
/// between labels are the major ones, and of the others those at multiples of the medium step the
/// medium ones. Only major ticks of the metric scale are labelled, with their distance from the
/// anchor in whole centimeters, which has no sign.
pub proof fn law_ticks_tell_their_distance(
    i_min: int,
    i_max: int,
    steps: (i64, Option<i64>, i64),
    metric: bool,
    k: int,
    i: int,
)
    requires
        valid_steps(steps),
        i64::MIN <= i_min <= i <= i_max <= i64::MAX,
        k == i - i_min,
        i64::MIN < i * steps.0 <= i64::MAX,
    ensures
        ({
            let ticks = ticks_between(i_min, i_max, steps, metric);
            let t = ticks[k];
            let value = i * steps.0;
            &&& ticks.len() == i_max - i_min + 1
            &&& t.index == i
            &&& t.length == TickLength::Major <==> value % (steps.2 as int) == 0
            &&& t.length == TickLength::Medium <==> value % (steps.2 as int) != 0 && (
            steps.1 matches Some(medium) && value % (medium as int) == 0)
            &&& t.label is Some <==> metric && t.length == TickLength::Major
            &&& t.label matches Some(cm) ==> 0 <= cm && (0 <= value ==> 10 * cm <= value < 10 * cm
                + 10) && (value < 0 ==> 10 * cm <= -value < 10 * cm + 10)
        }),
{
}

/// The scale looks the same to both sides of the anchor.
pub proof fn law_the_scale_is_symmetric(i: int, steps: (i64, Option<i64>, i64), metric: bool)
    requires
        valid_steps(steps),
    ensures
        tick_at(-i, steps, metric).length == tick_at(i, steps, metric).length,
        tick_at(-i, steps, metric).label == tick_at(i, steps, metric).label,
{
    let v = i * steps.0;
    assert((-i) * steps.0 == -v) by (nonlinear_arith)
        requires
            v == i * steps.0,
    ;
    lemma_opposite_multiple(v, steps.2 as int);
    if let Some(medium) = steps.1 {
        lemma_opposite_multiple(v, medium as int);
    }
}

proof fn lemma_opposite_multiple(v: int, step: int)
    requires
        0 < step,
    ensures
        v % step == 0 <==> (-v) % step == 0,
{
    if v % step == 0 {
        vstd::arithmetic::div_mod::lemma_fundamental_div_mod(v, step);
        let q = v / step;
        assert(-v == (-q) * step + 0) by (nonlinear_arith)
            requires
                v == step * q + 0,
        ;
        vstd::arithmetic::div_mod::lemma_fundamental_div_mod_converse(-v, step, -q, 0);
    }
    if (-v) % step == 0 {
        vstd::arithmetic::div_mod::lemma_fundamental_div_mod(-v, step);
        let q = (-v) / step;
        assert(v == (-q) * step + 0) by (nonlinear_arith)
            requires
                -v == step * q + 0,
        ;
        vstd::arithmetic::div_mod::lemma_fundamental_div_mod_converse(v, step, -q, 0);
    }
}

/// Number of ticks of the angle dial, every six degrees.
pub const DIAL_TICKS: u32 = 60;

/// Every fifth dial tick is a major tick.
pub const DIAL_MAJOR_TICK_EVERY: u32 = 5;

/// Which of the dial ticks are major ticks.
pub open spec fn dial() -> Seq<bool> {
    Seq::new(DIAL_TICKS as nat, |i: int| i % 5 == 0)
}

/// The dial has ticks every six degrees all around, and those at multiples of thirty degrees are the
/// major ones.
pub proof fn law_the_dial_goes_around(i: int)
    requires
        0 <= i < dial().len(),
    ensures
        dial().len() * 6 == 360,
        dial()[i] <==> (6 * i) % 30 == 0,
{
}

/// Which of the dial ticks are major ticks.
pub fn dial_ticks() -> (r: Vec<bool>)
    ensures
        r@ == dial(),
{
    let ghost all = dial();
    let mut r: Vec<bool> = Vec::new();
    let mut i: u32 = 0;
    while i < DIAL_TICKS
        invariant
            i <= DIAL_TICKS,
            all == dial(),
            r@ == all.take(i as int),
        decreases DIAL_TICKS - i,
    {
        r.push(i % DIAL_MAJOR_TICK_EVERY == 0);
        assert(r@ =~= all.take(i + 1));
        i += 1;
    }
    assert(all.take(i as int) =~= all);
    r
}

// ---------------------------------------------------------------------------------------------
// The angle in the dial

/// The angle that is displayed, in tenths of degrees: with its decimal if it has at most one, else
/// in whole degrees. A quarter turn is displayed as a positive one.
pub open spec fn displayed_tenths(tenths: i32, one_decimal: bool, whole: i32) -> int {
    let shown = if one_decimal {
        tenths as int
    } else {
        whole * 10
    };
    if shown == -900 {
        900
    } else {
        shown
    }
}

/// The text of an angle in tenths of degrees. Whole degrees have no decimals.
pub open spec fn angle_chars(tenths: int) -> Seq<char> {
    let size = magnitude(tenths);
    let sign: Seq<char> = if tenths < 0 {
        seq!['-']
    } else {
        Seq::empty()
    };
    let decimal: Seq<char> = if size % 10 == 0 {
        Seq::empty()
    } else {
        seq!['.'] + marker::decimal((size % 10) as nat)
    };
    sign + marker::decimal((size / 10) as nat) + decimal + seq!['°']
}

/// The text of the angle in the dial. Angles set in the angle row have at most one decimal, while
/// turning the ruler by hand gives arbitrary angles. The decimal is shown only for the former.
///
/// `tenths` and `whole` are the angle rounded to tenths of degrees and to degrees, and
/// `one_decimal` tells whether it has at most one decimal.
pub fn angle_text(tenths: i32, one_decimal: bool, whole: i32) -> (r: String)
    ensures
        r@ == angle_chars(displayed_tenths(tenths, one_decimal, whole)),
{
    let shown: i64 = if one_decimal {
        tenths as i64
    } else {
        whole as i64 * 10
    };
    // The displayed range ends at a quarter turn, and the one below zero is the same orientation.
    let shown: i64 = if shown == -900 {
        900
    } else {
        shown
    };
    let mut text = String::new();
    let size: i64 = if shown < 0 {
        text.push('-');
        -shown
    } else {
        shown
    };
    marker::push_decimal(&mut text, (size / 10) as u32);
    if size % 10 != 0 {
        text.push('.');
        marker::push_decimal(&mut text, (size % 10) as u32);
    }
    text.push('°');
    assert(text@ =~= angle_chars(displayed_tenths(tenths, one_decimal, whole)));
    text
}

/// Zero is never displayed with a sign.
pub proof fn law_zero_has_no_sign(tenths: i32, one_decimal: bool, whole: i32)
    requires
        displayed_tenths(tenths, one_decimal, whole) == 0,
    ensures
        angle_chars(displayed_tenths(tenths, one_decimal, whole)) == seq!['0', '°'],
{
    assert(angle_chars(0) =~= seq!['0', '°']);
}

/// The angle that is displayed is the rounded one, up to half turns: to tenths where it has at most
/// one decimal, else to whole degrees. It is never a negative quarter turn.
pub proof fn law_the_displayed_angle_is_the_rounded_one(tenths: i32, one_decimal: bool, whole: i32)
    ensures
        ({
            let shown = displayed_tenths(tenths, one_decimal, whole);
            let rounded: int = if one_decimal {
                tenths as int
            } else {
                10 * whole
            };
            &&& shown != -900
            &&& rounded != -900 ==> shown == rounded
            &&& (shown - rounded) % 1800 == 0
        }),
{
}

/// Angles are written as their degrees, with one decimal if it is not zero, and a degree sign. Negative
/// ones are written as the positive ones behind a sign.
pub proof fn law_angles_are_written_in_degrees(degrees: nat, d: int)
    requires
        0 <= d < 10,
    ensures
        d == 0 ==> angle_chars(10 * degrees as int) == marker::decimal(degrees).push('°'),
        d != 0 ==> angle_chars(10 * degrees + d) == marker::decimal(degrees).push('.').push(
            (0x30 + d) as char,
        ).push('°'),
        10 * degrees + d > 0 ==> angle_chars(-(10 * degrees + d)) == seq!['-'] + angle_chars(
            10 * degrees + d,
        ),
{
    let t = 10 * degrees + d;
    assert(t / 10 == degrees && t % 10 == d);
    if d == 0 {
        assert(angle_chars(10 * degrees as int) =~= marker::decimal(degrees).push('°'));
    } else {
        assert(marker::decimal(d as nat) =~= seq![(0x30 + d) as char]);
        assert(angle_chars(t) =~= marker::decimal(degrees).push('.').push((0x30 + d) as char).push(
            '°',
        ));
    }
    if t > 0 {
        assert(angle_chars(-t) =~= seq!['-'] + angle_chars(t));
    }
}

} // verus!
