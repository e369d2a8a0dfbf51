//! A native window frame on Windows.
//!
//! The toolkit draws the whole frame of the window itself on Windows, and tells the system that the
//! window can neither be resized nor maximized. This gives the window the styles of a normal window
//! and decides what happens with the window messages that are needed for that:
//! - The system frame stays on the left, right and bottom, where it is the invisible resize border
//!   that every Windows app has. The title bar and the top frame are removed, so the header bars
//!   stay on top. The top resize border lies in the header bar instead.
//! - The empty parts of the header bars are reported as the title bar, so moving the window goes
//!   through the system and gets snapping.
//! - The toolkit computes the window size from the size of the content with the system title bar and
//!   frame. Its positions are corrected for the missing title bar.
//!
//! Widgets are referred to by keys.

use crate::ruler;
use vstd::prelude::*;

verus! {

pub const WS_POPUP: u32 = 0x8000_0000;

pub const WS_THICKFRAME: u32 = 0x0004_0000;

/// The styles of a normal window: caption, sizing border, window menu, minimize and maximize boxes.
/// These are also the ones the toolkit wants for windows with system decorations, so it doesn't try
/// to change them.
pub const FRAME_STYLES: u32 = 0x00cf_0000;

pub const SWP_NOSIZE: u32 = 0x0001;

pub const SWP_NOMOVE: u32 = 0x0002;

pub const SWP_NOZORDER: u32 = 0x0004;

pub const SWP_NOACTIVATE: u32 = 0x0010;

pub const SWP_FRAMECHANGED: u32 = 0x0020;

/// Set by the system when a window is minimized, maximized or restored. Not in the headers.
pub const SWP_STATECHANGED: u32 = 0x8000;

/// How the frame is applied: the frame changed, with the size, the place, the order and the
/// activation of the window kept.
pub const APPLY_FLAGS: u32 = 0x0237;

/// The ways a message can be sent, in contrast to being handled by the thread itself.
pub const ISMEX_SENT: u32 = 0x0007;

/// The place of the window style among the window data.
pub const GWL_STYLE: i32 = -16;

// ---------------------------------------------------------------------------------------------
// Geometry

/// A rectangle.
#[derive(Debug, Clone, Copy, PartialEq, Eq, Structural)]
pub struct Rect {
    pub left: i32,
    pub top: i32,
    pub right: i32,
    pub bottom: i32,
}

/// A point.
#[derive(Debug, Clone, Copy, PartialEq, Eq, Structural)]
pub struct Point {
    pub x: i32,
    pub y: i32,
}

/// A number of sixteen bits, read with its sign.
pub open spec fn signed_word(word: int) -> int {
    if word < 0x8000 {
        word
    } else {
        word - 0x1_0000
    }
}

/// The coordinates in the two lowest words of a message parameter.
pub open spec fn coordinates(lparam: int) -> (int, int) {
    (signed_word(lparam % 0x1_0000), signed_word((lparam / 0x1_0000) % 0x1_0000))
}

/// The point in a message parameter, with its coordinates in the two lowest words.
pub fn point_from_lparam(lparam: isize) -> (r: Point)
    ensures
        (r.x as int, r.y as int) == coordinates(lparam as int),
{
    let v: i64 = lparam as i64;
    let low: i64 = ruler::rem_euclid(v, 0x1_0000);
    let above: i64 = words_above(v);
    let high: i64 = ruler::rem_euclid(above, 0x1_0000);
    let x: i64 = if low < 0x8000 {
        low
    } else {
        low - 0x1_0000
    };
    let y: i64 = if high < 0x8000 {
        high
    } else {
        high - 0x1_0000
    };
    Point { x: x as i32, y: y as i32 }
}

/// The number without its lowest word, rounded down.
fn words_above(v: i64) -> (r: i64)
    ensures
        r == v as int / 0x1_0000,
{
    if v >= 0 {
        v / 0x1_0000
    } else {
        // One more than the negative value never overflows when its sign changes.
        -((-(v + 1)) / 0x1_0000) - 1
    }
}

/// The frame of the window with the title bar on top, from what the system adds around an empty
/// rectangle.
pub open spec fn insets_of(adjusted: Rect) -> Rect {
    Rect {
        left: -adjusted.left as i32,
        top: -adjusted.top as i32,
        right: adjusted.right,
        bottom: adjusted.bottom,
    }
}

/// The frame of the window with the title bar on top, from what the system adds around an empty
/// rectangle.
pub fn frame_insets(adjusted: Rect) -> (r: Rect)
    requires
        adjusted.left > i32::MIN,
        adjusted.top > i32::MIN,
    ensures
        r == insets_of(adjusted),
        adjusted.left + r.left == 0,
        adjusted.top + r.top == 0,
        r.right == adjusted.right,
        r.bottom == adjusted.bottom,
{
    Rect {
        left: -adjusted.left,
        top: -adjusted.top,
        right: adjusted.right,
        bottom: adjusted.bottom,
    }
}

pub open spec fn larger(a: i32, b: i32) -> i32 {
    if a >= b {
        a
    } else {
        b
    }
}

pub open spec fn smaller(a: i32, b: i32) -> i32 {
    if a <= b {
        a
    } else {
        b
    }
}

/// The part of a rectangle that lies in another one.
pub open spec fn clipped(rect: Rect, area: Rect) -> Rect {
    Rect {
        left: larger(rect.left, area.left),
        top: larger(rect.top, area.top),
        right: smaller(rect.right, area.right),
        bottom: smaller(rect.bottom, area.bottom),
    }
}

fn clip(rect: Rect, area: Rect) -> (r: Rect)
    ensures
        r == clipped(rect, area),
{
    Rect {
        left: if rect.left >= area.left {
            rect.left
        } else {
            area.left
        },
        top: if rect.top >= area.top {
            rect.top
        } else {
            area.top
        },
        right: if rect.right <= area.right {
            rect.right
        } else {
            area.right
        },
        bottom: if rect.bottom <= area.bottom {
            rect.bottom
        } else {
            area.bottom
        },
    }
}

/// Whether the frame can be taken off the rectangle.
pub open spec fn insets_fit(rect: Rect, insets: Rect) -> bool {
    &&& i32::MIN <= rect.left + insets.left <= i32::MAX
    &&& i32::MIN <= rect.right - insets.right <= i32::MAX
    &&& i32::MIN <= rect.bottom - insets.bottom <= i32::MAX
}

/// The content of a window rectangle. Maximized windows reach over the edges of the screen by their
/// frame, so that it is not visible, and their content has to stay on the work area. Others have
/// the frame on the left, right and bottom.
pub open spec fn content_rect(rect: Rect, zoomed: bool, work_area: Option<Rect>, insets: Rect) -> Rect {
    if zoomed {
        match work_area {
            Some(area) => clipped(rect, area),
            None => rect,
        }
    } else {
        Rect {
            left: (rect.left + insets.left) as i32,
            top: rect.top,
            right: (rect.right - insets.right) as i32,
            bottom: (rect.bottom - insets.bottom) as i32,
        }
    }
}

/// The content of a window rectangle.
pub fn calc_content_rect(rect: Rect, zoomed: bool, work_area: Option<Rect>, insets: Rect) -> (r: Rect)
    requires
        !zoomed ==> insets_fit(rect, insets),
    ensures
        r == content_rect(rect, zoomed, work_area, insets),
{
    if zoomed {
        match work_area {
            Some(area) => clip(rect, area),
            None => rect,
        }
    } else {
        Rect {
            left: rect.left + insets.left,
            top: rect.top,
            right: rect.right - insets.right,
            bottom: rect.bottom - insets.bottom,
        }
    }
}

// ---------------------------------------------------------------------------------------------
// Hit tests

/// What a point of the content is for the system.
#[derive(Debug, Clone, Copy, PartialEq, Eq, Structural)]
pub enum Area {
    Content,
    TitleBar,
    MaximizeButton(u64),
}

/// What a point of the window is for the system.
#[derive(Debug, Clone, Copy, PartialEq, Eq, Structural)]
pub enum HitCode {
    Client,
    Caption,
    MaxButton,
    Left,
    Right,
    Top,
    TopLeft,
    TopRight,
    Bottom,
    BottomLeft,
    BottomRight,
}

impl HitCode {
    /// The number the system knows it by.
    pub open spec fn spec_code(self) -> i32 {
        match self {
            HitCode::Client => 1,
            HitCode::Caption => 2,
            HitCode::MaxButton => 9,
            HitCode::Left => 10,
            HitCode::Right => 11,
            HitCode::Top => 12,
            HitCode::TopLeft => 13,
            HitCode::TopRight => 14,
            HitCode::Bottom => 15,
            HitCode::BottomLeft => 16,
            HitCode::BottomRight => 17,
        }
    }

    /// The number the system knows it by.
    pub fn code(self) -> (r: i32)
        ensures
            r == self.spec_code(),
    {
        match self {
            HitCode::Client => 1,
            HitCode::Caption => 2,
            HitCode::MaxButton => 9,
            HitCode::Left => 10,
            HitCode::Right => 11,
            HitCode::Top => 12,
            HitCode::TopLeft => 13,
            HitCode::TopRight => 14,
            HitCode::Bottom => 15,
            HitCode::BottomLeft => 16,
            HitCode::BottomRight => 17,
        }
    }
}

/// Half of a number, rounded towards zero.
pub open spec fn half(v: int) -> int {
    if v >= 0 {
        v / 2
    } else {
        -((-v) / 2)
    }
}

/// The resize border at a point, if there is one. There is no frame on top, the resize border there
/// lies in the header bar and is thinner so that it doesn't get in the way of the buttons. Close to
/// the corners of the window, borders resize in both directions.
pub open spec fn border_at(point: Point, window: Rect, insets: Rect) -> Option<HitCode> {
    let top_border = half(insets.bottom as int) + 2;
    let corner = insets.bottom * 2;
    let left = point.x < window.left + insets.left;
    let right = point.x >= window.right - insets.right;
    let top = point.y < window.top + top_border;
    let bottom = point.y >= window.bottom - insets.bottom;
    let near_left = point.x < window.left + insets.left + corner;
    let near_right = point.x >= window.right - insets.right - corner;
    let near_top = point.y < window.top + top_border + corner;
    let near_bottom = point.y >= window.bottom - insets.bottom - corner;
    if (top && near_left) || (left && near_top) {
        Some(HitCode::TopLeft)
    } else if (top && near_right) || (right && near_top) {
        Some(HitCode::TopRight)
    } else if (bottom && near_left) || (left && near_bottom) {
        Some(HitCode::BottomLeft)
    } else if (bottom && near_right) || (right && near_bottom) {
        Some(HitCode::BottomRight)
    } else if left {
        Some(HitCode::Left)
    } else if right {
        Some(HitCode::Right)
    } else if top {
        Some(HitCode::Top)
    } else if bottom {
        Some(HitCode::Bottom)
    } else {
        None
    }
}

/// The resize border at a point, if there is one.
pub fn hit_border(point: Point, window: Rect, insets: Rect) -> (r: Option<HitCode>)
    ensures
        r == border_at(point, window, insets),
{
    let x: i64 = point.x as i64;
    let y: i64 = point.y as i64;
    let inset_bottom: i64 = insets.bottom as i64;
    let left_edge: i64 = window.left as i64 + insets.left as i64;
    let right_edge: i64 = window.right as i64 - insets.right as i64;
    let bottom_edge: i64 = window.bottom as i64 - inset_bottom;
    let halved: i64 = if inset_bottom >= 0 {
        inset_bottom / 2
    } else {
        -((-inset_bottom) / 2)
    };
    let top_edge: i64 = window.top as i64 + halved + 2;
    let corner: i64 = inset_bottom * 2;

    let left: bool = x < left_edge;
    let right: bool = x >= right_edge;
    let top: bool = y < top_edge;
    let bottom: bool = y >= bottom_edge;
    let near_left: bool = x < left_edge + corner;
    let near_right: bool = x >= right_edge - corner;
    let near_top: bool = y < top_edge + corner;
    let near_bottom: bool = y >= bottom_edge - corner;

    if (top && near_left) || (left && near_top) {
        Some(HitCode::TopLeft)
    } else if (top && near_right) || (right && near_top) {
        Some(HitCode::TopRight)
    } else if (bottom && near_left) || (left && near_bottom) {
        Some(HitCode::BottomLeft)
    } else if (bottom && near_right) || (right && near_bottom) {
        Some(HitCode::BottomRight)
    } else if left {
        Some(HitCode::Left)
    } else if right {
        Some(HitCode::Right)
    } else if top {
        Some(HitCode::Top)
    } else if bottom {
        Some(HitCode::Bottom)
    } else {
        None
    }
}

/// What a point of the window is: a resize border, unless the window is maximized, or what its
/// content is there.
pub open spec fn hit_code(point: Point, window: Rect, insets: Rect, zoomed: bool, area: Area) -> HitCode {
    match border_at(point, window, insets) {
        Some(code) if !zoomed => code,
        _ => match area {
            Area::Content => HitCode::Client,
            Area::TitleBar => HitCode::Caption,
            Area::MaximizeButton(_) => HitCode::MaxButton,
        },
    }
}

/// What is known of a widget under the pointer.
#[derive(Debug, Clone, Copy, PartialEq, Eq, Structural)]
pub struct WidgetInfo {
    pub key: u64,
    /// An empty part of a header bar, by which windows are moved.
    pub window_handle: bool,
    pub button: bool,
    /// Has the style class of maximize buttons.
    pub maximize_class: bool,
    /// Belongs to the buttons of the window.
    pub in_window_controls: bool,
    pub focusable: bool,
    pub editable: bool,
    pub range: bool,
}

impl WidgetInfo {
    /// Whether the widget is a maximize button of the window.
    pub open spec fn maximizes(self) -> bool {
        self.button && self.maximize_class && self.in_window_controls
    }

    /// Whether the widget wants the pointer for itself.
    pub open spec fn wants_input(self) -> bool {
        self.focusable || self.button || self.editable || self.range
    }

    /// Whether the widget wants the pointer for itself.
    pub fn takes_input(&self) -> (r: bool)
        ensures
            r == self.wants_input(),
    {
        self.focusable || self.button || self.editable || self.range
    }

    /// What the widget makes of the point, if it decides.
    pub open spec fn decides(self) -> Option<Area> {
        if self.window_handle {
            Some(Area::TitleBar)
        } else if self.maximizes() {
            Some(Area::MaximizeButton(self.key))
        } else if self.wants_input() {
            Some(Area::Content)
        } else {
            None
        }
    }
}

/// What the point is on, where `widgets` are the widget there and its ancestors, from the inside
/// out: the first of them that decides.
pub open spec fn area_of(widgets: Seq<WidgetInfo>) -> Area
    decreases widgets.len(),
{
    if widgets.len() == 0 {
        Area::Content
    } else {
        match widgets[0].decides() {
            Some(area) => area,
            None => area_of(widgets.drop_first()),
        }
    }
}

/// What the point is on: an empty part of a header bar is the title bar. `widgets` are the widget
/// there and its ancestors, from the inside out.
pub fn content_area(widgets: &Vec<WidgetInfo>) -> (r: Area)
    ensures
        r == area_of(widgets@),
{
    let mut k: usize = 0;
    assert(widgets@.skip(0) =~= widgets@);
    while k < widgets.len()
        invariant
            k <= widgets@.len(),
            area_of(widgets@.skip(k as int)) == area_of(widgets@),
        decreases widgets@.len() - k,
    {
        let widget = widgets[k];
        assert(widgets@.skip(k as int)[0] == widget);
        assert(widgets@.skip(k as int).drop_first() =~= widgets@.skip(k + 1));
        if widget.window_handle {
            return Area::TitleBar;
        }
        if widget.button && widget.maximize_class && widget.in_window_controls {
            return Area::MaximizeButton(widget.key);
        }
        if widget.takes_input() {
            return Area::Content;
        }
        k += 1;
    }
    Area::Content
}

// ---------------------------------------------------------------------------------------------
// The frame

/// The frame of a window.
#[derive(Debug, Clone, Copy, PartialEq, Eq, Structural)]
pub struct Frame {
    /// The system is moving or resizing the window.
    pub in_size_move: bool,
    /// The last style change was changed back to keep the frame.
    pub style_kept: bool,
    /// The frame is applied, positions are not from the toolkit.
    pub applying: bool,
    /// The maximize button of the header bar found by the last hit test.
    ///
    /// It is reported to the system as its maximize button, which shows the snap layouts when
    /// hovering it. The toolkit doesn't get the pointer events over it then, so they are passed on.
    pub maximize_button: Option<u64>,
    pub maximize_button_hovered: bool,
    pub maximize_button_pressed: bool,
}

/// A change of the place of a window.
#[derive(Debug, Clone, Copy, PartialEq, Eq, Structural)]
pub struct WindowPos {
    pub y: i32,
    pub cy: i32,
    pub flags: u32,
}

/// How a window is at the moment.
#[derive(Debug, Clone, Copy, PartialEq, Eq, Structural)]
pub struct WindowInfo {
    pub style: u32,
    pub zoomed: bool,
    pub iconic: bool,
    /// The frame with the title bar on top.
    pub insets: Rect,
    /// How the message that is being handled was sent.
    pub sent: u32,
}

/// A message to the window.
#[derive(Debug, Clone, Copy, PartialEq, Eq, Structural)]
pub enum Message {
    /// Asks for the content of the window rectangle on a monitor with the given work area.
    CalcSize { rect: Rect, work_area: Option<Rect> },
    /// Asks what a point of the window is, where the content is the given area.
    HitTest { point: Point, window: Rect, area: Area },
    /// Tells that part of the window data is about to change.
    StyleChanging { index: i32, style: u32 },
    /// Tells that the place of the window is about to change.
    PosChanging(WindowPos),
    /// The pointer moves over the frame.
    FrameMouseMove { code: i32 },
    /// The pointer leaves the frame, or moves over the content.
    FrameMouseLeave,
    /// The button is pressed over the frame, once or twice.
    FrameButtonDown { code: i32 },
    FrameButtonUp { code: i32 },
    EnterSizeMove,
    ExitSizeMove,
    Other,
}

/// Something to be done for the window.
#[derive(Debug, Clone, Copy, PartialEq, Eq, Structural)]
pub enum FrameAction {
    /// Show a button as hovered.
    SetHovered(u64),
    /// Show a button as pressed.
    SetPressed(u64),
    /// Show a button as no longer pressed.
    UnsetPressed(u64),
    /// Show a button as neither hovered nor pressed.
    UnsetHoveredAndPressed(u64),
    /// Ask for a message when the pointer leaves the window.
    TrackLeave,
    /// Maximize or restore the window, when the message has been handled.
    ToggleMaximized,
}

/// The answer to a message.
#[derive(Debug)]
pub struct Reply {
    /// The result when the message is handled here, `None` if the toolkit should handle it.
    pub result: Option<i32>,
    /// What the message is changed to.
    pub rect: Option<Rect>,
    pub style: Option<u32>,
    pub pos: Option<WindowPos>,
    pub actions: Vec<FrameAction>,
}

/// The answer to a message, and the frame that goes with it.
#[verifier::ext_equal]
pub struct FrameStep {
    pub frame: Frame,
    pub result: Option<i32>,
    pub rect: Option<Rect>,
    pub style: Option<u32>,
    pub pos: Option<WindowPos>,
    pub actions: Seq<FrameAction>,
}

impl Reply {
    pub open spec fn step(&self, frame: Frame) -> FrameStep {
        FrameStep {
            frame,
            result: self.result,
            rect: self.rect,
            style: self.style,
            pos: self.pos,
            actions: self.actions@,
        }
    }
}

/// The frame changes, and the message is left to the toolkit unless there is a result.
pub open spec fn frame_step(frame: Frame, result: Option<i32>, actions: Seq<FrameAction>) -> FrameStep {
    FrameStep { frame, result, rect: None, style: None, pos: None, actions }
}

/// The style with what is needed to keep the frame. The toolkit turns the window into a popup for
/// fullscreen and restores the styles afterwards.
pub open spec fn kept_style(style: u32) -> u32 {
    if style & WS_POPUP == 0 {
        style | FRAME_STYLES
    } else {
        style
    }
}

/// The style with what is needed to keep the frame.
pub fn keep_style(style: u32) -> (r: u32)
    ensures
        r == kept_style(style),
{
    if style & WS_POPUP == 0 {
        style | FRAME_STYLES
    } else {
        style
    }
}

/// Whether the window has the frame, which it does not in fullscreen.
pub open spec fn framed(info: WindowInfo) -> bool {
    info.style & WS_THICKFRAME != 0
}

/// Whether the toolkit changes the geometry, which it computes with the title bar.
///
/// The toolkit moves and resizes its windows without activating them or changing their order. The
/// system changes the geometry for snapping, while the user drags the window or its borders, and
/// when minimizing, maximizing, restoring or leaving fullscreen.
pub open spec fn from_toolkit(frame: Frame, info: WindowInfo, flags: u32) -> bool {
    &&& flags & (SWP_NOMOVE | SWP_NOSIZE) != SWP_NOMOVE | SWP_NOSIZE
    &&& flags & (SWP_NOACTIVATE | SWP_NOZORDER) == SWP_NOACTIVATE | SWP_NOZORDER
    &&& flags & (SWP_STATECHANGED | SWP_FRAMECHANGED) == 0
    &&& !frame.in_size_move
    &&& !frame.applying
    &&& framed(info)
    &&& !info.zoomed
    &&& !info.iconic
    &&& info.sent & ISMEX_SENT == 0
}

/// Whether the toolkit changes the geometry, which it computes with the title bar.
pub fn is_from_toolkit(frame: &Frame, info: &WindowInfo, flags: u32) -> (r: bool)
    ensures
        r == from_toolkit(*frame, *info, flags),
{
    flags & (SWP_NOMOVE | SWP_NOSIZE) != SWP_NOMOVE | SWP_NOSIZE && flags & (SWP_NOACTIVATE
        | SWP_NOZORDER) == SWP_NOACTIVATE | SWP_NOZORDER && flags & (SWP_STATECHANGED
        | SWP_FRAMECHANGED) == 0 && !frame.in_size_move && !frame.applying && info.style
        & WS_THICKFRAME != 0 && !info.zoomed && !info.iconic && info.sent & ISMEX_SENT == 0
}

/// The place without the title bar, which the toolkit put on top of the window.
pub open spec fn corrected(pos: WindowPos, insets: Rect) -> WindowPos {
    WindowPos {
        y: if pos.flags & SWP_NOMOVE == 0 {
            (pos.y + insets.top) as i32
        } else {
            pos.y
        },
        cy: if pos.flags & SWP_NOSIZE == 0 {
            (pos.cy - insets.top) as i32
        } else {
            pos.cy
        },
        flags: pos.flags,
    }
}

/// Whether the title bar can be taken off the place.
pub open spec fn correction_fits(pos: WindowPos, insets: Rect) -> bool {
    &&& pos.flags & SWP_NOMOVE == 0 ==> i32::MIN <= pos.y + insets.top <= i32::MAX
    &&& pos.flags & SWP_NOSIZE == 0 ==> i32::MIN <= pos.cy - insets.top <= i32::MAX
}

impl Frame {
    /// The frame after the pointer moved onto the maximize button, and what has to be done.
    pub open spec fn hovered(self) -> (Frame, Seq<FrameAction>) {
        if self.maximize_button_hovered {
            (self, Seq::empty())
        } else {
            (
                Frame { maximize_button_hovered: true, ..self },
                match self.maximize_button {
                    Some(button) => seq![FrameAction::SetHovered(button), FrameAction::TrackLeave],
                    None => seq![FrameAction::TrackLeave],
                },
            )
        }
    }

    /// The frame after the pointer left the maximize button, and what has to be done.
    pub open spec fn left(self) -> (Frame, Seq<FrameAction>) {
        if self.maximize_button_hovered {
            (
                Frame {
                    maximize_button_hovered: false,
                    maximize_button_pressed: false,
                    ..self
                },
                match self.maximize_button {
                    Some(button) => seq![FrameAction::UnsetHoveredAndPressed(button)],
                    None => Seq::empty(),
                },
            )
        } else {
            (self, Seq::empty())
        }
    }

    /// What the frame makes of a change of the place of the window.
    pub open spec fn pos_changing(self, info: WindowInfo, pos: WindowPos) -> FrameStep {
        if pos.flags & SWP_FRAMECHANGED != 0 && self.style_kept {
            // The toolkit computed this geometry for the styles it wanted, but they were kept.
            FrameStep {
                frame: Frame { style_kept: false, ..self },
                result: None,
                rect: None,
                style: None,
                pos: Some(WindowPos { flags: pos.flags | (SWP_NOMOVE | SWP_NOSIZE), ..pos }),
                actions: Seq::empty(),
            }
        } else if from_toolkit(self, info, pos.flags) {
            FrameStep {
                frame: self,
                result: None,
                rect: None,
                style: None,
                pos: Some(corrected(pos, info.insets)),
                actions: Seq::empty(),
            }
        } else {
            frame_step(self, None, Seq::empty())
        }
    }

    /// The answer to a message.
    pub open spec fn handled(self, info: WindowInfo, message: Message) -> FrameStep {
        match message {
            Message::CalcSize { rect, work_area } => if framed(info) {
                FrameStep {
                    frame: self,
                    result: Some(0),
                    rect: Some(content_rect(rect, info.zoomed, work_area, info.insets)),
                    style: None,
                    pos: None,
                    actions: Seq::empty(),
                }
            } else {
                frame_step(self, None, Seq::empty())
            },
            Message::HitTest { point, window, area } => if framed(info) {
                let code = hit_code(point, window, info.insets, info.zoomed, area);
                frame_step(
                    Frame {
                        maximize_button: match area {
                            Area::MaximizeButton(button) if code == HitCode::MaxButton => Some(button),
                            _ => self.maximize_button,
                        },
                        ..self
                    },
                    Some(code.spec_code()),
                    Seq::empty(),
                )
            } else {
                frame_step(self, None, Seq::empty())
            },
            Message::StyleChanging { index, style } => if index == GWL_STYLE {
                FrameStep {
                    frame: Frame { style_kept: kept_style(style) != style, ..self },
                    result: None,
                    rect: None,
                    style: Some(kept_style(style)),
                    pos: None,
                    actions: Seq::empty(),
                }
            } else {
                frame_step(self, None, Seq::empty())
            },
            Message::PosChanging(pos) => self.pos_changing(info, pos),
            Message::FrameMouseMove { code } => {
                let (frame, actions) = if code == HitCode::MaxButton.spec_code() {
                    self.hovered()
                } else {
                    self.left()
                };
                frame_step(frame, None, actions)
            },
            Message::FrameMouseLeave => {
                let (frame, actions) = self.left();
                frame_step(frame, None, actions)
            },
            Message::FrameButtonDown { code } => if code == HitCode::MaxButton.spec_code() {
                // The system would track the press itself and draw its own button.
                let (frame, actions) = self.hovered();
                frame_step(
                    Frame { maximize_button_pressed: true, ..frame },
                    Some(0),
                    match self.maximize_button {
                        Some(button) => actions.push(FrameAction::SetPressed(button)),
                        None => actions,
                    },
                )
            } else {
                frame_step(self, None, Seq::empty())
            },
            Message::FrameButtonUp { code } => if code == HitCode::MaxButton.spec_code() {
                let released: Seq<FrameAction> = match self.maximize_button {
                    Some(button) => seq![FrameAction::UnsetPressed(button)],
                    None => Seq::empty(),
                };
                frame_step(
                    Frame { maximize_button_pressed: false, ..self },
                    Some(0),
                    if self.maximize_button_pressed {
                        released.push(FrameAction::ToggleMaximized)
                    } else {
                        released
                    },
                )
            } else {
                frame_step(self, None, Seq::empty())
            },
            Message::EnterSizeMove => frame_step(
                Frame { in_size_move: true, ..self },
                None,
                Seq::empty(),
            ),
            Message::ExitSizeMove => frame_step(
                Frame { in_size_move: false, ..self },
                None,
                Seq::empty(),
            ),
            Message::Other => frame_step(self, None, Seq::empty()),
        }
    }

    /// The frame of a window that it is being applied to.
    pub open spec fn fresh() -> Frame {
        Frame {
            in_size_move: false,
            style_kept: false,
            applying: true,
            maximize_button: None,
            maximize_button_hovered: false,
            maximize_button_pressed: false,
        }
    }

    /// The frame of a window that it is being applied to.
    pub fn new() -> (r: Self)
        ensures
            r == Frame::fresh(),
    {
        Frame {
            in_size_move: false,
            style_kept: false,
            applying: true,
            maximize_button: None,
            maximize_button_hovered: false,
            maximize_button_pressed: false,
        }
    }

    /// The frame has been applied.
    pub fn applied(&mut self)
        ensures
            *final(self) == (Frame { applying: false, ..*old(self) }),
    {
        self.applying = false;
    }

    fn hover_maximize_button(&mut self, actions: &mut Vec<FrameAction>)
        ensures
            (*final(self), final(actions)@) == (old(self).hovered().0, old(actions)@ + old(
                self,
            ).hovered().1),
    {
        let ghost before = *self;
        if !self.maximize_button_hovered {
            self.maximize_button_hovered = true;
            if let Some(button) = self.maximize_button {
                actions.push(FrameAction::SetHovered(button));
            }
            // To get a message when the pointer leaves the window from the button.
            actions.push(FrameAction::TrackLeave);
        }
        assert(actions@ =~= old(actions)@ + before.hovered().1);
    }

    fn leave_maximize_button(&mut self, actions: &mut Vec<FrameAction>)
        ensures
            (*final(self), final(actions)@) == (old(self).left().0, old(actions)@ + old(
                self,
            ).left().1),
    {
        let ghost before = *self;
        if self.maximize_button_hovered {
            self.maximize_button_hovered = false;
            self.maximize_button_pressed = false;
            if let Some(button) = self.maximize_button {
                actions.push(FrameAction::UnsetHoveredAndPressed(button));
            }
        }
        assert(actions@ =~= old(actions)@ + before.left().1);
    }

    fn change_pos(&mut self, info: &WindowInfo, pos: WindowPos) -> (r: Option<WindowPos>)
        requires
            from_toolkit(*old(self), *info, pos.flags) ==> correction_fits(pos, info.insets),
        ensures
            *final(self) == old(self).pos_changing(*info, pos).frame,
            r == old(self).pos_changing(*info, pos).pos,
    {
        if pos.flags & SWP_FRAMECHANGED != 0 && self.style_kept {
            self.style_kept = false;
            Some(WindowPos { y: pos.y, cy: pos.cy, flags: pos.flags | (SWP_NOMOVE | SWP_NOSIZE) })
        } else if is_from_toolkit(self, info, pos.flags) {
            let y: i32 = if pos.flags & SWP_NOMOVE == 0 {
                pos.y + info.insets.top
            } else {
                pos.y
            };
            let cy: i32 = if pos.flags & SWP_NOSIZE == 0 {
                pos.cy - info.insets.top
            } else {
                pos.cy
            };
            Some(WindowPos { y, cy, flags: pos.flags })
        } else {
            None
        }
    }

    /// Answer a message.
    pub fn handle_message(&mut self, info: &WindowInfo, message: Message) -> (r: Reply)
        requires
            message matches Message::CalcSize { rect, .. } ==> framed(*info) && !info.zoomed
                ==> insets_fit(rect, info.insets),
            message matches Message::PosChanging(pos) ==> from_toolkit(*old(self), *info, pos.flags)
                ==> correction_fits(pos, info.insets),
        ensures
            r.step(*final(self)) == old(self).handled(*info, message),
    {
        let ghost step = self.handled(*info, message);
        let mut r = Reply { result: None, rect: None, style: None, pos: None, actions: Vec::new() };
        match message {
            Message::CalcSize { rect, work_area } => {
                // Only while the window has the frame, not in fullscreen.
                if info.style & WS_THICKFRAME != 0 {
                    r.rect = Some(calc_content_rect(rect, info.zoomed, work_area, info.insets));
                    r.result = Some(0);
                }
            },
            Message::HitTest { point, window, area } => {
                if info.style & WS_THICKFRAME != 0 {
                    let code = self.hit_test(point, window, info, area);
                    r.result = Some(code.code());
                }
            },
            Message::StyleChanging { index, style } => {
                if index == GWL_STYLE {
                    let kept: u32 = keep_style(style);
                    self.style_kept = kept != style;
                    r.style = Some(kept);
                }
            },
            Message::PosChanging(pos) => {
                r.pos = self.change_pos(info, pos);
            },
            Message::FrameMouseMove { code } => {
                if code == HitCode::MaxButton.code() {
                    self.hover_maximize_button(&mut r.actions);
                } else {
                    self.leave_maximize_button(&mut r.actions);
                }
            },
            Message::FrameMouseLeave => {
                self.leave_maximize_button(&mut r.actions);
            },
            Message::FrameButtonDown { code } => {
                if code == HitCode::MaxButton.code() {
                    self.hover_maximize_button(&mut r.actions);
                    self.maximize_button_pressed = true;
                    if let Some(button) = self.maximize_button {
                        r.actions.push(FrameAction::SetPressed(button));
                    }
                    r.result = Some(0);
                }
            },
            Message::FrameButtonUp { code } => {
                if code == HitCode::MaxButton.code() {
                    if let Some(button) = self.maximize_button {
                        r.actions.push(FrameAction::UnsetPressed(button));
                    }
                    if self.maximize_button_pressed {
                        self.maximize_button_pressed = false;
                        // Not while the system is still handling this message.
                        r.actions.push(FrameAction::ToggleMaximized);
                    }
                    r.result = Some(0);
                }
            },
            Message::EnterSizeMove => {
                self.in_size_move = true;
            },
            Message::ExitSizeMove => {
                self.in_size_move = false;
            },
            Message::Other => {},
        }
        assert(r.step(*self) =~= step);
        r
    }

    /// What a point of the window is.
    fn hit_test(&mut self, point: Point, window: Rect, info: &WindowInfo, area: Area) -> (r: HitCode)
        ensures
            r == hit_code(point, window, info.insets, info.zoomed, area),
            *final(self) == (Frame {
                maximize_button: match area {
                    Area::MaximizeButton(button) if r == HitCode::MaxButton => Some(button),
                    _ => old(self).maximize_button,
                },
                ..*old(self)
            }),
    {
        if !info.zoomed {
            if let Some(code) = hit_border(point, window, info.insets) {
                return code;
            }
        }
        match area {
            Area::Content => HitCode::Client,
            Area::TitleBar => HitCode::Caption,
            Area::MaximizeButton(button) => {
                self.maximize_button = Some(button);
                HitCode::MaxButton
            },
        }
    }
}

// ---------------------------------------------------------------------------------------------
// Laws

/// Windows keep the styles of a normal window, unless they are turned into popups. What was kept is
/// not changed again.
pub proof fn law_the_frame_is_kept(style: u32)
    ensures
        style & WS_POPUP == 0 ==> kept_style(style) & FRAME_STYLES == FRAME_STYLES,
        style & WS_POPUP == 0 ==> kept_style(style) & WS_THICKFRAME != 0,
        kept_style(kept_style(style)) == kept_style(style),
{
    assert((style | 0x00cf_0000u32) & 0x00cf_0000u32 == 0x00cf_0000u32) by (bit_vector);
    assert((style | 0x00cf_0000u32) & 0x0004_0000u32 != 0) by (bit_vector);
    assert((style | 0x00cf_0000u32) | 0x00cf_0000u32 == style | 0x00cf_0000u32) by (bit_vector);
}

/// Windows without the frame are left to the toolkit: neither their content nor their hit tests are
/// answered, and their places are not corrected.
pub proof fn law_fullscreen_windows_are_left_alone(frame: Frame, info: WindowInfo, message: Message)
    requires
        !framed(info),
    ensures
        message is CalcSize || message is HitTest ==> frame.handled(info, message) == frame_step(
            frame,
            None,
            Seq::empty(),
        ),
        message matches Message::PosChanging(pos) ==> frame.handled(info, message).pos matches Some(
            changed,
        ) ==> changed.y == pos.y && changed.cy == pos.cy,
{
}

/// The content of a maximized window stays on the work area.
pub proof fn law_maximized_content_stays_on_the_work_area(
    rect: Rect,
    area: Rect,
    insets: Rect,
)
    ensures
        ({
            let content = content_rect(rect, true, Some(area), insets);
            &&& area.left <= content.left
            &&& area.top <= content.top
            &&& content.right <= area.right
            &&& content.bottom <= area.bottom
        }),
{
}

/// The content of a window that is not maximized reaches to its upper edge, and leaves the frame on
/// the other sides free.
pub proof fn law_the_top_frame_is_removed(rect: Rect, work_area: Option<Rect>, insets: Rect)
    requires
        insets_fit(rect, insets),
    ensures
        ({
            let content = content_rect(rect, false, work_area, insets);
            &&& content.top == rect.top
            &&& content.left - rect.left == insets.left
            &&& rect.right - content.right == insets.right
            &&& rect.bottom - content.bottom == insets.bottom
        }),
{
}

/// Points that are answered as content or title bar lie inside the frame of a window that is not
/// maximized.
pub proof fn law_the_frame_can_be_grabbed(
    point: Point,
    window: Rect,
    insets: Rect,
    area: Area,
)
    ensures
        ({
            let code = hit_code(point, window, insets, false, area);
            (code == HitCode::Client || code == HitCode::Caption || code == HitCode::MaxButton) ==> {
                &&& window.left + insets.left <= point.x < window.right - insets.right
                &&& window.top + half(insets.bottom as int) + 2 <= point.y < window.bottom
                    - insets.bottom
            }
        }),
{
}

/// A click on the maximize button toggles the window once: pressing and releasing it does, and
/// releasing it does not when the pointer left the button in between.
pub proof fn law_clicks_toggle_the_window_once(frame: Frame, info: WindowInfo)
    ensures
        ({
            let code = HitCode::MaxButton.spec_code();
            let pressed = frame.handled(info, Message::FrameButtonDown { code }).frame;
            let released = pressed.handled(info, Message::FrameButtonUp { code });
            let again = released.frame.handled(info, Message::FrameButtonUp { code });
            &&& released.actions.contains(FrameAction::ToggleMaximized)
            &&& !again.actions.contains(FrameAction::ToggleMaximized)
        }),
        ({
            let code = HitCode::MaxButton.spec_code();
            let pressed = frame.handled(info, Message::FrameButtonDown { code }).frame;
            let left = pressed.handled(info, Message::FrameMouseLeave).frame;
            !left.handled(info, Message::FrameButtonUp { code }).actions.contains(
                FrameAction::ToggleMaximized,
            )
        }),
{
    let code = HitCode::MaxButton.spec_code();
    let pressed = frame.handled(info, Message::FrameButtonDown { code }).frame;
    let released = pressed.handled(info, Message::FrameButtonUp { code });
    assert(released.actions.last() == FrameAction::ToggleMaximized);
}

/// The positions of the toolkit lose the title bar, and nothing else: the lower edge of the window
/// stays where it was put.
pub proof fn law_corrected_windows_keep_their_lower_edge(pos: WindowPos, insets: Rect)
    requires
        correction_fits(pos, insets),
        pos.flags & SWP_NOMOVE == 0,
        pos.flags & SWP_NOSIZE == 0,
    ensures
        corrected(pos, insets).y + corrected(pos, insets).cy == pos.y + pos.cy,
        corrected(pos, insets).y - pos.y == insets.top,
{
}

/// Coordinates are read as they were written into the two lowest words of a message parameter, with
/// their sign, whatever stands in the words above.
pub proof fn law_coordinates_are_read_as_written(x: int, y: int, above: int)
    requires
        -0x8000 <= x < 0x8000,
        -0x8000 <= y < 0x8000,
    ensures
        coordinates(above * 0x1_0000_0000 + (y % 0x1_0000) * 0x1_0000 + x % 0x1_0000) == (x, y),
{
}

/// Taking the frame off what the system adds around an empty rectangle leaves the empty rectangle,
/// with the title bar on top of it.
pub proof fn law_insets_are_what_the_system_adds(adjusted: Rect, work_area: Option<Rect>)
    requires
        adjusted.left > i32::MIN,
        adjusted.top > i32::MIN,
    ensures
        ({
            let insets = insets_of(adjusted);
            let content = content_rect(adjusted, false, work_area, insets);
            &&& content.left == 0
            &&& content.right == 0
            &&& content.bottom == 0
            &&& content.top + insets.top == 0
        }),
{
}

/// Whether a point lies in a rectangle.
pub open spec fn holds(rect: Rect, x: int, y: int) -> bool {
    rect.left <= x < rect.right && rect.top <= y < rect.bottom
}

/// The content of a framed window is answered, and nothing else is done. That of a maximized window
/// is the part of the window on the work area, point by point. That of others leaves exactly the frame
/// on the left, right and bottom free.
pub proof fn law_the_content_is_answered(
    frame: Frame,
    info: WindowInfo,
    rect: Rect,
    work_area: Option<Rect>,
    x: int,
    y: int,
)
    requires
        info.style & 0x0004_0000 != 0,
        !info.zoomed ==> insets_fit(rect, info.insets),
    ensures
        ({
            let step = frame.handled(info, Message::CalcSize { rect, work_area });
            &&& step.frame == frame
            &&& step.result == Some(0i32)
            &&& step.style is None
            &&& step.pos is None
            &&& step.actions.len() == 0
            &&& step.rect matches Some(content) && if info.zoomed {
                holds(content, x, y) == (holds(rect, x, y) && (work_area matches Some(area) ==> holds(
                    area,
                    x,
                    y,
                )))
            } else {
                holds(content, x, y) == (rect.left + info.insets.left <= x < rect.right
                    - info.insets.right && rect.top <= y < rect.bottom - info.insets.bottom)
            }
        }),
{
}

/// A point of a framed window that is on no resize border, and any point of a maximized one, is
/// answered by what the content is there alone: as the title bar exactly where it is, as the maximize
/// button exactly where one is, and as content exactly elsewhere. The button is remembered, and
/// nothing else is done.
pub proof fn law_inside_the_frame_the_content_answers(
    frame: Frame,
    info: WindowInfo,
    point: Point,
    window: Rect,
    area: Area,
)
    requires
        info.style & 0x0004_0000 != 0,
        info.zoomed || {
            &&& window.left + info.insets.left <= point.x < window.right - info.insets.right
            &&& point.y < window.bottom - info.insets.bottom
            &&& 2 * (point.y - window.top - 2) >= info.insets.bottom
        },
    ensures
        ({
            let step = frame.handled(info, Message::HitTest { point, window, area });
            &&& step.result == Some(2i32) <==> area == Area::TitleBar
            &&& step.result == Some(9i32) <==> area is MaximizeButton
            &&& step.result == Some(1i32) <==> area == Area::Content
            &&& step.frame.maximize_button == match area {
                Area::MaximizeButton(button) => Some(button),
                _ => frame.maximize_button,
            }
            &&& step.frame == (Frame { maximize_button: step.frame.maximize_button, ..frame })
            &&& step.rect is None && step.style is None && step.pos is None && step.actions.len() == 0
        }),
{
}

/// The numbers by which the system knows the borders that move the left edge.
pub open spec fn moves_left(code: i32) -> bool {
    code == 10 || code == 13 || code == 16
}

/// The numbers by which the system knows the borders that move the right edge.
pub open spec fn moves_right(code: i32) -> bool {
    code == 11 || code == 14 || code == 17
}

/// The numbers by which the system knows the borders that move the upper edge.
pub open spec fn moves_top(code: i32) -> bool {
    code == 12 || code == 13 || code == 14
}

/// The numbers by which the system knows the borders that move the lower edge.
pub open spec fn moves_bottom(code: i32) -> bool {
    code == 15 || code == 16 || code == 17
}

/// Each border of a framed window that is not maximized moves its edge, and close to a corner also the
/// other edge of that corner, whatever the content is there. The upper border is two pixels thicker
/// than half of the lower one, and corners reach twice as far as the lower border is thick. No
/// maximize button is remembered. Windows are large enough that corners are apart.
pub proof fn law_borders_move_their_edges(
    frame: Frame,
    info: WindowInfo,
    point: Point,
    window: Rect,
    area: Area,
    upper: int,
)
    requires
        info.style & 0x0004_0000 != 0,
        !info.zoomed,
        info.insets.left >= 0,
        info.insets.right >= 0,
        info.insets.bottom >= 0,
        2 * (upper - 2) <= info.insets.bottom < 2 * (upper - 2) + 2,
        window.left + info.insets.left + 4 * info.insets.bottom <= window.right - info.insets.right,
        window.top + upper + 4 * info.insets.bottom <= window.bottom - info.insets.bottom,
    ensures
        ({
            let step = frame.handled(info, Message::HitTest { point, window, area });
            let corner = 2 * info.insets.bottom;
            let from_left = point.x - (window.left + info.insets.left);
            let from_right = window.right - info.insets.right - point.x;
            let from_top = point.y - (window.top + upper);
            let from_bottom = window.bottom - info.insets.bottom - point.y;
            let across = from_left < 0 || from_right <= 0;
            let along = from_top < 0 || from_bottom <= 0;
            across || along ==> {
                &&& step.result matches Some(code) && {
                    &&& moves_left(code) <==> from_left < 0 || along && from_left < corner
                    &&& moves_right(code) <==> from_right <= 0 || along && from_right <= corner
                    &&& moves_top(code) <==> from_top < 0 || across && from_top < corner
                    &&& moves_bottom(code) <==> from_bottom <= 0 || across && from_bottom <= corner
                }
                &&& step.frame == frame
                &&& step.rect is None && step.style is None && step.pos is None
                    && step.actions.len() == 0
            }
        }),
{
}

/// Every point on a border of a framed window that is not maximized is answered as a border, also of
/// windows whose corners meet.
pub proof fn law_borders_come_first(
    frame: Frame,
    info: WindowInfo,
    point: Point,
    window: Rect,
    area: Area,
)
    requires
        info.style & 0x0004_0000 != 0,
        !info.zoomed,
        point.x < window.left + info.insets.left || point.x >= window.right - info.insets.right
            || point.y >= window.bottom - info.insets.bottom,
    ensures
        ({
            let step = frame.handled(info, Message::HitTest { point, window, area });
            &&& step.result matches Some(code) && 10 <= code <= 17
            &&& step.frame == frame
        }),
{
}

/// What a point is on is decided by the innermost widget that is part of a header bar or takes the
/// pointer for itself: on a header bar it is the title bar, on a maximize button of the window it is
/// that button. Where no widget decides, and on other widgets that take the pointer, it is content.
pub proof fn law_the_innermost_widget_decides(widgets: Seq<WidgetInfo>, k: int)
    requires
        0 <= k <= widgets.len(),
        forall|j: int|
            0 <= j < k ==> {
                let w = #[trigger] widgets[j];
                !w.window_handle && !w.button && !w.focusable && !w.editable && !w.range
            },
    ensures
        k == widgets.len() ==> area_of(widgets) == Area::Content,
        k < widgets.len() ==> {
            let w = widgets[k];
            &&& w.window_handle ==> area_of(widgets) == Area::TitleBar
            &&& !w.window_handle && w.button && w.maximize_class && w.in_window_controls
                ==> area_of(widgets) == Area::MaximizeButton(w.key)
            &&& !w.window_handle && w.button && !(w.maximize_class && w.in_window_controls)
                ==> area_of(widgets) == Area::Content
            &&& !w.window_handle && !w.button && (w.focusable || w.editable || w.range) ==> area_of(
                widgets,
            ) == Area::Content
        },
    decreases k,
{
    if k > 0 {
        let rest = widgets.drop_first();
        assert(!widgets[0].window_handle);
        assert forall|j: int| 0 <= j < k - 1 implies {
            let w = #[trigger] rest[j];
            !w.window_handle && !w.button && !w.focusable && !w.editable && !w.range
        } by {
            assert(rest[j] == widgets[j + 1]);
        }
        law_the_innermost_widget_decides(rest, k - 1);
        if k < widgets.len() {
            assert(rest[k - 1] == widgets[k]);
        }
    }
}

/// Styles that are about to change keep all of their bits and get those of a normal window, unless
/// the window becomes a popup: then they are left as they are. It is remembered whether a bit was
/// added. Other data of the window is left alone.
pub proof fn law_styles_only_gain_the_frame(frame: Frame, info: WindowInfo, index: i32, style: u32)
    ensures
        ({
            let step = frame.handled(info, Message::StyleChanging { index, style });
            &&& step.result is None && step.rect is None && step.pos is None && step.actions.len() == 0
            &&& index != -16 ==> step.style is None && step.frame == frame
            &&& index == -16 ==> {
                &&& step.style matches Some(kept) && {
                    &&& kept & style == style
                    &&& style & 0x8000_0000 != 0 ==> kept == style
                    &&& style & 0x8000_0000 == 0 ==> kept & 0x00cf_0000 == 0x00cf_0000 && kept
                        & !0x00cf_0000u32 == style & !0x00cf_0000u32
                    &&& step.frame.style_kept == (kept != style)
                }
                &&& step.frame == (Frame { style_kept: step.frame.style_kept, ..frame })
            }
        }),
{
    assert((style | 0x00cf_0000u32) & style == style) by (bit_vector);
    assert(style & style == style) by (bit_vector);
    assert((style | 0x00cf_0000u32) & 0x00cf_0000u32 == 0x00cf_0000u32) by (bit_vector);
    assert((style | 0x00cf_0000u32) & !0x00cf_0000u32 == style & !0x00cf_0000u32) by (bit_vector);
}

/// The geometry that the toolkit computed for styles that were not kept is not used, once: the window
/// neither moves nor changes its size then, and all else of the change is left as it is.
pub proof fn law_geometry_for_other_styles_is_not_used(frame: Frame, info: WindowInfo, pos: WindowPos)
    requires
        frame.style_kept,
        pos.flags & 0x20 != 0,
    ensures
        ({
            let step = frame.handled(info, Message::PosChanging(pos));
            &&& step.pos matches Some(changed) && {
                &&& changed.y == pos.y && changed.cy == pos.cy
                &&& changed.flags & 3 == 3
                &&& changed.flags & !3u32 == pos.flags & !3u32
            }
            &&& step.frame == (Frame { style_kept: false, ..frame })
            &&& step.result is None && step.rect is None && step.style is None && step.actions.len()
                == 0
        }),
{
    let flags = pos.flags;
    assert(0x0002u32 | 0x0001u32 == 3u32) by (bit_vector);
    assert((flags | 3u32) & 3u32 == 3u32) by (bit_vector);
    assert((flags | 3u32) & !3u32 == flags & !3u32) by (bit_vector);
}

/// Whether the flags are those of a change by the toolkit: it moves the window or changes its size,
/// neither activates it nor changes its order, and neither its state nor its frame changes.
pub open spec fn toolkit_flags(flags: u32) -> bool {
    &&& flags & 1 == 0 || flags & 2 == 0
    &&& flags & 4 != 0 && flags & 0x10 != 0
    &&& flags & 0x20 == 0 && flags & 0x8000 == 0
}

/// Places that the toolkit gives to a framed window lose the title bar: the window starts lower by it
/// if it is moved, and is smaller by it if its size changes. Places are corrected for no other
/// windows, and not while the frame is applied, the user drags the window, it is maximized or
/// minimized, or the change was sent by another thread.
pub proof fn law_places_of_the_toolkit_lose_the_title_bar(
    frame: Frame,
    info: WindowInfo,
    pos: WindowPos,
)
    requires
        !(frame.style_kept && pos.flags & 0x20 != 0),
        correction_fits(pos, info.insets),
    ensures
        ({
            let step = frame.handled(info, Message::PosChanging(pos));
            let toolkit = toolkit_flags(pos.flags) && info.style & 0x0004_0000 != 0 && !info.zoomed
                && !info.iconic && info.sent & 7 == 0 && !frame.in_size_move && !frame.applying;
            &&& toolkit ==> (step.pos matches Some(changed) && {
                &&& changed.flags == pos.flags
                &&& changed.y == if pos.flags & 2 == 0 {
                    pos.y + info.insets.top
                } else {
                    pos.y as int
                }
                &&& changed.cy == if pos.flags & 1 == 0 {
                    pos.cy - info.insets.top
                } else {
                    pos.cy as int
                }
            })
            &&& !toolkit ==> step.pos is None
            &&& step.frame == frame
            &&& step.result is None && step.rect is None && step.style is None && step.actions.len()
                == 0
        }),
{
    let f = pos.flags;
    assert(f & (0x0002u32 | 0x0001u32) != 0x0002u32 | 0x0001u32 <==> f & 1 == 0 || f & 2 == 0)
        by (bit_vector);
    assert(f & (0x0010u32 | 0x0004u32) == 0x0010u32 | 0x0004u32 <==> f & 4 != 0 && f & 0x10 != 0)
        by (bit_vector);
    assert(f & (0x8000u32 | 0x0020u32) == 0 <==> f & 0x20 == 0 && f & 0x8000 == 0) by (bit_vector);
}

/// The pointer is shown over the maximize button from when it comes onto it until it leaves it: the
/// first move onto the button shows it as hovered and asks for a message when the pointer leaves, and
/// further moves do nothing. Leaving it, or moving elsewhere on the frame, shows it as neither hovered
/// nor pressed, once, and takes the press back. The messages stay with the toolkit.
pub proof fn law_hovering_begins_and_ends(frame: Frame, info: WindowInfo, button: u64, elsewhere: i32)
    requires
        frame.maximize_button == Some(button),
        elsewhere != 9,
    ensures
        ({
            let on = frame.handled(info, Message::FrameMouseMove { code: 9 });
            let again = on.frame.handled(info, Message::FrameMouseMove { code: 9 });
            let gone = on.frame.handled(info, Message::FrameMouseLeave);
            let moved = on.frame.handled(info, Message::FrameMouseMove { code: elsewhere });
            let later = gone.frame.handled(info, Message::FrameMouseLeave);
            &&& !frame.maximize_button_hovered ==> on.actions == seq![
                FrameAction::SetHovered(button),
                FrameAction::TrackLeave,
            ]
            &&& frame.maximize_button_hovered ==> on.actions.len() == 0
            &&& on.frame == (Frame { maximize_button_hovered: true, ..frame })
            &&& again.actions.len() == 0 && again.frame == on.frame
            &&& gone.actions == seq![FrameAction::UnsetHoveredAndPressed(button)]
            &&& gone.frame == (Frame {
                maximize_button_hovered: false,
                maximize_button_pressed: false,
                ..frame
            })
            &&& moved == gone
            &&& later.actions.len() == 0 && later.frame == gone.frame
            &&& on.result is None && gone.result is None
        }),
{
    let on = frame.handled(info, Message::FrameMouseMove { code: 9 });
    if !frame.maximize_button_hovered {
        assert(on.actions =~= seq![FrameAction::SetHovered(button), FrameAction::TrackLeave]);
    }
}

/// Presses on the maximize button are taken from the system, and shown: pressing shows the button as
/// hovered and pressed, releasing as no longer pressed, and the window is toggled by releasing it
/// exactly when it was pressed. Presses elsewhere on the frame are left to the system.
pub proof fn law_presses_of_the_maximize_button_are_shown(
    frame: Frame,
    info: WindowInfo,
    button: u64,
    code: i32,
)
    requires
        frame.maximize_button == Some(button),
    ensures
        ({
            let down = frame.handled(info, Message::FrameButtonDown { code });
            let up = frame.handled(info, Message::FrameButtonUp { code });
            &&& code == 9 ==> {
                &&& down.result == Some(0i32) && up.result == Some(0i32)
                &&& down.frame == (Frame {
                    maximize_button_hovered: true,
                    maximize_button_pressed: true,
                    ..frame
                })
                &&& down.actions.contains(FrameAction::SetHovered(button))
                    <==> !frame.maximize_button_hovered
                &&& down.actions.contains(FrameAction::TrackLeave) <==> !frame.maximize_button_hovered
                &&& down.actions.last() == FrameAction::SetPressed(button)
                &&& up.frame == (Frame { maximize_button_pressed: false, ..frame })
                &&& up.actions[0] == FrameAction::UnsetPressed(button)
                &&& up.actions.len() == if frame.maximize_button_pressed {
                    2int
                } else {
                    1
                }
                &&& up.actions.contains(FrameAction::ToggleMaximized)
                    <==> frame.maximize_button_pressed
            }
            &&& code != 9 ==> down == frame_step(frame, None, Seq::empty()) && up == frame_step(
                frame,
                None,
                Seq::empty(),
            )
        }),
{
    let down = frame.handled(info, Message::FrameButtonDown { code });
    let up = frame.handled(info, Message::FrameButtonUp { code });
    if code == 9 {
        if !frame.maximize_button_hovered {
            assert(down.actions[0] == FrameAction::SetHovered(button));
            assert(down.actions[1] == FrameAction::TrackLeave);
        }
        if frame.maximize_button_pressed {
            assert(up.actions[1] == FrameAction::ToggleMaximized);
        }
    }
}

/// Each message changes only what it is about: the user drags the window from when the system says so
/// until it says that this is over, only style changes and the places after them change whether a
/// style was kept, only hit tests find a maximize button, only the pointer over the frame hovers and
/// presses it, and only releasing it toggles the window. The content is only answered when asked for
/// it.
pub proof fn law_messages_change_what_they_are_about(frame: Frame, info: WindowInfo, message: Message)
    ensures
        ({
            let step = frame.handled(info, message);
            let pointer = message is FrameMouseMove || message is FrameMouseLeave
                || message is FrameButtonDown || message is FrameButtonUp;
            &&& step.frame.applying == frame.applying
            &&& message is EnterSizeMove ==> step.frame.in_size_move
            &&& message is ExitSizeMove ==> !step.frame.in_size_move
            &&& !(message is EnterSizeMove || message is ExitSizeMove)
                ==> step.frame.in_size_move == frame.in_size_move
            &&& !(message is StyleChanging || message is PosChanging)
                ==> step.frame.style_kept == frame.style_kept
            &&& !(message is HitTest) ==> step.frame.maximize_button == frame.maximize_button
            &&& !pointer ==> step.frame.maximize_button_hovered == frame.maximize_button_hovered
                && step.frame.maximize_button_pressed == frame.maximize_button_pressed
                && step.actions.len() == 0
            &&& step.actions.contains(FrameAction::ToggleMaximized) ==> message is FrameButtonUp
                && frame.maximize_button_pressed
            &&& step.rect is Some ==> message is CalcSize
            &&& step.style is Some ==> message is StyleChanging
            &&& step.pos is Some ==> message is PosChanging
            &&& step.result is Some ==> message is CalcSize || message is HitTest
                || message is FrameButtonDown || message is FrameButtonUp
            &&& message is Other || message is EnterSizeMove || message is ExitSizeMove
                ==> step.result is None && step.actions.len() == 0
        }),
{
}

/// While the frame is being applied, places are not corrected and nothing is pressed. Once it has been
/// applied, places of the toolkit are.
pub proof fn law_a_fresh_frame_waits_to_be_applied(info: WindowInfo, pos: WindowPos)
    requires
        correction_fits(pos, info.insets),
        toolkit_flags(pos.flags),
        info.style & 0x0004_0000 != 0,
        !info.zoomed,
        !info.iconic,
        info.sent & 7 == 0,
    ensures
        Frame::fresh().handled(info, Message::PosChanging(pos)).pos is None,
        (Frame { applying: false, ..Frame::fresh() }).handled(
            info,
            Message::PosChanging(pos),
        ).pos is Some,
        !Frame::fresh().handled(info, Message::FrameButtonUp { code: 9 }).actions.contains(
            FrameAction::ToggleMaximized,
        ),
        Frame::fresh().handled(info, Message::FrameMouseLeave).actions.len() == 0,
{
    let applied = Frame { applying: false, ..Frame::fresh() };
    law_places_of_the_toolkit_lose_the_title_bar(Frame::fresh(), info, pos);
    law_places_of_the_toolkit_lose_the_title_bar(applied, info, pos);
}

/// A step holds what a reply says, and nothing else.
pub proof fn law_steps_hold_what_replies_say(r: Reply, frame: Frame)
    ensures
        r.step(frame).frame == frame,
        r.step(frame).result == r.result,
        r.step(frame).rect == r.rect,
        r.step(frame).style == r.style,
        r.step(frame).pos == r.pos,
        r.step(frame).actions == r.actions@,
{
}

} // verus!
