use rnote_core::frame::{
    calc_content_rect, content_area, frame_insets, hit_border, is_from_toolkit, keep_style,
    point_from_lparam, Area, Frame, FrameAction, HitCode, Message, Point, Rect, Reply, WidgetInfo,
    WindowInfo, WindowPos, APPLY_FLAGS, FRAME_STYLES, GWL_STYLE, ISMEX_SENT, SWP_FRAMECHANGED,
    SWP_NOACTIVATE, SWP_NOMOVE, SWP_NOSIZE, SWP_NOZORDER, SWP_STATECHANGED, WS_POPUP,
    WS_THICKFRAME,
};
use windows_sys::Win32::UI::WindowsAndMessaging as win;

const INSETS: Rect = Rect {
    left: 8,
    top: 31,
    right: 8,
    bottom: 8,
};

const WINDOW: Rect = Rect {
    left: 100,
    top: 100,
    right: 500,
    bottom: 400,
};

fn info() -> WindowInfo {
    WindowInfo {
        style: FRAME_STYLES,
        zoomed: false,
        iconic: false,
        insets: INSETS,
        sent: 0,
    }
}

fn attached() -> Frame {
    let mut frame = Frame::new();
    frame.applied();
    frame
}

fn widget(key: u64) -> WidgetInfo {
    WidgetInfo {
        key,
        window_handle: false,
        button: false,
        maximize_class: false,
        in_window_controls: false,
        focusable: false,
        editable: false,
        range: false,
    }
}

fn maximize_button(key: u64) -> WidgetInfo {
    WidgetInfo {
        button: true,
        maximize_class: true,
        in_window_controls: true,
        ..widget(key)
    }
}

fn untouched(reply: &Reply) -> bool {
    reply.result.is_none()
        && reply.rect.is_none()
        && reply.style.is_none()
        && reply.pos.is_none()
        && reply.actions.is_empty()
}

#[test]
fn numbers_are_those_of_the_system() {
    assert_eq!(
        FRAME_STYLES,
        win::WS_CAPTION
            | win::WS_THICKFRAME
            | win::WS_SYSMENU
            | win::WS_MINIMIZEBOX
            | win::WS_MAXIMIZEBOX
    );
    assert_eq!(WS_POPUP, win::WS_POPUP);
    assert_eq!(WS_THICKFRAME, win::WS_THICKFRAME);
    assert_eq!(SWP_NOSIZE, win::SWP_NOSIZE);
    assert_eq!(SWP_NOMOVE, win::SWP_NOMOVE);
    assert_eq!(SWP_NOZORDER, win::SWP_NOZORDER);
    assert_eq!(SWP_NOACTIVATE, win::SWP_NOACTIVATE);
    assert_eq!(SWP_FRAMECHANGED, win::SWP_FRAMECHANGED);
    assert_eq!(SWP_STATECHANGED, 0x8000);
    assert_eq!(
        APPLY_FLAGS,
        win::SWP_FRAMECHANGED
            | win::SWP_NOMOVE
            | win::SWP_NOSIZE
            | win::SWP_NOZORDER
            | win::SWP_NOOWNERZORDER
            | win::SWP_NOACTIVATE
    );
    assert_eq!(
        ISMEX_SENT,
        win::ISMEX_SEND | win::ISMEX_NOTIFY | win::ISMEX_CALLBACK
    );
    assert_eq!(GWL_STYLE, win::GWL_STYLE);
    for (code, number) in [
        (HitCode::Client, win::HTCLIENT),
        (HitCode::Caption, win::HTCAPTION),
        (HitCode::MaxButton, win::HTMAXBUTTON),
        (HitCode::Left, win::HTLEFT),
        (HitCode::Right, win::HTRIGHT),
        (HitCode::Top, win::HTTOP),
        (HitCode::TopLeft, win::HTTOPLEFT),
        (HitCode::TopRight, win::HTTOPRIGHT),
        (HitCode::Bottom, win::HTBOTTOM),
        (HitCode::BottomLeft, win::HTBOTTOMLEFT),
        (HitCode::BottomRight, win::HTBOTTOMRIGHT),
    ] {
        assert_eq!(code.code(), number as i32);
    }
}

#[test]
fn points_have_signed_coordinates() {
    assert_eq!(point_from_lparam(0x0002_0001), Point { x: 1, y: 2 });
    assert_eq!(point_from_lparam(0xfffe_ffff), Point { x: -1, y: -2 });
    assert_eq!(point_from_lparam(-1), Point { x: -1, y: -1 });
    for lparam in [0isize, 5, -7, 0x7fff_8000, -0x1234_5678, isize::MAX, isize::MIN] {
        let point = point_from_lparam(lparam);
        assert_eq!(point.x, (lparam & 0xffff) as i16 as i32);
        assert_eq!(point.y, ((lparam >> 16) & 0xffff) as i16 as i32);
    }
}

#[test]
fn insets_are_positive() {
    let adjusted = Rect { left: -8, top: -31, right: 8, bottom: 8 };
    assert_eq!(frame_insets(adjusted), INSETS);
}

#[test]
fn the_content_leaves_the_frame_free() {
    let content = calc_content_rect(WINDOW, false, None, INSETS);
    assert_eq!(content, Rect { left: 108, top: 100, right: 492, bottom: 392 });

    // Maximized windows stay on the work area.
    let zoomed = Rect { left: -8, top: -8, right: 1928, bottom: 1088 };
    let area = Rect { left: 0, top: 0, right: 1920, bottom: 1040 };
    assert_eq!(calc_content_rect(zoomed, true, Some(area), INSETS), area);
    assert_eq!(calc_content_rect(zoomed, true, None, INSETS), zoomed);
}

#[test]
fn borders_resize_the_window() {
    let at = |x, y| hit_border(Point { x, y }, WINDOW, INSETS);
    assert_eq!(at(300, 250), None);
    assert_eq!(at(107, 250), Some(HitCode::Left));
    assert_eq!(at(108, 250), None);
    assert_eq!(at(492, 250), Some(HitCode::Right));
    assert_eq!(at(491, 250), None);
    // Thinner on top.
    assert_eq!(at(300, 105), Some(HitCode::Top));
    assert_eq!(at(300, 106), None);
    assert_eq!(at(300, 392), Some(HitCode::Bottom));
    // The corners reach further.
    assert_eq!(at(123, 105), Some(HitCode::TopLeft));
    assert_eq!(at(107, 121), Some(HitCode::TopLeft));
    assert_eq!(at(480, 100), Some(HitCode::TopRight));
    assert_eq!(at(107, 380), Some(HitCode::BottomLeft));
    assert_eq!(at(480, 395), Some(HitCode::BottomRight));
}

#[test]
fn widgets_decide_from_the_inside_out() {
    let handle = WidgetInfo { window_handle: true, ..widget(3) };
    assert_eq!(content_area(&vec![widget(1), widget(2), handle]), Area::TitleBar);
    let entry = WidgetInfo { editable: true, ..widget(2) };
    assert_eq!(content_area(&vec![widget(1), entry, handle]), Area::Content);
    assert_eq!(content_area(&vec![widget(1), maximize_button(5)]), Area::MaximizeButton(5));
    // Buttons elsewhere take the pointer for themselves.
    let other = WidgetInfo { in_window_controls: false, ..maximize_button(5) };
    assert_eq!(content_area(&vec![other, handle]), Area::Content);
    assert!(other.takes_input() && !widget(1).takes_input());
    assert_eq!(content_area(&vec![widget(1)]), Area::Content);
    assert_eq!(content_area(&Vec::new()), Area::Content);
}

#[test]
fn styles_are_kept_unless_the_window_is_fullscreen() {
    assert_eq!(keep_style(0x1000_0000), 0x1000_0000 | FRAME_STYLES);
    assert_eq!(keep_style(keep_style(0)), keep_style(0));
    assert_eq!(keep_style(WS_POPUP), WS_POPUP);

    let mut frame = attached();
    let reply = frame.handle_message(&info(), Message::StyleChanging { index: GWL_STYLE, style: 0 });
    assert_eq!(reply.style, Some(FRAME_STYLES));
    assert_eq!(reply.result, None);
    assert!(frame.style_kept);

    // The geometry for the unwanted styles is left out, once.
    let pos = WindowPos { y: 10, cy: 20, flags: SWP_FRAMECHANGED };
    let reply = frame.handle_message(&info(), Message::PosChanging(pos));
    assert_eq!(
        reply.pos,
        Some(WindowPos { flags: SWP_FRAMECHANGED | SWP_NOMOVE | SWP_NOSIZE, ..pos })
    );
    assert!(!frame.style_kept);
    let reply = frame.handle_message(&info(), Message::PosChanging(pos));
    assert!(untouched(&reply));

    // Other data of the window does not matter.
    let reply = frame.handle_message(&info(), Message::StyleChanging { index: -20, style: 0 });
    assert!(untouched(&reply));
}

#[test]
fn positions_of_the_toolkit_are_corrected() {
    let flags = SWP_NOACTIVATE | SWP_NOZORDER;
    let pos = WindowPos { y: 100, cy: 300, flags };
    let mut frame = attached();
    let reply = frame.handle_message(&info(), Message::PosChanging(pos));
    assert_eq!(reply.pos, Some(WindowPos { y: 131, cy: 269, flags }));

    let only_size = WindowPos { flags: flags | SWP_NOMOVE, ..pos };
    let reply = frame.handle_message(&info(), Message::PosChanging(only_size));
    assert_eq!(reply.pos, Some(WindowPos { cy: 269, ..only_size }));
    let only_move = WindowPos { flags: flags | SWP_NOSIZE, ..pos };
    let reply = frame.handle_message(&info(), Message::PosChanging(only_move));
    assert_eq!(reply.pos, Some(WindowPos { y: 131, ..only_move }));

    assert!(is_from_toolkit(&frame, &info(), flags));
    assert!(!is_from_toolkit(&frame, &info(), flags | SWP_NOMOVE | SWP_NOSIZE));
    assert!(!is_from_toolkit(&frame, &info(), SWP_NOZORDER));
    assert!(!is_from_toolkit(&frame, &info(), flags | SWP_STATECHANGED));
    assert!(!is_from_toolkit(&frame, &info(), flags | SWP_FRAMECHANGED));
    assert!(!is_from_toolkit(&Frame::new(), &info(), flags));
    for other in [
        WindowInfo { style: 0, ..info() },
        WindowInfo { zoomed: true, ..info() },
        WindowInfo { iconic: true, ..info() },
        WindowInfo { sent: 1, ..info() },
    ] {
        assert!(!is_from_toolkit(&frame, &other, flags));
    }
    // While the user drags the window the positions are those of the system.
    let _ = frame.handle_message(&info(), Message::EnterSizeMove);
    assert!(!is_from_toolkit(&frame, &info(), flags));
    assert!(untouched(&frame.handle_message(&info(), Message::PosChanging(pos))));
    let _ = frame.handle_message(&info(), Message::ExitSizeMove);
    assert!(is_from_toolkit(&frame, &info(), flags));
}

#[test]
fn hit_tests_are_answered_while_there_is_a_frame() {
    let mut frame = attached();
    let test = |x, y, area| Message::HitTest {
        point: Point { x, y },
        window: WINDOW,
        area,
    };
    let reply = frame.handle_message(&info(), test(300, 250, Area::TitleBar));
    assert_eq!(reply.result, Some(HitCode::Caption.code()));
    let reply = frame.handle_message(&info(), test(300, 250, Area::Content));
    assert_eq!(reply.result, Some(HitCode::Client.code()));
    // The border comes first.
    let reply = frame.handle_message(&info(), test(300, 100, Area::MaximizeButton(4)));
    assert_eq!(reply.result, Some(HitCode::Top.code()));
    assert_eq!(frame.maximize_button, None);
    // Maximized windows have none.
    let zoomed = WindowInfo { zoomed: true, ..info() };
    let reply = frame.handle_message(&zoomed, test(300, 100, Area::MaximizeButton(4)));
    assert_eq!(reply.result, Some(HitCode::MaxButton.code()));
    assert_eq!(frame.maximize_button, Some(4));

    let fullscreen = WindowInfo { style: WS_POPUP, ..info() };
    assert!(untouched(&frame.handle_message(&fullscreen, test(300, 250, Area::TitleBar))));
    let size = Message::CalcSize { rect: WINDOW, work_area: None };
    assert!(untouched(&frame.handle_message(&fullscreen, size)));
    let reply = frame.handle_message(&info(), size);
    assert_eq!(reply.result, Some(0));
    assert_eq!(reply.rect, Some(Rect { left: 108, top: 100, right: 492, bottom: 392 }));
    assert!(untouched(&frame.handle_message(&info(), Message::Other)));
}

#[test]
fn the_maximize_button_is_passed_on() {
    let mut frame = attached();
    frame.maximize_button = Some(4);
    let code = HitCode::MaxButton.code();

    let reply = frame.handle_message(&info(), Message::FrameMouseMove { code });
    assert_eq!(reply.actions, [FrameAction::SetHovered(4), FrameAction::TrackLeave]);
    assert_eq!(reply.result, None);
    let reply = frame.handle_message(&info(), Message::FrameMouseMove { code });
    assert!(untouched(&reply));

    let reply = frame.handle_message(&info(), Message::FrameButtonDown { code });
    assert_eq!(reply.actions, [FrameAction::SetPressed(4)]);
    assert_eq!(reply.result, Some(0));
    let reply = frame.handle_message(&info(), Message::FrameButtonUp { code });
    assert_eq!(
        reply.actions,
        [FrameAction::UnsetPressed(4), FrameAction::ToggleMaximized]
    );
    assert_eq!(reply.result, Some(0));
    // Once.
    let reply = frame.handle_message(&info(), Message::FrameButtonUp { code });
    assert_eq!(reply.actions, [FrameAction::UnsetPressed(4)]);

    // Not when the pointer left the button in between.
    let _ = frame.handle_message(&info(), Message::FrameButtonDown { code });
    let reply = frame.handle_message(&info(), Message::FrameMouseLeave);
    assert_eq!(reply.actions, [FrameAction::UnsetHoveredAndPressed(4)]);
    let reply = frame.handle_message(&info(), Message::FrameButtonUp { code });
    assert_eq!(reply.actions, [FrameAction::UnsetPressed(4)]);

    // Elsewhere on the frame the system handles the button.
    let left = HitCode::Left.code();
    assert!(untouched(&frame.handle_message(&info(), Message::FrameButtonDown { code: left })));
    assert!(untouched(&frame.handle_message(&info(), Message::FrameButtonUp { code: left })));
    let _ = frame.handle_message(&info(), Message::FrameMouseMove { code });
    let reply = frame.handle_message(&info(), Message::FrameMouseMove { code: left });
    assert_eq!(reply.actions, [FrameAction::UnsetHoveredAndPressed(4)]);
}
