use entity_engine::window::{
    size_or_zero, CursorState, Size, WindowEvent, WindowSettings, WindowState,
};

#[test]
fn sizes() {
    assert_eq!(Size::from((3, 4)), Size { width: 3, height: 4 });
    assert_eq!(Size::from([3, 4]), Size { width: 3, height: 4 });
    assert_eq!(size_or_zero(Some((5, 6))), Size { width: 5, height: 6 });
    assert_eq!(size_or_zero(None), Size { width: 0, height: 0 });
}

#[test]
fn default_settings() {
    for s in [WindowSettings::new(), WindowSettings::default()] {
        assert_eq!(s.size, Size { width: 800, height: 600 });
        assert_eq!(s.title, "");
        assert!(!s.fullscreen);
        assert!(!s.vsync);
        assert_eq!(s.gl, (3, 3));
    }
}

#[test]
fn settings_are_specified_one_by_one() {
    let s = WindowSettings::new()
        .with_size((1, 2).into())
        .with_title(String::from("t"))
        .with_fullscreen(true)
        .with_vsync(true)
        .with_gl_version((4, 5));
    assert_eq!(s.size, Size { width: 1, height: 2 });
    assert_eq!(s.title, "t");
    assert!(s.fullscreen);
    assert!(s.vsync);
    assert_eq!(s.gl, (4, 5));
    let c = s.clone();
    assert_eq!(c.title, "t");
    assert_eq!(c.gl, (4, 5));
}

#[test]
fn window_state() {
    let mut w = WindowState::new(&WindowSettings::new().with_title(String::from("first")));
    assert_eq!(w.title, "first");
    w.set_title(String::from("second"));
    assert_eq!(w.title, "second");
    assert_eq!(w.set_capture_cursor(true), CursorState::Grab);
    assert!(w.capture_cursor);
    assert_eq!(w.set_capture_cursor(false), CursorState::Normal);
    assert!(w.handle_event(None).is_none());
    assert!(w.handle_event(Some(WindowEvent::Other)).is_none());
    assert!(!w.should_close);
    assert!(w.handle_event(Some(WindowEvent::Closed)).is_none());
    assert!(w.should_close);
    w.handle_event(Some(WindowEvent::Other));
    assert!(w.should_close);
}
