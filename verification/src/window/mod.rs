//! Windows: their settings, their state, and what a window can do.

use vstd::prelude::*;
use vstd::std_specs::convert::FromSpecImpl;

verus! {

/// What a window passes on to its user. No event carries anything as yet.
pub type InputEvent = ();

/// A size.
#[derive(Clone, Copy, Debug, PartialEq, Eq, Structural)]
pub struct Size {
    /// The width.
    pub width: u32,
    /// The height.
    pub height: u32,
}

impl FromSpecImpl<(u32, u32)> for Size {
    open spec fn obeys_from_spec() -> bool {
        true
    }

    open spec fn from_spec(t: (u32, u32)) -> Size {
        Size { width: t.0, height: t.1 }
    }
}

impl From<(u32, u32)> for Size {
    fn from(t: (u32, u32)) -> (r: Size) {
        Size { width: t.0, height: t.1 }
    }
}

impl FromSpecImpl<[u32; 2]> for Size {
    open spec fn obeys_from_spec() -> bool {
        true
    }

    open spec fn from_spec(t: [u32; 2]) -> Size {
        Size { width: t@[0], height: t@[1] }
    }
}

impl From<[u32; 2]> for Size {
    fn from(t: [u32; 2]) -> (r: Size) {
        Size { width: t[0], height: t[1] }
    }
}

/// The size of a window of which the system may know none: it is then nothing.
pub fn size_or_zero(known: Option<(u32, u32)>) -> (r: Size)
    ensures
        r == match known {
            Some(s) => (Size { width: s.0, height: s.1 }),
            None => (Size { width: 0, height: 0 }),
        },
{
    match known {
        Some(s) => Size::from(s),
        None => Size::from((0u32, 0u32)),
    }
}

/// Settings for creating a window.
#[derive(Debug)]
pub struct WindowSettings {
    pub size: Size,
    pub title: String,
    pub fullscreen: bool,
    pub vsync: bool,
    pub gl: (u8, u8),
}

impl WindowSettings {
    /// The settings that a window has unless others are specified.
    pub open spec fn is_default(&self) -> bool {
        &&& self.size == Size { width: 800, height: 600 }
        &&& self.title@ == Seq::<char>::empty()
        &&& !self.fullscreen
        &&& !self.vsync
        &&& self.gl == (3u8, 3u8)
    }

    /// Creates a new WindowSettings with default params.
    pub fn new() -> (r: WindowSettings)
        ensures
            r.is_default(),
    {
        WindowSettings {
            size: Size::from((800u32, 600u32)),
            title: String::new(),
            fullscreen: false,
            vsync: false,
            gl: (3, 3),
        }
    }

    /// Specify a size.
    pub fn with_size(self, s: Size) -> (r: WindowSettings)
        ensures
            r == (WindowSettings { size: s, ..self }),
    {
        WindowSettings { size: s, ..self }
    }

    /// Specify a title.
    pub fn with_title(self, t: String) -> (r: WindowSettings)
        ensures
            r == (WindowSettings { title: t, ..self }),
    {
        WindowSettings { title: t, ..self }
    }

    /// Whether the window should be fullscreen.
    pub fn with_fullscreen(self, f: bool) -> (r: WindowSettings)
        ensures
            r == (WindowSettings { fullscreen: f, ..self }),
    {
        WindowSettings { fullscreen: f, ..self }
    }

    /// Whether the window should render in vsync.
    pub fn with_vsync(self, v: bool) -> (r: WindowSettings)
        ensures
            r == (WindowSettings { vsync: v, ..self }),
    {
        WindowSettings { vsync: v, ..self }
    }

    /// Specify an OpenGL version for this window to be created with.
    pub fn with_gl_version(self, v: (u8, u8)) -> (r: WindowSettings)
        ensures
            r == (WindowSettings { gl: v, ..self }),
    {
        WindowSettings { gl: v, ..self }
    }
}

impl Clone for WindowSettings {
    fn clone(&self) -> (r: WindowSettings)
        ensures
            r == *self,
    {
        WindowSettings {
            size: self.size,
            title: self.title.clone(),
            fullscreen: self.fullscreen,
            vsync: self.vsync,
            gl: self.gl,
        }
    }
}

impl Default for WindowSettings {
    fn default() -> (r: WindowSettings)
        ensures
            r.is_default(),
    {
        WindowSettings::new()
    }
}

/// What happens to a window, as far as it matters here.
#[derive(Clone, Copy, Debug, PartialEq, Eq, Structural)]
pub enum WindowEvent {
    /// The user asks for the window to be closed.
    Closed,
    /// Anything else.
    Other,
}

/// How the system treats the cursor while the window has the focus.
#[derive(Clone, Copy, Debug, PartialEq, Eq, Structural)]
pub enum CursorState {
    /// Shown, and free to leave.
    Normal,
    /// Hidden, and kept inside.
    Grab,
}

/// What a window remembers of itself, apart from what the system keeps for it.
#[derive(Debug)]
pub struct WindowState {
    pub title: String,
    pub should_close: bool,
    pub capture_cursor: bool,
}

impl WindowState {
    /// The state of a window that has just been created.
    pub fn new(settings: &WindowSettings) -> (r: WindowState)
        ensures
            r.title@ == settings.title@,
            !r.should_close,
            !r.capture_cursor,
    {
        WindowState { title: settings.title.clone(), should_close: false, capture_cursor: false }
    }

    /// Sets the title.
    pub fn set_title(&mut self, title: String)
        ensures
            *final(self) == (WindowState { title, ..*old(self) }),
    {
        self.title = title;
    }

    /// Sets whether to capture and hide the cursor, and says what to ask of the system.
    pub fn set_capture_cursor(&mut self, capture: bool) -> (r: CursorState)
        ensures
            *final(self) == (WindowState { capture_cursor: capture, ..*old(self) }),
            r == if capture {
                CursorState::Grab
            } else {
                CursorState::Normal
            },
    {
        self.capture_cursor = capture;
        if capture {
            CursorState::Grab
        } else {
            CursorState::Normal
        }
    }

    /// Takes note of the next event, if there is one, and says what to pass on. A window
    /// that was once asked to close is to close.
    pub fn handle_event(&mut self, event: Option<WindowEvent>) -> (r: Option<InputEvent>)
        ensures
            *final(self) == (WindowState {
                should_close: old(self).should_close || event == Some(WindowEvent::Closed),
                ..*old(self)
            }),
            r is None,
    {
        if let Some(WindowEvent::Closed) = event {
            self.should_close = true;
        }
        None
    }
}

/// A generic window trait.
pub trait Window: Sized {
    /// Creates a window.
    fn new(settings: WindowSettings) -> (r: Self);

    /// Whether the window should close.
    fn should_close(&self) -> (r: bool);

    /// The size of the window.
    fn size(&self) -> (r: Size);

    /// The size of the area of the window, minus the border and title bar.
    fn inner_size(&self) -> (r: Size);

    /// Gets the current title of the window.
    fn title(&self) -> (r: String);

    /// Sets the title of the window.
    fn set_title(&mut self, title: String);

    /// Whether to capture and hide the cursor.
    fn set_capture_cursor(&mut self, capture: bool);

    /// Polls for the next event
    fn poll_event(&mut self) -> (r: Option<InputEvent>);
}

/// A size is made of the width and the height, in this order. A window of unknown size has none.
pub proof fn law_sizes_have_width_and_height(
    width: u32,
    height: u32,
    pair: Size,
    array: Size,
    known: Size,
    unknown: Size,
    both: [u32; 2],
)
    requires
        both@[0] == width,
        both@[1] == height,
        call_ensures(<Size as From<(u32, u32)>>::from, ((width, height),), pair),
        call_ensures(<Size as From<[u32; 2]>>::from, (both,), array),
        call_ensures(size_or_zero, (Some((width, height)),), known),
        call_ensures(size_or_zero, (None::<(u32, u32)>,), unknown),
    ensures
        pair.width == width && pair.height == height,
        array == pair,
        known == pair,
        unknown.width == 0 && unknown.height == 0,
{
}

/// The default settings are for a window of 800 by 600 without a title, neither fullscreen nor in
/// vsync, for OpenGL 3.3.
pub proof fn law_default_settings(r: WindowSettings, d: WindowSettings)
    requires
        call_ensures(WindowSettings::new, (), r),
        call_ensures(<WindowSettings as Default>::default, (), d),
    ensures
        r.size.width == 800 && r.size.height == 600,
        r.title@.len() == 0,
        !r.fullscreen && !r.vsync,
        r.gl.0 == 3 && r.gl.1 == 3,
        d.size == r.size && d.title@ == r.title@ && d.fullscreen == r.fullscreen && d.vsync
            == r.vsync && d.gl == r.gl,
{
}

/// Specifying one setting leaves the others, so that they can be specified in any order.
pub proof fn law_settings_are_independent(
    s: WindowSettings,
    size: Size,
    title: String,
    fullscreen: bool,
    vsync: bool,
    gl: (u8, u8),
    s1: WindowSettings,
    s2: WindowSettings,
    s3: WindowSettings,
    s4: WindowSettings,
    s5: WindowSettings,
)
    requires
        call_ensures(WindowSettings::with_size, (s, size), s1),
        call_ensures(WindowSettings::with_title, (s1, title), s2),
        call_ensures(WindowSettings::with_fullscreen, (s2, fullscreen), s3),
        call_ensures(WindowSettings::with_vsync, (s3, vsync), s4),
        call_ensures(WindowSettings::with_gl_version, (s4, gl), s5),
    ensures
        s5.size == size,
        s5.title == title,
        s5.fullscreen == fullscreen,
        s5.vsync == vsync,
        s5.gl == gl,
        s4.gl == s.gl,
        s3.vsync == s.vsync,
        s2.fullscreen == s.fullscreen,
        s1.title == s.title,
{
}

/// A window that was asked to close is to close, whatever else happens, and no other is.
pub proof fn law_windows_close_when_asked(event: Option<WindowEvent>, r: Option<InputEvent>)
    ensures
        forall|w: &mut WindowState| #[trigger]
            call_ensures(WindowState::handle_event, (w, event), r) ==> {
                &&& event == Some(WindowEvent::Closed) ==> final(w).should_close
                &&& w.should_close ==> final(w).should_close
                &&& final(w).should_close ==> w.should_close || event == Some(WindowEvent::Closed)
                &&& final(w).title == w.title && final(w).capture_cursor == w.capture_cursor
            },
{
}

} // verus!
