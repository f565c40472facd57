//! What each key does.

use vstd::prelude::*;

use crate::app::{App, AppModel, Mode, Outcome};

verus! {

/// A key, as far as it matters.
#[derive(Debug, Clone, Copy, PartialEq, Eq, Structural)]
pub enum KeyCode {
    Char(char),
    Enter,
    Esc,
    Backspace,
    Tab,
    Up,
    Down,
    Left,
    Right,
    Other,
}

/// A key that was pressed, alone or with the control key.
#[derive(Debug, Clone, Copy, PartialEq, Eq, Structural)]
pub struct KeyPress {
    pub code: KeyCode,
    pub control: bool,
}

impl AppModel {
    /// The program after the space bar: playback is started or paused, following switched over.
    pub open spec fn after_space(self) -> AppModel {
        if self.is_live() {
            self.follow_toggled()
        } else {
            self.transported(self.transport().toggled())
        }
    }

    /// The program after a seek, which stops a live cursor from following.
    pub open spec fn after_seek(self, forward: bool) -> AppModel {
        self.frozen().transported(self.transport().sought(forward))
    }

    /// The program after a key that is a command.
    pub open spec fn after_command(self, code: KeyCode) -> AppModel {
        match code {
            KeyCode::Char(c) => if c == 's' {
                self.resorted()
            } else if c == 'S' {
                AppModel { dir: self.dir.reverse(), ..self }
            } else if c == '/' {
                AppModel { mode: Mode::Filter, ..self }
            } else if c == 'j' {
                self.moved(true)
            } else if c == 'k' {
                self.moved(false)
            } else if c == ' ' {
                self.after_space()
            } else if c == '+' || c == '=' {
                self.with_transport(self.transport().up())
            } else if c == '-' || c == '_' {
                self.with_transport(self.transport().down())
            } else if c == '.' {
                self.frozen().stepped_on()
            } else if c == ',' {
                self.frozen().stepped_back()
            } else {
                self
            },
            KeyCode::Down => self.moved(true),
            KeyCode::Up => self.moved(false),
            KeyCode::Left => self.after_seek(false),
            KeyCode::Right => self.after_seek(true),
            KeyCode::Enter => AppModel { detail_open: true, ..self },
            KeyCode::Esc => AppModel { detail_open: false, ..self },
            KeyCode::Tab => AppModel { view: self.view.following(), ..self },
            KeyCode::Backspace => self,
            KeyCode::Other => self,
        }
    }

    /// The program after a key that belongs to the filter.
    pub open spec fn after_text(self, code: KeyCode) -> AppModel {
        match code {
            KeyCode::Enter => AppModel { mode: Mode::Nav, ..self },
            KeyCode::Esc => (AppModel { mode: Mode::Nav, ..self }).filtered(Seq::empty()),
            KeyCode::Backspace => self.filtered(
                if self.query.len() == 0 {
                    self.query
                } else {
                    self.query.drop_last()
                },
            ),
            KeyCode::Char(c) => self.filtered(self.query.push(c)),
            _ => self,
        }
    }

    /// The key ends the program: control-C always does, `q` where it is a command.
    pub open spec fn quits_on(self, key: KeyPress) -> bool {
        (key.control && key.code == KeyCode::Char('c')) || (self.mode == Mode::Nav && key.code
            == KeyCode::Char('q'))
    }

    /// The program after a key.
    pub open spec fn after_key(self, key: KeyPress) -> AppModel {
        if self.quits_on(key) {
            self
        } else {
            match self.mode {
                Mode::Nav => self.after_command(key.code),
                Mode::Filter => self.after_text(key.code),
            }
        }
    }
}

fn handle_nav(app: &mut App, code: KeyCode) -> (res: Outcome)
    requires
        old(app)@.wf(),
    ensures
        res == (if code == KeyCode::Char('q') {
            Outcome::Quit
        } else {
            Outcome::Continue
        }),
        final(app)@ == (if code == KeyCode::Char('q') {
            old(app)@
        } else {
            old(app)@.after_command(code)
        }),
        final(app)@.wf(),
{
    match code {
        KeyCode::Char('q') => {
            return Outcome::Quit;
        },
        KeyCode::Char('s') => app.cycle_sort(),
        KeyCode::Char('S') => app.toggle_dir(),
        KeyCode::Char('/') => app.enter_filter(),
        KeyCode::Char('j') | KeyCode::Down => app.move_down(),
        KeyCode::Char('k') | KeyCode::Up => app.move_up(),
        KeyCode::Char(' ') => {
            if app.is_live() {
                app.toggle_follow();
            } else {
                app.toggle_play();
            }
        },
        KeyCode::Left => {
            app.freeze_if_live();
            app.seek(false);
        },
        KeyCode::Right => {
            app.freeze_if_live();
            app.seek(true);
        },
        KeyCode::Char('+') | KeyCode::Char('=') => app.faster(),
        KeyCode::Char('-') | KeyCode::Char('_') => app.slower(),
        KeyCode::Char('.') => {
            app.freeze_if_live();
            app.step_forward();
        },
        KeyCode::Char(',') => {
            app.freeze_if_live();
            app.step_back();
        },
        KeyCode::Enter => app.open_detail(),
        KeyCode::Esc => app.close_detail(),
        KeyCode::Tab => app.cycle_detail_view(),
        _ => {},
    }
    Outcome::Continue
}

fn handle_filter(app: &mut App, code: KeyCode)
    ensures
        final(app)@ == old(app)@.after_text(code),
        old(app)@.wf() ==> final(app)@.wf(),
{
    match code {
        KeyCode::Enter => app.confirm_filter(),
        KeyCode::Esc => app.cancel_filter(),
        KeyCode::Backspace => app.pop_filter(),
        KeyCode::Char(c) => app.push_filter(c),
        _ => {},
    }
}

/// Does what a key asks for, and says whether to go on. Keys are commands, or text while the
/// filter is typed.
pub fn handle_key(app: &mut App, key: KeyPress) -> (res: Outcome)
    requires
        old(app)@.wf(),
    ensures
        res == (if old(app)@.quits_on(key) {
            Outcome::Quit
        } else {
            Outcome::Continue
        }),
        final(app)@ == old(app)@.after_key(key),
        final(app)@.wf(),
{
    if key.control && key.code == KeyCode::Char('c') {
        return Outcome::Quit;
    }
    match app.mode() {
        Mode::Nav => handle_nav(app, key.code),
        Mode::Filter => {
            handle_filter(app, key.code);
            Outcome::Continue
        },
    }
}

/// Whatever is typed into the filter, the playback, the order and the detail pane stay as they
/// are; only control-C ends the program.
pub proof fn law_typing_touches_only_the_list(app: AppModel, key: KeyPress)
    requires
        app.mode == Mode::Filter,
    ensures
        app.after_key(key).play == app.play,
        app.after_key(key).field == app.field,
        app.after_key(key).dir == app.dir,
        app.after_key(key).detail_open == app.detail_open,
        app.after_key(key).view == app.view,
        app.after_key(key).rows == app.rows,
        app.quits_on(key) ==> key.control,
{
}

/// A key that ends the program changes nothing.
pub proof fn law_quitting_changes_nothing(app: AppModel, key: KeyPress)
    requires
        app.quits_on(key),
    ensures
        app.after_key(key) == app,
{
}

/// Moving the cursor of a live view by hand stops it from following.
pub proof fn law_moving_by_hand_freezes(app: AppModel, forward: bool)
    ensures
        !app.after_seek(forward).is_following(),
        !app.frozen().stepped_on().is_following(),
        !app.frozen().stepped_back().is_following(),
{
}

/// No key takes the selection off the screen.
pub proof fn law_keys_keep_the_selection_on_screen(app: AppModel, key: KeyPress)
    requires
        app.rows.len() <= usize::MAX,
        app.selection_shows(),
    ensures
        app.after_key(key).selection_shows(),
{
    let frozen = app.frozen();
    let code = key.code;
    crate::app::law_selection_always_shows(app, Seq::empty(), true, arbitrary());
    crate::app::law_selection_always_shows(app, Seq::empty(), false, arbitrary());
    assert(frozen.visible() == app.visible());
    match app.mode {
        Mode::Filter => {
            let typing = AppModel { mode: Mode::Nav, ..app };
            assert(typing.visible() == app.visible());
            crate::app::law_selection_always_shows(typing, Seq::empty(), true, arbitrary());
            crate::app::law_selection_always_shows(app, app.after_text(code).query, true, arbitrary());
        },
        Mode::Nav => {
            let next = app.after_command(code);
            match next.play {
                Some(p) => {
                    crate::app::law_selection_always_shows(app, Seq::empty(), true, p);
                    crate::app::law_selection_always_shows(frozen, Seq::empty(), true, p);
                },
                None => {},
            }
            if next.rows == app.rows && next.query == app.query && next.field == app.field
                && next.dir == app.dir {
                assert(next.visible() == app.visible());
            }
        },
    }
}

} // verus!
