//! The editor: the open files, the kill buffer, the resolved screen
//! styles, and the dispatch from input events to file operations.

use vstd::prelude::*;
use vstd::utf8::valid_utf8;
use crate::config::Config;
use crate::file::{
    backspace_post, delete_post, down_post, end_post, File, home_post, horizontal_post,
    kill_post, redo_post, status_text, type_char_post, undo_post, unkill_post, up_post,
};
use crate::unicode::{bwd_n, fwd_n};
use crate::terminal::{
    esc_attr, esc_clear, esc_move, InputError, InputEvent, Key, TextAttr, Terminal,
};

verus! {

/// The resolved styles of the four screen regions.
pub struct UiAttrs {
    pub default: TextAttr,
    pub header: TextAttr,
    pub status: TextAttr,
    pub line_nums: TextAttr,
}

/// A style resolved from its configured names.
pub open spec fn attr_built(
    p: Seq<(Vec<u8>, crate::config::Colour)>,
    src: crate::config::ConfigTextAttr,
    a: TextAttr,
) -> bool {
    &&& crate::config::lookup(p, src.fg@) == Some(a.fg)
    &&& crate::config::lookup(p, src.bg@) == Some(a.bg)
    &&& a.bold == src.bold
    &&& !a.underline
    &&& !a.italic
}

impl UiAttrs {
    /// Resolves all four region styles; a palette name that does not
    /// resolve comes back as the error.
    pub fn build(config: &Config) -> (r: Result<UiAttrs, Vec<u8>>)
        ensures
            match r {
                Ok(u) => {
                    &&& attr_built(config.palette@, config.ui.default, u.default)
                    &&& attr_built(config.palette@, config.ui.header, u.header)
                    &&& attr_built(config.palette@, config.ui.status, u.status)
                    &&& attr_built(config.palette@, config.ui.line_nums, u.line_nums)
                },
                Err(name) => crate::config::lookup(config.palette@, name@) is None,
            },
    {
        let default = match TextAttr::build(&config.palette, &config.ui.default) {
            Ok(a) => a,
            Err(n) => {
                return Err(n);
            },
        };
        let header = match TextAttr::build(&config.palette, &config.ui.header) {
            Ok(a) => a,
            Err(n) => {
                return Err(n);
            },
        };
        let status = match TextAttr::build(&config.palette, &config.ui.status) {
            Ok(a) => a,
            Err(n) => {
                return Err(n);
            },
        };
        let line_nums = match TextAttr::build(&config.palette, &config.ui.line_nums) {
            Ok(a) => a,
            Err(n) => {
                return Err(n);
            },
        };
        Ok(UiAttrs { default, header, status, line_nums })
    }
}

/// The header line: the one-based place of the active file among all
/// open files, its name, and a star when it has unsaved changes.
pub open spec fn header_line(e: Editor) -> Seq<u8> {
    seq![32u8, 32u8, 91u8] + crate::digits::dec_digits(e.file_idx + 1) + seq![47u8]
        + crate::digits::dec_digits(e.files@.len() as int) + seq![93u8, 32u8, 32u8]
        + e.files@[e.file_idx as int].st().fname() + (if e.files@[
        e.file_idx as int
    ].st().is_dirty() {
        seq![32u8, 42u8]
    } else {
        Seq::empty()
    })
}

/// The status line: the stashed message if one is waiting, else the
/// active file's cursor position.
pub open spec fn status_line(e: Editor) -> Seq<u8> {
    seq![32u8, 32u8] + match e.error {
        Option::Some(m) => m@,
        Option::None => status_text(e.files@[e.file_idx as int].st()),
    }
}

/// The events the dispatch table gives a meaning; any other event only
/// leaves a message for the status line.
pub open spec fn event_known(ev: InputEvent) -> bool {
    match ev {
        InputEvent::TextSize { rows, cols } => true,
        InputEvent::Key(k) => match k {
            Key::Char(c) => true,
            Key::Up => true,
            Key::Down => true,
            Key::Left => true,
            Key::Right => true,
            Key::PageUp => true,
            Key::PageDown => true,
            Key::Backspace => true,
            Key::Delete => true,
            Key::Home => true,
            Key::End => true,
            _ => false,
        },
        InputEvent::CtrlKey(k) => match k {
            Key::Char(c) => c == 'p' || c == 'n' || c == 'b' || c == 'f' || c == 'v' || c
                == 'd' || c == 'a' || c == 'e' || c == 'i' || c == 'k' || c == 'l' || c
                == 'm' || c == 's' || c == 'u' || c == 'z',
            _ => false,
        },
        InputEvent::AltKey(k) => match k {
            Key::Char(c) => c == 'v' || c == 'e' || c == 'u' || c == 'x',
            Key::Left => true,
            Key::Right => true,
            _ => false,
        },
        _ => false,
    }
}

/// What the dispatch does to the active file, by event: each editing or
/// movement event acts exactly as the file operation it names; everything
/// else leaves the file as it was.
pub open spec fn dispatch_post(
    e0: Editor,
    a0: crate::file::FileState,
    a1: crate::file::FileState,
    kb1: Seq<u8>,
    ev: InputEvent,
) -> bool {
    let page = e0.term_rows - 4;
    match ev {
        InputEvent::Key(k) => match k {
            Key::Char(c) => type_char_post(a0, a1, c),
            Key::Up => up_post(a0, a1, 1),
            Key::Down => down_post(a0, a1, 1),
            Key::Left => horizontal_post(a0, a1, bwd_n(a0.text(), a0.buf().cur(), 1)),
            Key::Right => horizontal_post(a0, a1, fwd_n(a0.text(), a0.buf().cur(), 1)),
            Key::PageUp => up_post(a0, a1, page),
            Key::PageDown => down_post(a0, a1, page),
            Key::Backspace => backspace_post(a0, a1),
            Key::Delete => delete_post(a0, a1),
            Key::Home => home_post(a0, a1),
            Key::End => end_post(a0, a1),
            _ => a1 == a0,
        },
        InputEvent::CtrlKey(k) => match k {
            Key::Char(c) => if c == 'p' {
                up_post(a0, a1, 1)
            } else if c == 'n' {
                down_post(a0, a1, 1)
            } else if c == 'b' {
                horizontal_post(a0, a1, bwd_n(a0.text(), a0.buf().cur(), 1))
            } else if c == 'f' {
                horizontal_post(a0, a1, fwd_n(a0.text(), a0.buf().cur(), 1))
            } else if c == 'v' {
                down_post(a0, a1, page)
            } else if c == 'd' {
                delete_post(a0, a1)
            } else if c == 'a' {
                home_post(a0, a1)
            } else if c == 'e' {
                end_post(a0, a1)
            } else if c == 'i' {
                type_char_post(a0, a1, '\t')
            } else if c == 'k' {
                kill_post(
                    a0,
                    a1,
                    if e0.prev_event == Some(InputEvent::CtrlKey(Key::Char('k'))) {
                        e0.kill_buf@
                    } else {
                        Seq::<u8>::empty()
                    },
                    kb1,
                )
            } else if c == 'm' {
                type_char_post(a0, a1, '\n')
            } else if c == 'u' {
                unkill_post(a0, a1, e0.kill_buf@)
            } else {
                a1 == a0
            },
            _ => a1 == a0,
        },
        InputEvent::AltKey(k) => match k {
            Key::Char(c) => if c == 'v' {
                up_post(a0, a1, page)
            } else if c == 'u' {
                undo_post(a0, a1)
            } else if c == 'e' {
                redo_post(a0, a1)
            } else {
                a1 == a0
            },
            _ => a1 == a0,
        },
        _ => a1 == a0,
    }
}

/// What the caller must do after one dispatched event.
pub enum EditorStep {
    /// Nothing outside the editor: read the next event.
    Continue,
    /// Leave the main loop.
    Quit,
    /// Write the bytes to the named file, then report the outcome with
    /// `confirm_saved` or `report_save_error`.
    Save(Vec<u8>, Vec<u8>),
    /// Restore the given terminal attributes, stop the process, and call
    /// `resume` with freshly captured attributes when it continues.
    Suspend(termios::Termios),
}

/// The editor: terminal, open files, kill buffer, and screen styles.
pub struct Editor {
    pub term: Terminal,
    pub term_rows: usize,
    pub term_cols: usize,
    pub kill_buf: Vec<u8>,
    pub prev_event: Option<InputEvent>,
    pub files: Vec<File>,
    pub file_idx: usize,
    pub config: Config,
    pub ui_attrs: UiAttrs,
    pub error: Option<Vec<u8>>,
}

impl Editor {
    /// The editor invariant: at least one file, each satisfying its own
    /// invariant, an active index in range, a valid kill buffer, and
    /// enough rows to lay the screen out.
    pub open spec fn inv(&self) -> bool {
        &&& self.files@.len() >= 1
        &&& self.file_idx < self.files@.len()
        &&& forall|i: int|
            0 <= i < self.files@.len() ==> (#[trigger] self.files@[i]).st().inv()
        &&& valid_utf8(self.kill_buf@)
        &&& self.term_rows >= 5
    }

    /// An editor over the given files, with the styles resolved from the
    /// configuration; an unresolvable palette name is the error.
    pub fn new(files: Vec<File>, config: Config, term: Terminal) -> (r: Result<
        Editor,
        Vec<u8>,
    >)
        requires
            files@.len() >= 1,
            forall|i: int| 0 <= i < files@.len() ==> (#[trigger] files@[i]).st().inv(),
        ensures
            match r {
                Ok(e) => e.inv() && e.files == files && e.file_idx == 0,
                Err(name) => crate::config::lookup(config.palette@, name@) is None,
            },
    {
        let ui_attrs = match UiAttrs::build(&config) {
            Ok(u) => u,
            Err(n) => {
                return Err(n);
            },
        };
        Ok(
            Editor {
                term,
                term_rows: 25,
                term_cols: 80,
                kill_buf: Vec::new(),
                prev_event: None,
                files,
                file_idx: 0,
                config,
                ui_attrs,
                error: None,
            },
        )
    }

    /// The file the cursor works in.
    pub fn active_file(&self) -> (r: &File)
        requires
            self.inv(),
        ensures
            r == self.files@[self.file_idx as int],
    {
        &self.files[self.file_idx]
    }

    /// Stashes a message for an input that did not decode; the next redraw
    /// shows it on the status line.
    pub fn report_input_error(&mut self, e: InputError)
        requires
            old(self).inv(),
        ensures
            final(self).inv(),
            final(self).error is Some,
            *final(self) == (Editor { error: final(self).error, ..*old(self) }),
    {
        let mut msg: Vec<u8> = Vec::new();
        let text: [u8; 11] = match e {
            InputError::InvalidCsi(_) => [
                73u8,
                110u8,
                118u8,
                97u8,
                108u8,
                105u8,
                100u8,
                32u8,
                67u8,
                83u8,
                73u8,
            ],
            InputError::InvalidEsc(_) => [
                73u8,
                110u8,
                118u8,
                97u8,
                108u8,
                105u8,
                100u8,
                32u8,
                69u8,
                83u8,
                67u8,
            ],
            InputError::InvalidUtf8(_) => [
                73u8,
                110u8,
                118u8,
                97u8,
                108u8,
                105u8,
                100u8,
                32u8,
                85u8,
                84u8,
                70u8,
            ],
            InputError::InvalidByte(_) => [
                73u8,
                110u8,
                118u8,
                97u8,
                108u8,
                105u8,
                100u8,
                32u8,
                107u8,
                101u8,
                121u8,
            ],
        };
        msg.extend_from_slice(&text);
        self.error = Some(msg);
    }

    /// Records that the bytes a save step handed out reached the disk:
    /// the active file becomes clean and its coalescing run ends.
    pub fn confirm_saved(&mut self)
        requires
            old(self).inv(),
        ensures
            final(self).inv(),
            !final(self).files@[old(self).file_idx as int].st().is_dirty(),
            final(self).files@[old(self).file_idx as int].st().text() == old(self).files@[
                old(self).file_idx as int
            ].st().text(),
            final(self).files@.len() == old(self).files@.len(),
            final(self).file_idx == old(self).file_idx,
            forall|i: int|
                0 <= i < old(self).files@.len() && i != old(self).file_idx
                    ==> final(self).files@[i] == old(self).files@[i],
    {
        let idx = self.file_idx;
        let f = &mut self.files[idx];
        f.mark_saved();
        proof {
            assert(forall|i: int|
                0 <= i < self.files@.len() ==> (#[trigger] self.files@[i]).st().inv());
        }
    }

    /// Stashes a message for a save whose write failed; the file stays
    /// dirty and the next redraw shows the message.
    pub fn report_save_error(&mut self)
        requires
            old(self).inv(),
        ensures
            final(self).inv(),
            final(self).error is Some,
            *final(self) == (Editor { error: final(self).error, ..*old(self) }),
    {
        let mut msg: Vec<u8> = Vec::new();
        // "save failed"
        msg.push(115u8);
        msg.push(97u8);
        msg.push(118u8);
        msg.push(101u8);
        msg.push(32u8);
        msg.push(102u8);
        msg.push(97u8);
        msg.push(105u8);
        msg.push(108u8);
        msg.push(101u8);
        msg.push(100u8);
        self.error = Some(msg);
    }

    /// Called when the process continues after a suspension: re-enters raw
    /// mode with the freshly captured attributes and asks for a new size
    /// report.
    pub fn resume(&mut self, captured: termios::Termios) -> (raw: termios::Termios)
        requires
            old(self).inv(),
            old(self).term.saved() is None,
        ensures
            final(self).inv(),
            final(self).term.saved() == Some(captured),
            final(self).term.out() == old(self).term.out() + crate::terminal::esc_alt_enter()
                + crate::terminal::esc_size_report(),
    {
        let raw = self.term.start(captured);
        self.term.request_size();
        proof {
            assert(self.term.out() =~= old(self).term.out()
                + crate::terminal::esc_alt_enter() + crate::terminal::esc_size_report());
        }
        proof {
            assert(forall|i: int|
                0 <= i < self.files@.len() ==> (#[trigger] self.files@[i]).st().inv());
        }
        raw
    }

    /// Dispatches one decoded event: edits or moves within the active
    /// file, switches files, tracks the terminal size, and reports what
    /// the caller must do next. An event with no meaning here leaves a
    /// message for the status line.
    #[verifier::rlimit(100)]
    pub fn handle_event(&mut self, ev: InputEvent) -> (r: EditorStep)
        requires
            old(self).inv(),
            ev == InputEvent::CtrlKey(Key::Char('z')) ==> old(self).term.saved() is Some,
        ensures
            final(self).inv(),
            final(self).prev_event == Some(ev),
            r is Quit <==> ev == InputEvent::AltKey(Key::Char('x')),
            r is Suspend <==> ev == InputEvent::CtrlKey(Key::Char('z')),
            r is Save <==> ev == InputEvent::CtrlKey(Key::Char('s')),
            match r {
                EditorStep::Save(name, data) => {
                    &&& name@ == old(self).files@[old(self).file_idx as int].st().fname()
                    &&& data@ == old(self).files@[old(self).file_idx as int].st().text()
                },
                EditorStep::Suspend(t) => t == old(self).term.saved()->0 && final(self).term.saved() is None,
                EditorStep::Quit => *final(self) == (Editor {
                    prev_event: Some(ev),
                    error: None,
                    ..*old(self)
                }),
                EditorStep::Continue => true,
            },
            // the active file changes exactly as the named operation says
            dispatch_post(
                *old(self),
                old(self).files@[old(self).file_idx as int].st(),
                final(self).files@[old(self).file_idx as int].st(),
                final(self).kill_buf@,
                ev,
            ),
            // no other file is touched
            final(self).files@.len() == old(self).files@.len(),
            forall|i: int|
                0 <= i < old(self).files@.len() && i != old(self).file_idx
                    ==> final(self).files@[i] == old(self).files@[i],
            // only file switching moves the active index
            ev == InputEvent::AltKey(Key::Left) ==> final(self).file_idx as int == (
            if old(self).file_idx == 0 {
                old(self).files@.len() - 1
            } else {
                old(self).file_idx - 1
            }),
            ev == InputEvent::AltKey(Key::Right) ==> final(self).file_idx as int == (
            if old(self).file_idx as int == old(self).files@.len() - 1 {
                0int
            } else {
                old(self).file_idx + 1
            }),
            !(ev == InputEvent::AltKey(Key::Left) || ev == InputEvent::AltKey(Key::Right))
                ==> final(self).file_idx == old(self).file_idx,
            // only a kill touches the kill buffer
            ev != InputEvent::CtrlKey(Key::Char('k')) ==> final(self).kill_buf
                == old(self).kill_buf,
            // only a size report changes the known dimensions
            ev matches InputEvent::TextSize { rows, cols } ==> final(self).term_rows == (
            if rows >= 5 {
                rows as int
            } else {
                5
            }) && final(self).term_cols == cols,
            !(ev matches InputEvent::TextSize { rows, cols }) ==> final(self).term_rows
                == old(self).term_rows && final(self).term_cols == old(self).term_cols,
            // only a redraw request or a suspension queues terminal bytes
            ev == InputEvent::CtrlKey(Key::Char('l')) ==> final(self).term.out()
                == old(self).term.out() + crate::terminal::esc_alt_enter()
                + crate::terminal::esc_size_report(),
            ev == InputEvent::CtrlKey(Key::Char('z')) ==> final(self).term.out()
                == old(self).term.out() + crate::terminal::esc_alt_leave(),
            !(ev == InputEvent::CtrlKey(Key::Char('l')) || ev == InputEvent::CtrlKey(
                Key::Char('z'),
            )) ==> final(self).term.out() == old(self).term.out() && final(self).term.saved()
                == old(self).term.saved(),
            // an event outside the table only leaves a message
            final(self).error is Some <==> !event_known(ev),
    {
        let mut step = EditorStep::Continue;
        let mut new_error: Option<Vec<u8>> = None;
        let page = self.term_rows - 4;
        let idx = self.file_idx;
        match ev {
            InputEvent::TextSize { rows, cols } => {
                let r = rows as usize;
                self.term_rows = if r >= 5 {
                    r
                } else {
                    5
                };
                self.term_cols = cols as usize;
            },
            InputEvent::Key(Key::Char(c)) => {
                let f = &mut self.files[idx];
                f.type_char(c);
            },
            InputEvent::Key(Key::Up) | InputEvent::CtrlKey(Key::Char('p')) => {
                let f = &mut self.files[idx];
                f.up(1);
            },
            InputEvent::Key(Key::Down) | InputEvent::CtrlKey(Key::Char('n')) => {
                let f = &mut self.files[idx];
                f.down(1);
            },
            InputEvent::Key(Key::Left) | InputEvent::CtrlKey(Key::Char('b')) => {
                let f = &mut self.files[idx];
                f.left(1);
            },
            InputEvent::Key(Key::Right) | InputEvent::CtrlKey(Key::Char('f')) => {
                let f = &mut self.files[idx];
                f.right(1);
            },
            InputEvent::Key(Key::PageUp) | InputEvent::AltKey(Key::Char('v')) => {
                let f = &mut self.files[idx];
                f.up(page);
            },
            InputEvent::Key(Key::PageDown) | InputEvent::CtrlKey(Key::Char('v')) => {
                let f = &mut self.files[idx];
                f.down(page);
            },
            InputEvent::Key(Key::Backspace) => {
                let f = &mut self.files[idx];
                f.backspace();
            },
            InputEvent::Key(Key::Delete) | InputEvent::CtrlKey(Key::Char('d')) => {
                let f = &mut self.files[idx];
                f.delete();
            },
            InputEvent::Key(Key::Home) | InputEvent::CtrlKey(Key::Char('a')) => {
                let f = &mut self.files[idx];
                f.home();
            },
            InputEvent::Key(Key::End) | InputEvent::CtrlKey(Key::Char('e')) => {
                let f = &mut self.files[idx];
                f.end();
            },
            InputEvent::CtrlKey(Key::Char('i')) => {
                let f = &mut self.files[idx];
                f.type_char('\t');
            },
            InputEvent::CtrlKey(Key::Char('k')) => {
                if !matches!(self.prev_event, Some(InputEvent::CtrlKey(Key::Char('k')))) {
                    self.kill_buf = Vec::new();
                    proof {
                        assert(valid_utf8(self.kill_buf@));
                    }
                }
                let f = &mut self.files[idx];
                f.kill(&mut self.kill_buf);
            },
            InputEvent::CtrlKey(Key::Char('l')) => {
                self.term.reenter_alt_screen();
                self.term.request_size();
            },
            InputEvent::CtrlKey(Key::Char('m')) => {
                let f = &mut self.files[idx];
                f.type_char('\n');
            },
            InputEvent::CtrlKey(Key::Char('s')) => {
                let f = &self.files[idx];
                let data = f.save();
                let name = vstd::slice::slice_to_vec(f.name().as_slice());
                step = EditorStep::Save(name, data);
            },
            InputEvent::CtrlKey(Key::Char('u')) => {
                let f = &mut self.files[idx];
                f.unkill(&self.kill_buf);
            },
            InputEvent::CtrlKey(Key::Char('z')) => {
                let t = self.term.stop();
                step = EditorStep::Suspend(t);
            },
            InputEvent::AltKey(Key::Char('e')) => {
                let f = &mut self.files[idx];
                f.redo();
            },
            InputEvent::AltKey(Key::Char('u')) => {
                let f = &mut self.files[idx];
                f.undo();
            },
            InputEvent::AltKey(Key::Char('x')) => {
                step = EditorStep::Quit;
            },
            InputEvent::AltKey(Key::Left) => {
                if idx == 0 {
                    self.file_idx = self.files.len() - 1;
                } else {
                    self.file_idx = idx - 1;
                }
            },
            InputEvent::AltKey(Key::Right) => {
                if idx == self.files.len() - 1 {
                    self.file_idx = 0;
                } else {
                    self.file_idx = idx + 1;
                }
            },
            _ => {
                let mut msg: Vec<u8> = Vec::new();
                // "unhandled event"
                msg.push(117u8);
                msg.push(110u8);
                msg.push(104u8);
                msg.push(97u8);
                msg.push(110u8);
                msg.push(100u8);
                msg.push(108u8);
                msg.push(101u8);
                msg.push(100u8);
                msg.push(32u8);
                msg.push(101u8);
                msg.push(118u8);
                msg.push(101u8);
                msg.push(110u8);
                msg.push(116u8);
                new_error = Some(msg);
            },
        }
        proof {
            assert(forall|i: int|
                0 <= i < self.files@.len() ==> (#[trigger] self.files@[i]).st().inv());
        }
        self.prev_event = Some(ev);
        self.error = new_error;
        step
    }

    /// Redraws the whole screen into the terminal buffer: the header with
    /// the active file's place and name, the status line with the stashed
    /// message or the cursor position, and the file rows between them.
    #[verifier::rlimit(100)]
    pub fn draw(&mut self)
        requires
            old(self).inv(),
        ensures
            final(self).inv(),
            final(self).files@.len() == old(self).files@.len(),
            final(self).file_idx == old(self).file_idx,
            ({
                // the active file scrolls just enough to show its cursor
                let f0 = old(self).files@[old(self).file_idx as int].st();
                let f1 = final(self).files@[old(self).file_idx as int].st();
                let cl = f0.buf().cursor_line();
                let h1 = old(self).term_rows - 4 - 1;
                &&& f1.buf() == f0.buf()
                &&& f1.undo_stack() == f0.undo_stack()
                &&& f1.redo_stack() == f0.redo_stack()
                &&& f1.is_dirty() == f0.is_dirty()
                &&& f1.offset() == if cl < f0.offset() {
                    cl
                } else if f0.offset() + h1 < cl {
                    cl - h1
                } else {
                    f0.offset()
                }
                &&& f1.offset() <= cl <= f1.offset() + h1
            }),
            ({
                // the screen: header, status line, and the file rows, with
                // the terminal cursor left on the file cursor
                let f0 = old(self).files@[old(self).file_idx as int].st();
                let f1 = final(self).files@[old(self).file_idx as int].st();
                let rows = old(self).term_rows as int;
                let d = f0.buf().lines_view();
                let w = crate::digits::dec_digits(d.len() as int + 1).len() as int;
                final(self).term.out() == old(self).term.out() + esc_move(0, 0) + esc_attr(
                    old(self).ui_attrs.header,
                ) + header_line(*old(self)) + esc_clear() + esc_move(rows - 1, 0) + esc_attr(
                    old(self).ui_attrs.status,
                ) + status_line(*old(self)) + esc_clear() + crate::file::render_rows(
                    d,
                    f1.offset(),
                    2,
                    rows - 2,
                    w,
                    f0.tab(),
                    old(self).ui_attrs.line_nums,
                    old(self).ui_attrs.default,
                ) + esc_move(
                    2 + f0.buf().cursor_line() - f1.offset(),
                    crate::col::col_clamp(crate::col::col_clamp(w + 1) + f0.col()),
                )
            }),
    {
        let idx = self.file_idx;
        let rows = self.term_rows;
        self.term.move_to(0, 0);
        self.term.text_attr(self.ui_attrs.header);
        let mut head: Vec<u8> = Vec::new();
        head.push(32u8);
        head.push(32u8);
        head.push(91u8);
        crate::digits::push_dec(&mut head, idx as u128 + 1);
        head.push(47u8);
        crate::digits::push_dec(&mut head, self.files.len() as u128);
        head.push(93u8);
        head.push(32u8);
        head.push(32u8);
        {
            let f = &self.files[idx];
            head.extend_from_slice(f.name().as_slice());
            if f.dirty() {
                head.push(32u8);
                head.push(42u8);
            }
        }
        proof {
            assert(head@ =~= header_line(*old(self)));
        }
        self.term.write(head.as_slice());
        self.term.clear_to_end();
        self.term.move_to(rows - 1, 0);
        self.term.text_attr(self.ui_attrs.status);
        let mut stat: Vec<u8> = Vec::new();
        stat.push(32u8);
        stat.push(32u8);
        match &self.error {
            Some(msg) => {
                stat.extend_from_slice(msg.as_slice());
            },
            None => {
                let line = self.files[idx].status();
                stat.extend_from_slice(line.as_slice());
            },
        }
        proof {
            assert(stat@ =~= status_line(*old(self)));
        }
        self.term.write(stat.as_slice());
        self.term.clear_to_end();
        let ui = UiAttrs {
            default: self.ui_attrs.default,
            header: self.ui_attrs.header,
            status: self.ui_attrs.status,
            line_nums: self.ui_attrs.line_nums,
        };
        let ghost out_mid = self.term.out();
        let f = &mut self.files[idx];
        f.draw(&mut self.term, &ui, 2, rows - 2);
        proof {
            assert(forall|i: int|
                0 <= i < self.files@.len() ==> (#[trigger] self.files@[i]).st().inv());
            let f0 = old(self).files@[idx as int].st();
            let f1 = self.files@[idx as int].st();
            let d = f0.buf().lines_view();
            let w = crate::digits::dec_digits(d.len() as int + 1).len() as int;
            assert(out_mid =~= old(self).term.out() + esc_move(0, 0) + esc_attr(
                old(self).ui_attrs.header,
            ) + header_line(*old(self)) + esc_clear() + esc_move(rows as int - 1, 0)
                + esc_attr(old(self).ui_attrs.status) + status_line(*old(self))
                + esc_clear());
            assert(self.term.out() =~= old(self).term.out() + esc_move(0, 0) + esc_attr(
                old(self).ui_attrs.header,
            ) + header_line(*old(self)) + esc_clear() + esc_move(rows as int - 1, 0)
                + esc_attr(old(self).ui_attrs.status) + status_line(*old(self))
                + esc_clear() + crate::file::render_rows(
                d,
                f1.offset(),
                2,
                rows as int - 2,
                w,
                f0.tab(),
                old(self).ui_attrs.line_nums,
                old(self).ui_attrs.default,
            ) + esc_move(
                2 + f0.buf().cursor_line() - f1.offset(),
                crate::col::col_clamp(crate::col::col_clamp(w + 1) + f0.col()),
            ));
        }
    }
}

} // verus!
