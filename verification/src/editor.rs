//! The script editor: its lines, its cursor, which pane has the focus, and
//! what each key does.
//!
//! The cursor is a row and a byte offset into that row's line, and rests on
//! a character boundary. Keys that change the text ask for a build when
//! automatic builds are on, and mark the script as modified otherwise.

use vstd::prelude::*;
use vstd::string::StringSliceAdditionalSpecFns;
use vstd::utf8::*;
use crate::text::{lemma_lines_join, lemma_one_line, push_char, split_lines};
use crate::cursor::{
    next_boundary, previous_boundary, snap_boundary, spec_next, spec_previous, spec_snap,
};

verus! {

broadcast use vstd::utf8::group_utf8_lib;

/// The pane that receives keys.
#[derive(Clone, Copy, PartialEq, Eq, Structural, Debug)]
pub enum Focus {
    Editor,
    Plan,
}

/// A key press, as the editor sees it.
#[derive(Clone, Copy, PartialEq, Eq, Structural, Debug)]
pub enum Key {
    Char(char),
    Esc,
    Tab,
    F(u8),
    Backspace,
    Enter,
    Left,
    Right,
    Up,
    Down,
    Other,
}

/// What the application is asked to do after a key.
#[derive(Clone, Copy, PartialEq, Eq, Structural, Debug)]
pub enum Action {
    /// Nothing beyond the editor's own change.
    Idle,
    /// Compile the script and refresh the preview.
    Build,
    /// The text changed and no automatic build is due.
    Modified,
    /// Automatic builds were switched; the editor holds the new setting.
    AutoBuildToggled,
    /// Save the plan.
    Save,
    RotateUp,
    RotateDown,
    RotateLeft,
    RotateRight,
    ZoomIn,
    ZoomOut,
    ResetView,
}

/// The editor's state: each line as its UTF-8 bytes, the cursor, the focus,
/// whether builds run on every change, and whether the user asked to quit.
pub struct EditorModel {
    pub lines: Seq<Seq<u8>>,
    pub row: int,
    pub col: int,
    pub focus: Focus,
    pub auto_build: bool,
    pub quit: bool,
}

/// The script editor.
#[derive(Debug, Clone)]
pub struct Editor {
    lines: Vec<String>,
    cursor_row: usize,
    cursor_col: usize,
    focus: Focus,
    auto_build: bool,
    quit: bool,
}

impl View for Editor {
    type V = EditorModel;

    closed spec fn view(&self) -> EditorModel {
        EditorModel {
            lines: self.lines@.map_values(|s: String| encode_utf8(s@)),
            row: self.cursor_row as int,
            col: self.cursor_col as int,
            focus: self.focus,
            auto_build: self.auto_build,
            quit: self.quit,
        }
    }
}

/// The editor holds at least one line, its cursor row is one of them, and
/// its cursor rests on a character boundary of that line.
pub open spec fn model_ok(m: EditorModel) -> bool {
    &&& m.lines.len() >= 1
    &&& 0 <= m.row < m.lines.len()
    &&& forall|i: int| 0 <= i < m.lines.len() ==> valid_utf8(#[trigger] m.lines[i])
    &&& is_char_boundary(m.lines[m.row], m.col)
}

/// The lines joined by line feeds.
pub open spec fn join_lines(lines: Seq<Seq<u8>>) -> Seq<u8>
    decreases lines.len(),
{
    if lines.len() == 0 {
        seq![]
    } else if lines.len() == 1 {
        lines[0]
    } else {
        join_lines(lines.drop_last()) + seq![10u8] + lines.last()
    }
}

/// The UTF-8 encoding of a concatenation is the concatenation of the
/// encodings.
pub proof fn lemma_encode_concat(a: Seq<char>, b: Seq<char>)
    ensures
        encode_utf8(a + b) == encode_utf8(a) + encode_utf8(b),
    decreases a.len(),
{
    if a.len() > 0 {
        lemma_encode_concat(a.drop_first(), b);
        assert((a + b).drop_first() == a.drop_first() + b);
    } else {
        assert(a + b == b);
    }
}

/// A line feed is the byte 10.
pub proof fn lemma_encode_line_feed()
    ensures
        encode_utf8("\n"@) == seq![10u8],
        encode_utf8(seq!['\n']) == seq![10u8],
{
    reveal_strlit("\n");
    let s = seq!['\n'];
    assert("\n"@ =~= s);
    assert(s[0] as u32 == 10);
    assert((10u32 & 0x7F) as u8 == 10u8) by (bit_vector);
    assert(s.drop_first() =~= Seq::<char>::empty());
    assert(encode_utf8(s.drop_first()) =~= Seq::<u8>::empty());
    assert(has_width_1_encoding(10u32));
    assert(leading_byte_width_1(10u32) == 10u8);
    assert(encode_scalar(10u32) =~= seq![10u8]);
    assert(encode_utf8(s) == encode_scalar(s[0] as u32) + encode_utf8(s.drop_first()));
    assert(encode_utf8(s) =~= seq![10u8]);
}

impl Editor {
    /// Whether the editor is in a state that its operations keep.
    pub closed spec fn well_formed(&self) -> bool {
        &&& model_ok(self@)
        &&& self.lines.len() == self@.lines.len()
    }

    /// An editor on `lines`, with the cursor at the start and the focus on
    /// the script, building on every change.
    pub fn new(lines: Vec<String>) -> (r: Editor)
        requires
            lines.len() >= 1,
        ensures
            r.well_formed(),
            r@.lines == lines@.map_values(|s: String| encode_utf8(s@)),
            r@.row == 0 && r@.col == 0,
            r@.focus == Focus::Editor,
            r@.auto_build,
            !r@.quit,
    {
        let r = Editor {
            lines,
            cursor_row: 0,
            cursor_col: 0,
            focus: Focus::Editor,
            auto_build: true,
            quit: false,
        };
        proof {
            is_char_boundary_start_end_of_seq(r@.lines[0]);
        }
        r
    }

    /// The script's lines.
    pub fn lines(&self) -> (r: &Vec<String>)
        ensures
            r@.map_values(|s: String| encode_utf8(s@)) == self@.lines,
    {
        &self.lines
    }

    /// The cursor's row.
    pub fn cursor_row(&self) -> (r: usize)
        ensures
            r == self@.row,
    {
        self.cursor_row
    }

    /// The cursor's byte offset in its row.
    pub fn cursor_col(&self) -> (r: usize)
        ensures
            r == self@.col,
    {
        self.cursor_col
    }

    /// The pane that has the focus.
    pub fn focus(&self) -> (r: Focus)
        ensures
            r == self@.focus,
    {
        self.focus
    }

    /// Whether every change starts a build.
    pub fn auto_build(&self) -> (r: bool)
        ensures
            r == self@.auto_build,
    {
        self.auto_build
    }

    /// Whether the user asked to quit.
    pub fn quit(&self) -> (r: bool)
        ensures
            r == self@.quit,
    {
        self.quit
    }

    /// The whole script: the lines joined by line feeds.
    pub fn script(&self) -> (r: String)
        ensures
            encode_utf8(r@) == join_lines(self@.lines),
    {
        let mut r = String::new();
        let mut i: usize = 0;
        let ghost lines = self@.lines;
        while i < self.lines.len()
            invariant
                lines == self.lines@.map_values(|s: String| encode_utf8(s@)),
                i <= self.lines.len(),
                encode_utf8(r@) == join_lines(lines.take(i as int)),
            decreases self.lines.len() - i,
        {
            let ghost before = r@;
            if i > 0 {
                r.append("\n");
                proof {
                    lemma_encode_concat(before, "\n"@);
                    lemma_encode_line_feed();
                }
            }
            let ghost middle = r@;
            r.append(self.lines[i].as_str());
            proof {
                lemma_encode_concat(middle, self.lines@[i as int]@);
                let t = lines.take(i + 1);
                assert(t.drop_last() == lines.take(i as int));
                if i == 0 {
                    assert(encode_utf8(before) == Seq::<u8>::empty());
                }
            }
            i = i + 1;
        }
        proof {
            assert(lines.take(i as int) == lines);
        }
        r
    }
}

/// Where two encoded texts meet is a character boundary of their joint
/// encoding.
pub proof fn lemma_boundary_at_join(x: Seq<char>, y: Seq<char>)
    ensures
        is_char_boundary(encode_utf8(x + y), encode_utf8(x).len() as int),
    decreases x.len(),
{
    if x.len() > 0 {
        let xy = x + y;
        let bytes = encode_utf8(xy);
        encode_utf8_first_scalar(xy);
        assert(xy[0] == x[0]);
        assert(pop_first_scalar(bytes) =~= encode_utf8(xy.drop_first()));
        assert(xy.drop_first() == x.drop_first() + y);
        lemma_boundary_at_join(x.drop_first(), y);
        lemma_encode_concat(x.drop_first(), y);
    }
}

/// What a key that changes the text asks of the application.
pub open spec fn after_edit(m: EditorModel) -> Action {
    if m.auto_build {
        Action::Build
    } else {
        Action::Modified
    }
}

/// `m` with other lines and another cursor.
pub open spec fn with_text(m: EditorModel, lines: Seq<Seq<u8>>, row: int, col: int) -> EditorModel {
    EditorModel { lines, row, col, focus: m.focus, auto_build: m.auto_build, quit: m.quit }
}

/// `c` typed at the cursor; the cursor moves past it.
pub open spec fn insert_model(m: EditorModel, c: char) -> EditorModel {
    let line = m.lines[m.row];
    let enc = encode_utf8(seq![c]);
    with_text(
        m,
        m.lines.update(m.row, line.take(m.col) + enc + line.skip(m.col)),
        m.row,
        m.col + enc.len(),
    )
}

/// Backspace: the character before the cursor is deleted; at the start of
/// a line, the line is joined to the one above.
pub open spec fn backspace_model(m: EditorModel) -> EditorModel {
    let line = m.lines[m.row];
    if m.col > 0 {
        let p = spec_previous(line, m.col);
        with_text(m, m.lines.update(m.row, line.take(p) + line.skip(m.col)), m.row, p)
    } else if m.row > 0 {
        let above = m.lines[m.row - 1];
        with_text(
            m,
            m.lines.remove(m.row).update(m.row - 1, above + line),
            m.row - 1,
            above.len() as int,
        )
    } else {
        m
    }
}

/// Enter: the line is split at the cursor, which moves to the start of the
/// new line.
pub open spec fn newline_model(m: EditorModel) -> EditorModel {
    let line = m.lines[m.row];
    with_text(
        m,
        m.lines.update(m.row, line.take(m.col)).insert(m.row + 1, line.skip(m.col)),
        m.row + 1,
        0,
    )
}

/// The editor with the cursor moved.
pub open spec fn with_cursor(m: EditorModel, row: int, col: int) -> EditorModel {
    with_text(m, m.lines, row, col)
}

/// The editor with another focus.
pub open spec fn with_focus(m: EditorModel, focus: Focus) -> EditorModel {
    EditorModel {
        lines: m.lines,
        row: m.row,
        col: m.col,
        focus,
        auto_build: m.auto_build,
        quit: m.quit,
    }
}

/// A key in the script pane that is not one of the global keys.
pub open spec fn editor_key_model(m: EditorModel, key: Key) -> (EditorModel, Action) {
    let line = m.lines[m.row];
    match key {
        Key::Char(c) => (insert_model(m, c), after_edit(m)),
        Key::Backspace => (backspace_model(m), after_edit(m)),
        Key::Enter => (newline_model(m), after_edit(m)),
        Key::Left => (with_cursor(m, m.row, spec_previous(line, m.col)), Action::Idle),
        Key::Right => (with_cursor(m, m.row, spec_next(line, m.col)), Action::Idle),
        Key::Up => {
            let row = if m.row > 0 {
                m.row - 1
            } else {
                0
            };
            (with_cursor(m, row, spec_snap(m.lines[row], m.col)), Action::Idle)
        },
        Key::Down => {
            let row = if m.row + 1 < m.lines.len() {
                m.row + 1
            } else {
                m.lines.len() - 1
            };
            (with_cursor(m, row, spec_snap(m.lines[row], m.col)), Action::Idle)
        },
        _ => (m, Action::Idle),
    }
}

/// What a key does: the editor afterwards, and what the application is
/// asked to do. Global keys come first; in the plan pane, keys steer the
/// preview; in the script pane, they edit and move the cursor.
pub open spec fn key_model(m: EditorModel, key: Key) -> (EditorModel, Action) {
    let plan = m.focus == Focus::Plan;
    if plan && key == Key::Char('q') {
        (
            EditorModel {
                lines: m.lines,
                row: m.row,
                col: m.col,
                focus: m.focus,
                auto_build: m.auto_build,
                quit: true,
            },
            Action::Idle,
        )
    } else if key == Key::Esc {
        (with_focus(m, Focus::Plan), Action::Idle)
    } else if key == Key::Tab {
        (
            with_focus(
                m,
                if m.focus == Focus::Editor {
                    Focus::Plan
                } else {
                    Focus::Editor
                },
            ),
            Action::Idle,
        )
    } else if key == Key::F(5) {
        (m, Action::Build)
    } else if plan && key == Key::Char('a') {
        (
            EditorModel {
                lines: m.lines,
                row: m.row,
                col: m.col,
                focus: m.focus,
                auto_build: !m.auto_build,
                quit: m.quit,
            },
            Action::AutoBuildToggled,
        )
    } else if plan && key == Key::Char('s') {
        (m, Action::Save)
    } else if plan && key == Key::Up {
        (m, Action::RotateUp)
    } else if plan && key == Key::Down {
        (m, Action::RotateDown)
    } else if plan && key == Key::Left {
        (m, Action::RotateLeft)
    } else if plan && key == Key::Right {
        (m, Action::RotateRight)
    } else if plan && key == Key::Char('z') {
        (m, Action::ZoomIn)
    } else if plan && key == Key::Char('x') {
        (m, Action::ZoomOut)
    } else if plan && key == Key::Char('r') {
        (m, Action::ResetView)
    } else if m.focus == Focus::Editor {
        editor_key_model(m, key)
    } else {
        (m, Action::Idle)
    }
}

impl Editor {
    /// Types `c` at the cursor.
    fn insert_char(&mut self, c: char)
        requires
            old(self).well_formed(),
        ensures
            final(self).well_formed(),
            final(self)@ == insert_model(old(self)@, c),
    {
        let ghost m = self@;
        let row = self.cursor_row;
        let col = self.cursor_col;
        let (head, tail) = self.lines[row].as_str().split_at(col);
        let mut line = head.to_owned();
        let tail = tail.to_owned();
        let ghost h = line@;
        let ghost t = tail@;
        push_char(&mut line, c);
        let new_col = line.as_str().as_bytes().len();
        line.append(tail.as_str());
        proof {
            assert(h.push(c) == h + seq![c]);
            lemma_encode_concat(h, seq![c]);
            lemma_encode_concat(h + seq![c], t);
            lemma_boundary_at_join(h + seq![c], t);
        }
        self.lines.set(row, line);
        self.cursor_col = new_col;
        proof {
            assert(self@.lines == m.lines.update(
                row as int,
                m.lines[row as int].take(col as int) + encode_utf8(seq![c]) + m.lines[row as int].skip(col as int),
            ));
        }
    }

    /// Deletes the character before the cursor, or joins the line to the one
    /// above when the cursor is at its start.
    fn backspace(&mut self)
        requires
            old(self).well_formed(),
        ensures
            final(self).well_formed(),
            final(self)@ == backspace_model(old(self)@),
    {
        let ghost m = self@;
        let row = self.cursor_row;
        let col = self.cursor_col;
        if col > 0 {
            let p = previous_boundary(self.lines[row].as_str(), col);
            proof {
                crate::cursor::law_moves_land_on_boundaries(m.lines[row as int], col as int);
            }
            let s = self.lines[row].as_str();
            let (head, _) = s.split_at(p);
            let (_, tail) = s.split_at(col);
            let mut line = head.to_owned();
            let ghost h = line@;
            line.append(tail);
            proof {
                lemma_encode_concat(h, tail@);
                lemma_boundary_at_join(h, tail@);
            }
            self.lines.set(row, line);
            self.cursor_col = p;
            proof {
                assert(self@.lines == m.lines.update(
                    row as int,
                    m.lines[row as int].take(p as int) + m.lines[row as int].skip(col as int),
                ));
            }
        } else if row > 0 {
            let line = self.lines.remove(row);
            let mut above = self.lines[row - 1].clone();
            let new_col = above.as_str().as_bytes().len();
            let ghost a = above@;
            above.append(line.as_str());
            proof {
                lemma_encode_concat(a, line@);
                lemma_boundary_at_join(a, line@);
            }
            self.lines.set(row - 1, above);
            self.cursor_row = row - 1;
            self.cursor_col = new_col;
            proof {
                assert(self@.lines == m.lines.remove(row as int).update(
                    row - 1,
                    m.lines[row - 1] + m.lines[row as int],
                ));
            }
        }
    }

    /// Splits the line at the cursor.
    fn newline(&mut self)
        requires
            old(self).well_formed(),
        ensures
            final(self).well_formed(),
            final(self)@ == newline_model(old(self)@),
    {
        let ghost m = self@;
        let row = self.cursor_row;
        let col = self.cursor_col;
        let s = self.lines[row].as_str();
        let (head, tail) = s.split_at(col);
        let head = head.to_owned();
        let tail = tail.to_owned();
        self.lines.set(row, head);
        self.lines.insert(row + 1, tail);
        self.cursor_row = row + 1;
        self.cursor_col = 0;
        proof {
            assert(self@.lines == m.lines.update(row as int, m.lines[row as int].take(col as int)).insert(
                row + 1,
                m.lines[row as int].skip(col as int),
            ));
            is_char_boundary_start_end_of_seq(self@.lines[row + 1]);
        }
    }

    /// What an edit asks of the application.
    fn edited(&self) -> (r: Action)
        ensures
            r == after_edit(self@),
    {
        if self.auto_build {
            Action::Build
        } else {
            Action::Modified
        }
    }
}

impl Editor {
    /// Handles one key press: changes the editor as [`key_model`] says, and
    /// tells the application what else to do.
    pub fn handle_key(&mut self, key: Key) -> (r: Action)
        requires
            old(self).well_formed(),
        ensures
            final(self).well_formed(),
            (final(self)@, r) == key_model(old(self)@, key),
    {
        let plan = self.focus == Focus::Plan;
        if plan && key == Key::Char('q') {
            self.quit = true;
            Action::Idle
        } else if key == Key::Esc {
            self.focus = Focus::Plan;
            Action::Idle
        } else if key == Key::Tab {
            self.focus = if self.focus == Focus::Editor {
                Focus::Plan
            } else {
                Focus::Editor
            };
            Action::Idle
        } else if key == Key::F(5) {
            Action::Build
        } else if plan && key == Key::Char('a') {
            self.auto_build = !self.auto_build;
            Action::AutoBuildToggled
        } else if plan && key == Key::Char('s') {
            Action::Save
        } else if plan && key == Key::Up {
            Action::RotateUp
        } else if plan && key == Key::Down {
            Action::RotateDown
        } else if plan && key == Key::Left {
            Action::RotateLeft
        } else if plan && key == Key::Right {
            Action::RotateRight
        } else if plan && key == Key::Char('z') {
            Action::ZoomIn
        } else if plan && key == Key::Char('x') {
            Action::ZoomOut
        } else if plan && key == Key::Char('r') {
            Action::ResetView
        } else if self.focus == Focus::Editor {
            self.editor_key(key)
        } else {
            Action::Idle
        }
    }

    /// A key in the script pane.
    fn editor_key(&mut self, key: Key) -> (r: Action)
        requires
            old(self).well_formed(),
        ensures
            final(self).well_formed(),
            (final(self)@, r) == editor_key_model(old(self)@, key),
    {
        let ghost m = self@;
        let row = self.cursor_row;
        match key {
            Key::Char(c) => {
                let action = self.edited();
                self.insert_char(c);
                action
            },
            Key::Backspace => {
                let action = self.edited();
                self.backspace();
                action
            },
            Key::Enter => {
                let action = self.edited();
                self.newline();
                action
            },
            Key::Left => {
                proof {
                    crate::cursor::law_moves_land_on_boundaries(m.lines[row as int], m.col);
                }
                self.cursor_col = previous_boundary(self.lines[row].as_str(), self.cursor_col);
                Action::Idle
            },
            Key::Right => {
                proof {
                    crate::cursor::law_moves_land_on_boundaries(m.lines[row as int], m.col);
                }
                self.cursor_col = next_boundary(self.lines[row].as_str(), self.cursor_col);
                Action::Idle
            },
            Key::Up => {
                let new_row = if row > 0 {
                    row - 1
                } else {
                    0
                };
                proof {
                    crate::cursor::law_moves_land_on_boundaries(m.lines[new_row as int], m.col);
                }
                self.cursor_col = snap_boundary(self.lines[new_row].as_str(), self.cursor_col);
                self.cursor_row = new_row;
                Action::Idle
            },
            Key::Down => {
                let new_row = if row + 1 < self.lines.len() {
                    row + 1
                } else {
                    self.lines.len() - 1
                };
                proof {
                    crate::cursor::law_moves_land_on_boundaries(m.lines[new_row as int], m.col);
                }
                self.cursor_col = snap_boundary(self.lines[new_row].as_str(), self.cursor_col);
                self.cursor_row = new_row;
                Action::Idle
            },
            _ => Action::Idle,
        }
    }
}

/// No position strictly inside the encoding of one character is a
/// character boundary.
proof fn lemma_inside_char(x: Seq<char>, c: char, y: Seq<char>, k: int)
    requires
        encode_utf8(x).len() < k < encode_utf8(x).len() + encode_utf8(seq![c]).len(),
    ensures
        !is_char_boundary(encode_utf8(x + seq![c] + y), k),
    decreases x.len(),
{
    let z = x + seq![c] + y;
    let bytes = encode_utf8(z);
    encode_utf8_first_scalar(z);
    assert(pop_first_scalar(bytes) =~= encode_utf8(z.drop_first()));
    if x.len() == 0 {
        assert(z[0] == c);
        assert(encode_utf8(seq![c]) == encode_scalar(c as u32) + encode_utf8(seq![c].drop_first()));
        assert(seq![c].drop_first() =~= Seq::<char>::empty());
        assert(x + seq![c] + y =~= seq![c] + y);
    } else {
        assert(z[0] == x[0]);
        assert(z.drop_first() =~= x.drop_first() + seq![c] + y);
        lemma_inside_char(x.drop_first(), c, y, k - encode_scalar(x[0] as u32).len());
    }
}

/// A line's bytes are the encoding of its characters before and after any
/// boundary.
proof fn lemma_split_line(line: Seq<u8>, col: int)
    requires
        valid_utf8(line),
        is_char_boundary(line, col),
    ensures
        line == encode_utf8(
            decode_utf8(line.subrange(0, col)) + decode_utf8(line.subrange(col, line.len() as int)),
        ),
        encode_utf8(decode_utf8(line.subrange(0, col))) == line.subrange(0, col),
        encode_utf8(decode_utf8(line.subrange(col, line.len() as int))) == line.subrange(
            col,
            line.len() as int,
        ),
{
    let h = decode_utf8(line.subrange(0, col));
    let t = decode_utf8(line.subrange(col, line.len() as int));
    lemma_encode_concat(h, t);
    assert(line == line.subrange(0, col) + line.subrange(col, line.len() as int));
}

/// In the script pane, backspace after typing a character gives back the
/// text and cursor from before.
pub proof fn law_backspace_undoes_typing(m: EditorModel, c: char)
    requires
        model_ok(m),
        m.focus == Focus::Editor,
    ensures
        key_model(key_model(m, Key::Char(c)).0, Key::Backspace).0 == m,
{
    let line = m.lines[m.row];
    let col = m.col;
    crate::cursor::lemma_boundary_in_range(line, col);
    lemma_split_line(line, col);
    let h = decode_utf8(line.subrange(0, col));
    let t = decode_utf8(line.subrange(col, line.len() as int));
    let enc = encode_utf8(seq![c]);
    let m1 = key_model(m, Key::Char(c)).0;
    assert(m1 == insert_model(m, c));
    let l1 = m1.lines[m1.row];
    assert(l1 == line.take(col) + enc + line.skip(col));
    lemma_encode_concat(h, seq![c]);
    lemma_encode_concat(h + seq![c], t);
    assert(l1 == encode_utf8(h + seq![c] + t));
    lemma_boundary_at_join(h, seq![c] + t);
    assert(h + (seq![c] + t) == h + seq![c] + t);
    lemma_encode_concat(seq![c], t);
    assert(enc.len() > 0) by {
        encode_utf8_first_scalar(seq![c]);
        assert(seq![c].drop_first() =~= Seq::<char>::empty());
    }
    assert forall|j: int| col < j <= col + enc.len() - 1 implies !is_char_boundary(l1, j) by {
        lemma_inside_char(h, c, t, j);
    }
    crate::cursor::lemma_at_or_below_unique(l1, col + enc.len() - 1, col);
    let m2 = key_model(m1, Key::Backspace).0;
    assert(m2.lines[m.row] =~= line);
    assert(m2.lines =~= m.lines);
}

/// In the script pane, backspace after Enter joins the split line again
/// and puts the cursor back where it was.
pub proof fn law_backspace_undoes_enter(m: EditorModel)
    requires
        model_ok(m),
        m.focus == Focus::Editor,
    ensures
        key_model(key_model(m, Key::Enter).0, Key::Backspace).0 == m,
{
    let line = m.lines[m.row];
    crate::cursor::lemma_boundary_in_range(line, m.col);
    let m1 = key_model(m, Key::Enter).0;
    let m2 = key_model(m1, Key::Backspace).0;
    assert(line.take(m.col) + line.skip(m.col) =~= line);
    assert(m2.lines =~= m.lines);
}

/// Tab twice leaves the editor as it was.
pub proof fn law_tab_twice(m: EditorModel)
    ensures
        key_model(key_model(m, Key::Tab).0, Key::Tab) == (m, Action::Idle),
{
}

/// Text that holds a line feed encodes to bytes that hold the byte 10.
proof fn lemma_line_feed_byte(s: Seq<char>)
    requires
        s.contains('\n'),
    ensures
        encode_utf8(s).contains(10u8),
{
    let j = choose|j: int| 0 <= j < s.len() && s[j] == '\n';
    let a = s.take(j);
    let b = s.skip(j + 1);
    assert(s == a + seq!['\n'] + b);
    lemma_encode_concat(a, seq!['\n']);
    lemma_encode_concat(a + seq!['\n'], b);
    lemma_encode_line_feed();
    let e = encode_utf8(s);
    assert(e[encode_utf8(a).len() as int] == 10u8);
}

/// Lines that are valid UTF-8 join into valid UTF-8.
proof fn lemma_join_valid(lines: Seq<Seq<u8>>)
    requires
        forall|i: int| 0 <= i < lines.len() ==> valid_utf8(#[trigger] lines[i]),
    ensures
        valid_utf8(join_lines(lines)),
    decreases lines.len(),
{
    if lines.len() > 1 {
        let init = lines.drop_last();
        assert forall|i: int| 0 <= i < init.len() implies valid_utf8(#[trigger] init[i]) by {
            assert(init[i] == lines[i]);
        }
        lemma_join_valid(init);
        lemma_encode_line_feed();
        encode_utf8_valid_utf8(seq!['\n']);
        valid_utf8_concat(join_lines(init), seq![10u8]);
        valid_utf8_concat(join_lines(init) + seq![10u8], lines.last());
    } else if lines.len() == 0 {
        encode_utf8_valid_utf8(Seq::<char>::empty());
        assert(encode_utf8(Seq::<char>::empty()) =~= Seq::<u8>::empty());
    }
}

/// The lines that the compiler reads in the editor's script are the
/// editor's lines, in order, as long as none holds a line feed of its own:
/// the line that a compile error names is the editor's row of that number.
pub proof fn law_script_lines_are_rows(lines: Seq<Seq<u8>>, script: Seq<char>)
    requires
        lines.len() >= 1,
        forall|i: int|
            0 <= i < lines.len() ==> valid_utf8(#[trigger] lines[i]) && !lines[i].contains(10u8),
        encode_utf8(script) == join_lines(lines),
    ensures
        split_lines(script).len() == lines.len(),
        forall|i: int|
            0 <= i < lines.len() ==> encode_utf8(#[trigger] split_lines(script)[i]) == lines[i],
    decreases lines.len(),
{
    let n = lines.len();
    decode_utf8_encode_utf8(lines[n - 1]);
    encode_utf8_decode_utf8(script);
    if n == 1 {
        if script.contains('\n') {
            lemma_line_feed_byte(script);
        }
        lemma_one_line(script);
    } else {
        let init = lines.drop_last();
        let last = lines.last();
        let j = join_lines(init);
        assert forall|i: int| 0 <= i < init.len() implies valid_utf8(#[trigger] init[i])
            && !init[i].contains(10u8) by {
            assert(init[i] == lines[i]);
        }
        lemma_join_valid(init);
        decode_utf8_encode_utf8(j);
        let x = decode_utf8(j);
        let y = decode_utf8(last);
        lemma_encode_concat(x, seq!['\n']);
        lemma_encode_concat(x + seq!['\n'], y);
        lemma_encode_line_feed();
        assert(encode_utf8(x + seq!['\n'] + y) == encode_utf8(script));
        encode_utf8_decode_utf8(x + seq!['\n'] + y);
        assert(script == x + seq!['\n'] + y);
        if y.contains('\n') {
            lemma_line_feed_byte(y);
        }
        lemma_lines_join(x, y);
        law_script_lines_are_rows(init, x);
        assert forall|i: int| 0 <= i < lines.len() implies encode_utf8(
            #[trigger] split_lines(script)[i],
        ) == lines[i] by {
            if i < n - 1 {
                assert(split_lines(script)[i] == split_lines(x)[i]);
                assert(init[i] == lines[i]);
            }
        }
    }
}

/// Keys in the plan pane never change the script or the cursor.
pub proof fn law_plan_pane_keeps_text(m: EditorModel, key: Key)
    requires
        m.focus == Focus::Plan,
    ensures
        key_model(m, key).0.lines == m.lines,
        key_model(m, key).0.row == m.row,
        key_model(m, key).0.col == m.col,
{
}


/// In the script pane, Left and Right move the cursor one character along
/// its line and do nothing else: Left lands on the nearest boundary below
/// the cursor (or stays at the start of the line), Right on the nearest
/// boundary above it (or stays at the end), and each undoes the other.
pub proof fn law_left_right_in_script(m: EditorModel)
    requires
        model_ok(m),
        m.focus == Focus::Editor,
    ensures
        ({
            let line = m.lines[m.row];
            let (l, la) = key_model(m, Key::Left);
            let (r, ra) = key_model(m, Key::Right);
            &&& la == Action::Idle
            &&& ra == Action::Idle
            &&& l.lines == m.lines && l.row == m.row && l.focus == m.focus
            &&& l.auto_build == m.auto_build && l.quit == m.quit
            &&& r.lines == m.lines && r.row == m.row && r.focus == m.focus
            &&& r.auto_build == m.auto_build && r.quit == m.quit
            &&& is_char_boundary(line, l.col)
            &&& is_char_boundary(line, r.col)
            &&& m.col == 0 ==> l.col == 0
            &&& m.col > 0 ==> l.col < m.col
            &&& forall|j: int| l.col < j < m.col ==> !is_char_boundary(line, j)
            &&& m.col == line.len() ==> r.col == m.col
            &&& m.col < line.len() ==> m.col < r.col
            &&& forall|j: int| m.col < j < r.col ==> !is_char_boundary(line, j)
            &&& m.col > 0 ==> key_model(l, Key::Right) == (m, Action::Idle)
            &&& m.col < line.len() ==> key_model(r, Key::Left) == (m, Action::Idle)
        }),
{
    let line = m.lines[m.row];
    let col = m.col;
    crate::cursor::lemma_boundary_in_range(line, col);
    crate::cursor::law_moves_land_on_boundaries(line, col);
    if col > 0 {
        crate::cursor::lemma_at_or_below(line, col - 1);
        crate::cursor::law_next_undoes_previous(line, col);
    }
    if col < line.len() {
        crate::cursor::lemma_at_or_above(line, col + 1);
        crate::cursor::law_previous_undoes_next(line, col);
    }
}

/// F5 asks for a build from either pane and changes nothing in the editor.
pub proof fn law_f5_builds(m: EditorModel)
    ensures
        key_model(m, Key::F(5)) == (m, Action::Build),
{
}

/// In the plan pane, `a` switches automatic builds to the other setting,
/// reports the switch, and changes nothing else; pressing it twice gives
/// back the editor as it was.
pub proof fn law_auto_build_toggles(m: EditorModel)
    requires
        m.focus == Focus::Plan,
    ensures
        ({
            let (a, act) = key_model(m, Key::Char('a'));
            &&& act == Action::AutoBuildToggled
            &&& a.auto_build == !m.auto_build
            &&& a.lines == m.lines && a.row == m.row && a.col == m.col
            &&& a.focus == m.focus && a.quit == m.quit
            &&& key_model(a, Key::Char('a')) == (m, Action::AutoBuildToggled)
        }),
{
}

} // verus!
