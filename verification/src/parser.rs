//! The plan script: one statement per line.
//!
//! ```text
//! project(name = "Casa");
//! wall([0, 0], [6000, 0], thickness = 300);
//! door("wall-001", offset = 1200, width = 900);
//! window("wall-002", offset = 900, width = 1200, sill = 900);
//! ```
//!
//! Blank lines, `//` and `#` comments and `view.` statements are skipped.
//! Each line is trimmed, stripped of trailing semicolons and trimmed again.

use vstd::prelude::*;
use vstd::std_specs::cmp::PartialEqSpecImpl;
use crate::domain::{
    Opening, OpeningKind, OpeningKindModel, OpeningModel, Point, PointModel, Project,
    ProjectModel, Wall, WallModel,
};
use crate::numeral::{numbers_in, numbers_in_exec, Numeral};
use crate::text::{
    after, after_exec, before, before_exec, chars_of, concat, split_lines, split_lines_exec,
    starts_with, starts_with_exec, string_of, strip_end, strip_end_chars, trim, trim_chars,
    decimal, push_decimal,
};

verus! {

/// A script error: the 1-based line on which compilation stopped, and why.
#[derive(Debug, Clone)]
pub struct CompileError {
    pub line: usize,
    pub message: String,
}

impl PartialEq for CompileError {
    fn eq(&self, other: &Self) -> (r: bool) {
        self.line == other.line && self.message == other.message
    }
}

impl PartialEqSpecImpl for CompileError {
    open spec fn obeys_eq_spec() -> bool {
        true
    }

    open spec fn eq_spec(&self, other: &Self) -> bool {
        self.line == other.line && self.message@ == other.message@
    }
}

impl Eq for CompileError {

}

/// The error reported for the line with 0-based index `line`.
pub fn error(line: usize, message: &str) -> (r: CompileError)
    requires
        line < usize::MAX,
    ensures
        r.line == line + 1,
        r.message@ == message@,
{
    CompileError { line: line + 1, message: message.to_owned() }
}

/// The first number written after `name =` in `s`.
pub open spec fn named_number_of(s: Seq<char>, name: Seq<char>) -> Option<Seq<char>> {
    match after(s, name + " ="@) {
        Some(rest) => if numbers_in(rest).len() > 0 {
            Some(numbers_in(rest)[0])
        } else {
            None
        },
        None => None,
    }
}

/// The text between the quotes that follow `name = ` in `s`.
pub open spec fn named_string_of(s: Seq<char>, name: Seq<char>) -> Option<Seq<char>> {
    match after(s, name + " = \""@) {
        Some(rest) => before(rest, "\""@),
        None => None,
    }
}

/// The text between the first two quotes of `s`.
pub open spec fn first_string_of(s: Seq<char>) -> Option<Seq<char>> {
    match after(s, "\""@) {
        Some(rest) => before(rest, "\""@),
        None => None,
    }
}

/// The decimal digits of `n`, padded with zeros to at least three.
pub open spec fn zero_padded(n: nat) -> Seq<char> {
    if decimal(n).len() >= 3 {
        decimal(n)
    } else {
        Seq::new((3 - decimal(n).len()) as nat, |i: int| '0') + decimal(n)
    }
}

/// The decimal digits of `n`, padded with zeros to at least three.
fn zero_padded_exec(n: usize) -> (r: Vec<char>)
    ensures
        r@ == zero_padded(n as nat),
{
    let mut digits: Vec<char> = Vec::new();
    push_decimal(&mut digits, n);
    proof {
        assert(digits@ == decimal(n as nat));
    }
    if digits.len() >= 3 {
        return digits;
    }
    let mut r: Vec<char> = Vec::new();
    let pad: usize = 3 - digits.len();
    while r.len() < pad
        invariant
            pad == 3 - digits@.len(),
            r.len() <= pad,
            r@ == Seq::new(r.len() as nat, |i: int| '0'),
        decreases pad - r.len(),
    {
        r.push('0');
    }
    concat(r.as_slice(), digits.as_slice())
}

/// The first number written after `name =` in `s`.
fn named_number_chars(s: &[char], name: &[char]) -> (r: Option<Numeral>)
    ensures
        r matches Some(n) ==> named_number_of(s@, name@) == Some(n@),
        r is None ==> named_number_of(s@, name@) is None,
{
    let suffix = chars_of(" =");
    let pattern = concat(name, suffix.as_slice());
    match after_exec(s, pattern.as_slice()) {
        Some(rest) => {
            let mut found = numbers_in_exec(rest.as_slice());
            if found.len() > 0 {
                let first = found.swap_remove(0);
                proof {
                    assert(numbers_in(rest@)[0] == first@);
                }
                Some(first)
            } else {
                None
            }
        },
        None => None,
    }
}

/// The text between the quotes that follow `name = ` in `s`.
fn named_string_chars(s: &[char], name: &[char]) -> (r: Option<Vec<char>>)
    ensures
        r matches Some(v) ==> named_string_of(s@, name@) == Some(v@),
        r is None ==> named_string_of(s@, name@) is None,
{
    let suffix = chars_of(" = \"");
    let pattern = concat(name, suffix.as_slice());
    let quote = chars_of("\"");
    match after_exec(s, pattern.as_slice()) {
        Some(rest) => before_exec(rest.as_slice(), quote.as_slice()),
        None => None,
    }
}

/// The text between the first two quotes of `s`.
fn first_string_chars(s: &[char]) -> (r: Option<Vec<char>>)
    ensures
        r matches Some(v) ==> first_string_of(s@) == Some(v@),
        r is None ==> first_string_of(s@) is None,
{
    let quote = chars_of("\"");
    match after_exec(s, quote.as_slice()) {
        Some(rest) => before_exec(rest.as_slice(), quote.as_slice()),
        None => None,
    }
}

/// The numbers written in `input`, in order.
pub fn numbers(input: &str) -> (r: Vec<Numeral>)
    ensures
        r@.map_values(|n: Numeral| n@) == numbers_in(input@),
{
    let chars = chars_of(input);
    numbers_in_exec(chars.as_slice())
}

/// The first number written after `name =` in `input`.
pub fn named_number(input: &str, name: &str) -> (r: Option<Numeral>)
    ensures
        r matches Some(n) ==> named_number_of(input@, name@) == Some(n@),
        r is None ==> named_number_of(input@, name@) is None,
{
    let chars = chars_of(input);
    let name_chars = chars_of(name);
    named_number_chars(chars.as_slice(), name_chars.as_slice())
}

/// The text between the first two quotes of `input`.
pub fn first_string(input: &str) -> (r: Option<String>)
    ensures
        r matches Some(v) ==> first_string_of(input@) == Some(v@),
        r is None ==> first_string_of(input@) is None,
{
    let chars = chars_of(input);
    match first_string_chars(chars.as_slice()) {
        Some(v) => Some(string_of(v.as_slice())),
        None => None,
    }
}

/// The text between the quotes that follow `name = ` in `input`.
pub fn named_string(input: &str, name: &str) -> (r: Option<String>)
    ensures
        r matches Some(v) ==> named_string_of(input@, name@) == Some(v@),
        r is None ==> named_string_of(input@, name@) is None,
{
    let chars = chars_of(input);
    let name_chars = chars_of(name);
    match named_string_chars(chars.as_slice(), name_chars.as_slice()) {
        Some(v) => Some(string_of(v.as_slice())),
        None => None,
    }
}

/// A compiled script, before any opening is held against the length of its
/// wall: the plan built from the lines before the first error, the line of
/// each opening, and that error.
#[derive(Debug, Clone)]
pub struct Draft {
    pub project: Project,
    pub opening_lines: Vec<usize>,
    pub error: Option<CompileError>,
}

/// A compiled script as text.
pub struct DraftModel {
    pub project: ProjectModel,
    pub opening_lines: Seq<int>,
    pub error: Option<(int, Seq<char>)>,
}

impl View for Draft {
    type V = DraftModel;

    open spec fn view(&self) -> DraftModel {
        DraftModel {
            project: self.project@,
            opening_lines: self.opening_lines@.map_values(|l: usize| l as int),
            error: match self.error {
                Some(e) => Some((e.line as int, e.message@)),
                None => None,
            },
        }
    }
}

/// The plan before the first line.
pub open spec fn empty_plan() -> ProjectModel {
    ProjectModel { name: "Untitled plan"@, walls: seq![], openings: seq![] }
}

/// Some wall of `walls` is named `id`.
pub open spec fn has_wall(walls: Seq<WallModel>, id: Seq<char>) -> bool {
    exists|k: int| 0 <= k < walls.len() && #[trigger] walls[k].id == id
}

/// The value of `o`, or `d` when there is none.
pub open spec fn or_default(o: Option<Seq<char>>, d: Seq<char>) -> Seq<char> {
    match o {
        Some(v) => v,
        None => d,
    }
}

/// The plan after a `wall(...)` statement, or the error it raises.
pub open spec fn wall_statement(p: ProjectModel, line: Seq<char>) -> Result<ProjectModel, Seq<char>> {
    let values = numbers_in(line);
    let id = or_default(
        named_string_of(line, "id"@),
        "wall-"@ + zero_padded((p.walls.len() + 1) as nat),
    );
    if values.len() < 4 {
        Err("wall expects [x1, y1], [x2, y2]"@)
    } else if has_wall(p.walls, id) {
        Err("wall id is already in use"@)
    } else {
        Ok(
            ProjectModel {
                name: p.name,
                walls: p.walls.push(
                    WallModel {
                        id,
                        start: PointModel { x: values[0], y: values[1] },
                        end: PointModel { x: values[2], y: values[3] },
                        thickness: or_default(named_number_of(line, "thickness"@), "300"@),
                    },
                ),
                openings: p.openings,
            },
        )
    }
}

/// The plan after a `door(...)` or `window(...)` statement, or the error it
/// raises; whether the opening fits inside its wall is not decided here.
pub open spec fn opening_statement(p: ProjectModel, line: Seq<char>) -> Result<ProjectModel, Seq<char>> {
    match first_string_of(line) {
        None => Err("opening needs a wall id as first argument"@),
        Some(wall_id) => if !has_wall(p.walls, wall_id) {
            Err("opening references an unknown wall"@)
        } else {
            match named_number_of(line, "offset"@) {
                None => Err("opening needs offset"@),
                Some(offset) => match named_number_of(line, "width"@) {
                    None => Err("opening needs width"@),
                    Some(width) => {
                        let is_window = starts_with(line, "window("@);
                        Ok(
                            ProjectModel {
                                name: p.name,
                                walls: p.walls,
                                openings: p.openings.push(
                                    OpeningModel {
                                        id: (if is_window {
                                            "window"@
                                        } else {
                                            "door"@
                                        }) + "-"@ + zero_padded((p.openings.len() + 1) as nat),
                                        wall_id,
                                        offset,
                                        width,
                                        kind: if is_window {
                                            OpeningKindModel::Window {
                                                sill: or_default(
                                                    named_number_of(line, "sill"@),
                                                    "900"@,
                                                ),
                                            }
                                        } else {
                                            OpeningKindModel::Door
                                        },
                                    },
                                ),
                            },
                        )
                    },
                },
            }
        },
    }
}

/// The draft after a statement on line `number` that gave `r`.
pub open spec fn apply_statement(
    d: DraftModel,
    number: int,
    r: Result<ProjectModel, Seq<char>>,
    opening: bool,
) -> DraftModel {
    match r {
        Ok(p) => DraftModel {
            project: p,
            opening_lines: if opening {
                d.opening_lines.push(number)
            } else {
                d.opening_lines
            },
            error: d.error,
        },
        Err(m) => DraftModel {
            project: d.project,
            opening_lines: d.opening_lines,
            error: Some((number, m)),
        },
    }
}

/// The statement of a line: trimmed, without trailing semicolons, trimmed.
pub open spec fn statement_of(raw: Seq<char>) -> Seq<char> {
    trim(strip_end(trim(raw), ';'))
}

/// The line holds nothing to compile: it is blank or a comment.
pub open spec fn is_skipped(raw: Seq<char>) -> bool {
    let t = trim(raw);
    t.len() == 0 || starts_with(t, "//"@) || starts_with(t, "#"@)
}

/// The draft after line `number` (1-based), whose text is `raw`.
pub open spec fn line_step(d: DraftModel, number: int, raw: Seq<char>) -> DraftModel {
    let line = statement_of(raw);
    if is_skipped(raw) {
        d
    } else if starts_with(line, "wall("@) {
        apply_statement(d, number, wall_statement(d.project, line), false)
    } else if starts_with(line, "door("@) || starts_with(line, "window("@) {
        apply_statement(d, number, opening_statement(d.project, line), true)
    } else if starts_with(line, "project("@) {
        DraftModel {
            project: ProjectModel {
                name: or_default(named_string_of(line, "name"@), "Untitled plan"@),
                walls: d.project.walls,
                openings: d.project.openings,
            },
            opening_lines: d.opening_lines,
            error: d.error,
        }
    } else if starts_with(line, "view."@) {
        d
    } else {
        DraftModel {
            project: d.project,
            opening_lines: d.opening_lines,
            error: Some((number, "expected wall(...), door(...), window(...), or project(...)"@)),
        }
    }
}

/// The draft after the first `n` lines: compilation stops at the first
/// line that raises an error.
pub open spec fn compile_lines(lines: Seq<Seq<char>>, n: nat) -> DraftModel
    decreases n,
{
    if n == 0 {
        DraftModel { project: empty_plan(), opening_lines: seq![], error: None }
    } else {
        let d = compile_lines(lines, (n - 1) as nat);
        if d.error is Some {
            d
        } else {
            line_step(d, n as int, lines[n - 1])
        }
    }
}

/// The draft of a whole script.
pub open spec fn compile_model(source: Seq<char>) -> DraftModel {
    compile_lines(split_lines(source), split_lines(source).len())
}

/// The default thickness and sill are numerals.
proof fn lemma_default_numerals()
    ensures
        crate::numeral::is_numeral("300"@),
        crate::numeral::is_numeral("900"@),
{
    reveal_strlit("300");
    reveal_strlit("900");
    let a = "300"@;
    let b = "900"@;
    assert(a =~= seq!['3', '0', '0']);
    assert(b =~= seq!['9', '0', '0']);
    assert(crate::numeral::unsigned_part(a) == a);
    assert(crate::numeral::unsigned_part(b) == b);
    assert forall|i: int| 0 <= i < 3 implies crate::numeral::is_digit(#[trigger] a[i]) && crate::numeral::is_digit(b[i]) by {
        if i == 0 {
        } else if i == 1 {
        } else {
        }
    }
    assert(crate::numeral::is_digit(a[0]));
    assert(crate::numeral::is_digit(b[0]));
}

/// The numeral written as `text`.
fn numeral_literal(text: &str) -> (r: Numeral)
    requires
        crate::numeral::is_numeral(text@),
    ensures
        r@ == text@,
{
    let chars = chars_of(text);
    Numeral::from_chars(chars.as_slice()).unwrap()
}

/// Whether some wall of `walls` is named `id`.
fn has_wall_exec(walls: &Vec<Wall>, id: &String) -> (r: bool)
    ensures
        r == has_wall(walls@.map_values(|w: Wall| w@), id@),
{
    let ghost models = walls@.map_values(|w: Wall| w@);
    let mut k: usize = 0;
    while k < walls.len()
        invariant
            k <= walls.len(),
            models == walls@.map_values(|w: Wall| w@),
            forall|j: int| 0 <= j < k ==> #[trigger] models[j].id != id@,
        decreases walls.len() - k,
    {
        if walls[k].id == *id {
            proof {
                assert(models[k as int].id == id@);
            }
            return true;
        }
        k = k + 1;
    }
    false
}

/// Carries out a `wall(...)` statement.
fn wall_statement_exec(project: &mut Project, line: &[char]) -> (r: Result<(), String>)
    requires
        old(project).walls.len() < usize::MAX,
    ensures
        (match wall_statement(old(project)@, line@) {
            Ok(p) => r is Ok && final(project)@ == p,
            Err(m) => r matches Err(e) && e@ == m && final(project)@ == old(project)@,
        }),
{
    let ghost p0 = project@;
    let mut values = numbers_in_exec(line);
    let thickness_name = chars_of("thickness");
    let thickness = match named_number_chars(line, thickness_name.as_slice()) {
        Some(t) => t,
        None => {
            proof {
                lemma_default_numerals();
            }
            numeral_literal("300")
        },
    };
    let id_name = chars_of("id");
    let id_chars = match named_string_chars(line, id_name.as_slice()) {
        Some(v) => v,
        None => {
            let prefix = chars_of("wall-");
            let number = zero_padded_exec(project.walls.len() + 1);
            concat(prefix.as_slice(), number.as_slice())
        },
    };
    if values.len() < 4 {
        return Err("wall expects [x1, y1], [x2, y2]".to_owned());
    }
    let id = string_of(id_chars.as_slice());
    if has_wall_exec(&project.walls, &id) {
        return Err("wall id is already in use".to_owned());
    }
    let ghost found = values@.map_values(|n: Numeral| n@);
    values.truncate(4);
    let y2 = values.pop().unwrap();
    let x2 = values.pop().unwrap();
    let y1 = values.pop().unwrap();
    let x1 = values.pop().unwrap();
    proof {
        assert(x1@ == found[0] && y1@ == found[1] && x2@ == found[2] && y2@ == found[3]);
    }
    let wall = Wall {
        id,
        start: Point { x: x1, y: y1 },
        end: Point { x: x2, y: y2 },
        thickness,
    };
    let ghost w = wall@;
    project.walls.push(wall);
    proof {
        assert(project.walls@.map_values(|w: Wall| w@) == p0.walls.push(w));
    }
    Ok(())
}

/// Carries out a `door(...)` or `window(...)` statement, all but the check
/// that the opening fits inside its wall.
fn opening_statement_exec(project: &mut Project, line: &[char]) -> (r: Result<(), String>)
    requires
        old(project).openings.len() < usize::MAX,
    ensures
        (match opening_statement(old(project)@, line@) {
            Ok(p) => r is Ok && final(project)@ == p,
            Err(m) => r matches Err(e) && e@ == m && final(project)@ == old(project)@,
        }),
{
    let ghost p0 = project@;
    let wall_id_chars = match first_string_chars(line) {
        Some(v) => v,
        None => {
            return Err("opening needs a wall id as first argument".to_owned());
        },
    };
    let wall_id = string_of(wall_id_chars.as_slice());
    if !has_wall_exec(&project.walls, &wall_id) {
        return Err("opening references an unknown wall".to_owned());
    }
    let offset_name = chars_of("offset");
    let offset = match named_number_chars(line, offset_name.as_slice()) {
        Some(n) => n,
        None => {
            return Err("opening needs offset".to_owned());
        },
    };
    let width_name = chars_of("width");
    let width = match named_number_chars(line, width_name.as_slice()) {
        Some(n) => n,
        None => {
            return Err("opening needs width".to_owned());
        },
    };
    let window_call = chars_of("window(");
    let is_window = starts_with_exec(line, window_call.as_slice());
    let kind = if is_window {
        let sill_name = chars_of("sill");
        let sill = match named_number_chars(line, sill_name.as_slice()) {
            Some(n) => n,
            None => {
                proof {
                    lemma_default_numerals();
                }
                numeral_literal("900")
            },
        };
        OpeningKind::Window { sill }
    } else {
        OpeningKind::Door
    };
    let word = if is_window {
        chars_of("window")
    } else {
        chars_of("door")
    };
    let dash = chars_of("-");
    let number = zero_padded_exec(project.openings.len() + 1);
    let head = concat(word.as_slice(), dash.as_slice());
    let id_chars = concat(head.as_slice(), number.as_slice());
    let opening = Opening { id: string_of(id_chars.as_slice()), wall_id, offset, width, kind };
    let ghost o = opening@;
    project.openings.push(opening);
    proof {
        assert(project.openings@.map_values(|o: Opening| o@) == p0.openings.push(o));
    }
    Ok(())
}

/// Carries out the line numbered `number` (1-based).
fn line_step_exec(draft: &mut Draft, number: usize, raw: &[char])
    requires
        old(draft).project.walls.len() < usize::MAX,
        old(draft).project.openings.len() < usize::MAX,
    ensures
        final(draft)@ == line_step(old(draft)@, number as int, raw@),
{
    let ghost d0 = draft@;
    let trimmed = trim_chars(raw);
    let comment = chars_of("//");
    let hash = chars_of("#");
    if trimmed.len() == 0 || starts_with_exec(trimmed.as_slice(), comment.as_slice())
        || starts_with_exec(trimmed.as_slice(), hash.as_slice()) {
        return;
    }
    let stripped = strip_end_chars(trimmed.as_slice(), ';');
    let line = trim_chars(stripped.as_slice());
    let wall_call = chars_of("wall(");
    let door_call = chars_of("door(");
    let window_call = chars_of("window(");
    let project_call = chars_of("project(");
    let view_call = chars_of("view.");
    if starts_with_exec(line.as_slice(), wall_call.as_slice()) {
        match wall_statement_exec(&mut draft.project, line.as_slice()) {
            Ok(()) => {},
            Err(message) => {
                draft.error = Some(CompileError { line: number, message });
            },
        }
    } else if starts_with_exec(line.as_slice(), door_call.as_slice()) || starts_with_exec(
        line.as_slice(),
        window_call.as_slice(),
    ) {
        match opening_statement_exec(&mut draft.project, line.as_slice()) {
            Ok(()) => {
                draft.opening_lines.push(number);
                proof {
                    assert(draft.opening_lines@.map_values(|l: usize| l as int)
                        == d0.opening_lines.push(number as int));
                }
            },
            Err(message) => {
                draft.error = Some(CompileError { line: number, message });
            },
        }
    } else if starts_with_exec(line.as_slice(), project_call.as_slice()) {
        let name_key = chars_of("name");
        let name = match named_string_chars(line.as_slice(), name_key.as_slice()) {
            Some(v) => string_of(v.as_slice()),
            None => "Untitled plan".to_owned(),
        };
        draft.project.name = name;
    } else if starts_with_exec(line.as_slice(), view_call.as_slice()) {
    } else {
        draft.error = Some(
            CompileError {
                line: number,
                message: "expected wall(...), door(...), window(...), or project(...)".to_owned(),
            },
        );
    }
}

/// Once a line raises an error, later lines change nothing.
proof fn lemma_error_persists(lines: Seq<Seq<char>>, n: nat, m: nat)
    requires
        n <= m,
        compile_lines(lines, n).error is Some,
    ensures
        compile_lines(lines, m) == compile_lines(lines, n),
    decreases m,
{
    if m > n {
        lemma_error_persists(lines, n, (m - 1) as nat);
    }
}

/// After `n` lines the plan holds at most `n` walls and `n` openings, and
/// one line per opening.
proof fn lemma_counts(lines: Seq<Seq<char>>, n: nat)
    ensures
        compile_lines(lines, n).project.walls.len() <= n,
        compile_lines(lines, n).project.openings.len() <= n,
        compile_lines(lines, n).opening_lines.len() == compile_lines(
            lines,
            n,
        ).project.openings.len(),
    decreases n,
{
    if n > 0 {
        lemma_counts(lines, (n - 1) as nat);
    }
}

/// Compiles a plan script, all but the check that each opening fits inside
/// its wall (see [`Draft::settle`]).
pub fn compile(source: &str) -> (r: Draft)
    ensures
        r@ == compile_model(source@),
{
    let chars = chars_of(source);
    let lines = split_lines_exec(chars.as_slice());
    let ghost views = lines@.map_values(|l: Vec<char>| l@);
    let mut draft = Draft {
        project: Project {
            name: "Untitled plan".to_owned(),
            walls: Vec::new(),
            openings: Vec::new(),
        },
        opening_lines: Vec::new(),
        error: None,
    };
    proof {
        assert(draft@.project.walls =~= Seq::<WallModel>::empty());
        assert(draft@.project.openings =~= Seq::<OpeningModel>::empty());
        assert(draft@.opening_lines =~= Seq::<int>::empty());
        assert(draft@ == compile_lines(views, 0));
    }
    let mut i: usize = 0;
    while i < lines.len()
        invariant
            i <= lines.len(),
            views == lines@.map_values(|l: Vec<char>| l@),
            views == split_lines(source@),
            draft@ == compile_lines(views, i as nat),
            draft.error is None,
        decreases lines.len() - i,
    {
        proof {
            lemma_counts(views, i as nat);
        }
        line_step_exec(&mut draft, i + 1, lines[i].as_slice());
        proof {
            assert(views[i as int] == lines[i as int]@);
        }
        if draft.error.is_some() {
            proof {
                lemma_error_persists(views, (i + 1) as nat, views.len());
            }
            return draft;
        }
        i = i + 1;
    }
    draft
}

/// The first of the first `bound` verdicts that is `false`.
pub open spec fn first_false(fits: Seq<bool>, bound: int) -> Option<int>
    decreases bound,
{
    if bound <= 0 {
        None
    } else {
        match first_false(fits, bound - 1) {
            Some(i) => Some(i),
            None => if !fits[bound - 1] {
                Some(bound - 1)
            } else {
                None
            },
        }
    }
}

/// The result of a draft once `fits[i]` tells whether its `i`-th opening
/// fits inside its wall: an opening that does not fit is an error on its
/// line, which comes before any error that the draft stopped at.
pub open spec fn settle_model(d: DraftModel, fits: Seq<bool>) -> Result<ProjectModel, (int, Seq<char>)> {
    match first_false(fits, fits.len() as int) {
        Some(i) => Err((d.opening_lines[i], "opening must fit inside its wall"@)),
        None => match d.error {
            Some(e) => Err(e),
            None => Ok(d.project),
        },
    }
}

impl Draft {
    /// The compiled plan, once `fits[i]` tells whether the `i`-th opening
    /// fits inside its wall.
    pub fn settle(self, fits: &Vec<bool>) -> (r: Result<Project, CompileError>)
        requires
            fits.len() == self.opening_lines.len(),
        ensures
            (match settle_model(self@, fits@) {
                Ok(p) => r matches Ok(q) && q@ == p,
                Err(e) => r matches Err(x) && x.line == e.0 && x.message@ == e.1,
            }),
    {
        let mut i: usize = 0;
        while i < fits.len()
            invariant
                i <= fits.len(),
                fits.len() == self.opening_lines.len(),
                first_false(fits@, i as int) is None,
            decreases fits.len() - i,
        {
            if !fits[i] {
                proof {
                    assert(first_false(fits@, i + 1) == Some(i as int));
                    lemma_first_false_stays(fits@, i + 1, fits.len() as int);
                }
                return Err(
                    CompileError {
                        line: self.opening_lines[i],
                        message: "opening must fit inside its wall".to_owned(),
                    },
                );
            }
            i = i + 1;
        }
        match self.error {
            Some(e) => Err(e),
            None => Ok(self.project),
        }
    }
}

/// A `false` verdict found among the first `a` stays the first one among
/// the first `b >= a`.
pub proof fn lemma_first_false_stays(fits: Seq<bool>, a: int, b: int)
    requires
        a <= b,
        first_false(fits, a) is Some,
    ensures
        first_false(fits, b) == first_false(fits, a),
    decreases b - a,
{
    if b > a {
        lemma_first_false_stays(fits, a, b - 1);
    }
}

/// The draft after line `number` when the fit of each opening is decided
/// on its own line, by `fits[i]` for the `i`-th opening.
pub open spec fn checked_line_step(
    d: DraftModel,
    number: int,
    raw: Seq<char>,
    fits: Seq<bool>,
) -> DraftModel {
    let s = line_step(d, number, raw);
    let k = d.project.openings.len();
    if s.error is None && s.project.openings.len() > k && !fits[k as int] {
        DraftModel {
            project: d.project,
            opening_lines: d.opening_lines,
            error: Some((number, "opening must fit inside its wall"@)),
        }
    } else {
        s
    }
}

/// The draft after the first `n` lines when each opening's fit is decided
/// on its own line.
pub open spec fn compile_checked_lines(lines: Seq<Seq<char>>, n: nat, fits: Seq<bool>) -> DraftModel
    decreases n,
{
    if n == 0 {
        DraftModel { project: empty_plan(), opening_lines: seq![], error: None }
    } else {
        let d = compile_checked_lines(lines, (n - 1) as nat, fits);
        if d.error is Some {
            d
        } else {
            checked_line_step(d, n as int, lines[n - 1], fits)
        }
    }
}

/// The plan of a draft, or the error it stopped at.
pub open spec fn outcome(d: DraftModel) -> Result<ProjectModel, (int, Seq<char>)> {
    match d.error {
        Some(e) => Err(e),
        None => Ok(d.project),
    }
}

/// A line either leaves the openings alone or adds one opening, recorded at
/// its own line number, without raising an error.
proof fn lemma_line_step_shape(d: DraftModel, number: int, raw: Seq<char>)
    ensures
        ({
            let s = line_step(d, number, raw);
            ||| s.opening_lines == d.opening_lines && s.project.openings == d.project.openings
            ||| s.project.openings.len() == d.project.openings.len() + 1
                && s.project.openings.take(d.project.openings.len() as int) == d.project.openings
                && s.opening_lines == d.opening_lines.push(number) && s.error == d.error
        }),
{
    let line = statement_of(raw);
    if !is_skipped(raw) && !starts_with(line, "wall("@) && (starts_with(line, "door("@)
        || starts_with(line, "window("@)) {
        let r = opening_statement(d.project, line);
        if r is Ok {
            let p = r->Ok_0;
            assert(p.openings.take(d.project.openings.len() as int) == d.project.openings);
        }
    }
}

/// Openings and their lines recorded after `n` lines stay recorded, in
/// place, after any later line.
proof fn lemma_openings_grow(lines: Seq<Seq<char>>, n: nat, m: nat)
    requires
        n <= m,
    ensures
        compile_lines(lines, n).opening_lines.len() <= compile_lines(lines, m).opening_lines.len(),
        compile_lines(lines, n).project.openings.len() <= compile_lines(
            lines,
            m,
        ).project.openings.len(),
        forall|i: int|
            0 <= i < compile_lines(lines, n).opening_lines.len() ==> #[trigger] compile_lines(
                lines,
                m,
            ).opening_lines[i] == compile_lines(lines, n).opening_lines[i],
    decreases m,
{
    if m > n {
        lemma_openings_grow(lines, n, (m - 1) as nat);
        let d = compile_lines(lines, (m - 1) as nat);
        if d.error is None {
            lemma_line_step_shape(d, m as int, lines[m - 1]);
        }
    }
}

/// How the run that checks fits line by line follows the deferred run.
proof fn lemma_checked_tracks(lines: Seq<Seq<char>>, n: nat, fits: Seq<bool>)
    ensures
        ({
            let d = compile_lines(lines, n);
            let c = compile_checked_lines(lines, n, fits);
            match first_false(fits, d.project.openings.len() as int) {
                None => c == d,
                Some(j) => c.error == Some(
                    (d.opening_lines[j], "opening must fit inside its wall"@),
                ) && 0 <= j < d.opening_lines.len(),
            }
        }),
    decreases n,
{
    lemma_counts(lines, n);
    if n > 0 {
        let m = (n - 1) as nat;
        lemma_checked_tracks(lines, m, fits);
        lemma_counts(lines, m);
        lemma_openings_grow(lines, m, n);
        let d0 = compile_lines(lines, m);
        let c0 = compile_checked_lines(lines, m, fits);
        let d1 = compile_lines(lines, n);
        let b0 = d0.project.openings.len() as int;
        let b1 = d1.project.openings.len() as int;
        match first_false(fits, b0) {
            Some(j) => {
                lemma_first_false_stays(fits, b0, b1);
            },
            None => {
                if d0.error is None {
                    lemma_line_step_shape(d0, n as int, lines[m as int]);
                    if b1 == b0 + 1 {
                        assert(d1.opening_lines[b0] == n as int);
                    }
                }
            },
        }
    }
}

/// Deciding every opening's fit after compiling, with [`Draft::settle`],
/// gives what deciding it on the opening's own line gives: the same plan,
/// or the same error on the same line.
pub proof fn law_deferred_fit_check(source: Seq<char>, fits: Seq<bool>)
    requires
        fits.len() == compile_model(source).opening_lines.len(),
    ensures
        settle_model(compile_model(source), fits) == outcome(
            compile_checked_lines(split_lines(source), split_lines(source).len(), fits),
        ),
{
    let lines = split_lines(source);
    lemma_counts(lines, lines.len());
    lemma_checked_tracks(lines, lines.len(), fits);
}

/// No two walls of the plan share an id.
pub open spec fn wall_ids_distinct(p: ProjectModel) -> bool {
    forall|i: int, j: int|
        0 <= i < j < p.walls.len() ==> #[trigger] p.walls[i].id != #[trigger] p.walls[j].id
}

/// Every opening names a wall of the plan.
pub open spec fn openings_on_walls(p: ProjectModel) -> bool {
    forall|i: int| 0 <= i < p.openings.len() ==> has_wall(p.walls, #[trigger] p.openings[i].wall_id)
}

/// The lines recorded for the openings rise strictly, lie in `1..=n`, and
/// come before the error line, if there is one.
pub open spec fn lines_ordered(d: DraftModel, n: int) -> bool {
    &&& forall|i: int, j: int|
        0 <= i < j < d.opening_lines.len() ==> #[trigger] d.opening_lines[i]
            < #[trigger] d.opening_lines[j]
    &&& forall|i: int|
        0 <= i < d.opening_lines.len() ==> 1 <= #[trigger] d.opening_lines[i] <= n
    &&& d.error matches Some(e) ==> forall|i: int|
        0 <= i < d.opening_lines.len() ==> #[trigger] d.opening_lines[i] < e.0
}

/// One line keeps the plan's ids distinct and its openings on its walls.
proof fn lemma_line_step_keeps_plan(d: DraftModel, number: int, raw: Seq<char>)
    requires
        wall_ids_distinct(d.project),
        openings_on_walls(d.project),
    ensures
        wall_ids_distinct(line_step(d, number, raw).project),
        openings_on_walls(line_step(d, number, raw).project),
{
    let line = statement_of(raw);
    let p = d.project;
    if !is_skipped(raw) && starts_with(line, "wall("@) {
        let r = wall_statement(p, line);
        if r is Ok {
            let q = r->Ok_0;
            let w = q.walls.last();
            assert(q.walls == p.walls.push(w));
            assert(!has_wall(p.walls, w.id));
            assert forall|i: int, j: int| 0 <= i < j < q.walls.len() implies #[trigger] q.walls[i].id
                != #[trigger] q.walls[j].id by {
                if j == q.walls.len() - 1 {
                    assert(p.walls[i].id == q.walls[i].id);
                }
            }
            assert forall|i: int| 0 <= i < q.openings.len() implies has_wall(
                q.walls,
                #[trigger] q.openings[i].wall_id,
            ) by {
                let k = choose|k: int| 0 <= k < p.walls.len() && #[trigger] p.walls[k].id
                    == p.openings[i].wall_id;
                assert(q.walls[k].id == p.walls[k].id);
            }
        }
    } else if !is_skipped(raw) && (starts_with(line, "door("@) || starts_with(line, "window("@)) {
        let r = opening_statement(p, line);
        if r is Ok {
            let q = r->Ok_0;
            assert forall|i: int| 0 <= i < q.openings.len() implies has_wall(
                q.walls,
                #[trigger] q.openings[i].wall_id,
            ) by {
                if i < p.openings.len() {
                    assert(q.openings[i] == p.openings[i]);
                }
            }
        }
    }
}

/// What every compiled script keeps: wall ids are distinct, every opening
/// names a wall, and the openings' lines rise and precede the error line.
proof fn lemma_compile_keeps(lines: Seq<Seq<char>>, n: nat)
    ensures
        wall_ids_distinct(compile_lines(lines, n).project),
        openings_on_walls(compile_lines(lines, n).project),
        lines_ordered(compile_lines(lines, n), n as int),
    decreases n,
{
    if n > 0 {
        let m = (n - 1) as nat;
        lemma_compile_keeps(lines, m);
        let d = compile_lines(lines, m);
        if d.error is None {
            lemma_line_step_keeps_plan(d, n as int, lines[m as int]);
            lemma_line_step_shape(d, n as int, lines[m as int]);
        }
    }
}

/// Every plan that compiles has distinct wall ids and openings that name
/// its walls; the line of each opening comes before the line of the error
/// that compilation stopped at, and the lines rise in order.
pub proof fn law_compiled_plan_is_consistent(source: Seq<char>)
    ensures
        wall_ids_distinct(compile_model(source).project),
        openings_on_walls(compile_model(source).project),
        lines_ordered(compile_model(source), split_lines(source).len() as int),
        compile_model(source).opening_lines.len() == compile_model(source).project.openings.len(),
{
    let lines = split_lines(source);
    lemma_compile_keeps(lines, lines.len());
    lemma_counts(lines, lines.len());
}

/// A `wall(...)` line that compiles adds exactly one wall and nothing else.
/// The wall runs from the first two numbers written on the line to the next
/// two; its thickness is the first number written after `thickness =`, or
/// 300 when the line gives none; its id is the text quoted after `id = `,
/// or `wall-` and the wall's 1-based position padded to three digits; and no
/// earlier wall has that id. The line fails exactly when it writes fewer
/// than four numbers or its id is taken, and then names its own line.
pub proof fn law_wall_line(d: DraftModel, number: int, raw: Seq<char>)
    requires
        d.error is None,
        !is_skipped(raw),
        starts_with(statement_of(raw), "wall("@),
    ensures
        ({
            let line = statement_of(raw);
            let s = line_step(d, number, raw);
            let values = numbers_in(line);
            let id = match named_string_of(line, "id"@) {
                Some(i) => i,
                None => "wall-"@ + zero_padded((d.project.walls.len() + 1) as nat),
            };
            &&& (s.error == d.error) <==> (values.len() >= 4 && !has_wall(d.project.walls, id))
            &&& values.len() < 4 ==> s.error == Some((number, "wall expects [x1, y1], [x2, y2]"@))
            &&& values.len() >= 4 && has_wall(d.project.walls, id) ==> s.error == Some(
                (number, "wall id is already in use"@),
            )
            &&& s.error != d.error ==> s.project == d.project && s.opening_lines
                == d.opening_lines
            &&& s.error == d.error ==> {
                let w = s.project.walls.last();
                &&& s.project.walls.len() == d.project.walls.len() + 1
                &&& s.project.walls.drop_last() == d.project.walls
                &&& s.project.openings == d.project.openings
                &&& s.project.name == d.project.name
                &&& s.opening_lines == d.opening_lines
                &&& w.start.x == values[0] && w.start.y == values[1]
                &&& w.end.x == values[2] && w.end.y == values[3]
                &&& (named_number_of(line, "thickness"@) matches Some(t) ==> w.thickness == t)
                &&& (named_number_of(line, "thickness"@) is None ==> w.thickness == "300"@)
                &&& w.id == id
                &&& !has_wall(d.project.walls, w.id)
            }
        }),
{
    let line = statement_of(raw);
    let r = wall_statement(d.project, line);
    if r is Ok {
        let q = r->Ok_0;
        assert(q.walls.drop_last() == d.project.walls);
    }
    assert("wall expects [x1, y1], [x2, y2]"@ != "wall id is already in use"@) by {
        reveal_strlit("wall expects [x1, y1], [x2, y2]");
        reveal_strlit("wall id is already in use");
        assert("wall expects [x1, y1], [x2, y2]"@[5] != "wall id is already in use"@[5]);
    }
}

/// A `window(` line never reads as a `wall(` line, nor a `door(` line.
proof fn lemma_calls_differ(line: Seq<char>)
    ensures
        starts_with(line, "window("@) ==> !starts_with(line, "wall("@),
        starts_with(line, "door("@) ==> !starts_with(line, "wall("@),
        starts_with(line, "window("@) ==> !starts_with(line, "door("@),
{
    reveal_strlit("wall(");
    reveal_strlit("door(");
    reveal_strlit("window(");
    if starts_with(line, "window("@) {
        assert(line.take(7)[1] == line[1]);
        assert(line[1] == 'i');
        if starts_with(line, "wall("@) {
            assert(line.take(5)[1] == line[1]);
        }
        if starts_with(line, "door("@) {
            assert(line.take(5)[0] == line[0]);
            assert(line.take(7)[0] == line[0]);
        }
    }
    if starts_with(line, "door("@) {
        assert(line.take(5)[0] == line[0]);
        if starts_with(line, "wall("@) {
            assert(line.take(5)[0] == line[0]);
        }
    }
}

/// A `door(...)` or `window(...)` line that compiles adds exactly one
/// opening, records its own line for it, and changes nothing else. The
/// opening is on the wall quoted first on the line, which exists; its offset
/// and width are the first numbers written after `offset =` and `width =`;
/// a `window(` line makes a window whose sill is the first number written
/// after `sill =`, or 900 when the line gives none, and a `door(` line makes
/// a door; its id is `door-` or `window-` and the opening's 1-based position
/// padded to three digits. The line fails exactly when one of the wall, the
/// offset and the width is missing or the wall is unknown, naming its line.
pub proof fn law_opening_line(d: DraftModel, number: int, raw: Seq<char>)
    requires
        d.error is None,
        !is_skipped(raw),
        starts_with(statement_of(raw), "door("@) || starts_with(statement_of(raw), "window("@),
    ensures
        ({
            let line = statement_of(raw);
            let s = line_step(d, number, raw);
            let wall_id = first_string_of(line);
            let offset = named_number_of(line, "offset"@);
            let width = named_number_of(line, "width"@);
            let is_window = starts_with(line, "window("@);
            &&& (s.error is None) <==> (wall_id is Some && has_wall(d.project.walls, wall_id->0)
                && offset is Some && width is Some)
            &&& wall_id is None ==> s.error == Some(
                (number, "opening needs a wall id as first argument"@),
            )
            &&& wall_id is Some && !has_wall(d.project.walls, wall_id->0) ==> s.error == Some(
                (number, "opening references an unknown wall"@),
            )
            &&& wall_id is Some && has_wall(d.project.walls, wall_id->0) && offset is None
                ==> s.error == Some((number, "opening needs offset"@))
            &&& wall_id is Some && has_wall(d.project.walls, wall_id->0) && offset is Some
                && width is None ==> s.error == Some((number, "opening needs width"@))
            &&& s.error is Some ==> s.project == d.project && s.opening_lines == d.opening_lines
            &&& s.error is None ==> {
                let o = s.project.openings.last();
                &&& s.project.openings.len() == d.project.openings.len() + 1
                &&& s.project.openings.drop_last() == d.project.openings
                &&& s.project.walls == d.project.walls
                &&& s.project.name == d.project.name
                &&& s.opening_lines == d.opening_lines.push(number)
                &&& wall_id == Some(o.wall_id)
                &&& has_wall(d.project.walls, o.wall_id)
                &&& offset == Some(o.offset)
                &&& width == Some(o.width)
                &&& (is_window && named_number_of(line, "sill"@) is Some ==> o.kind
                    == OpeningKindModel::Window { sill: named_number_of(line, "sill"@)->0 })
                &&& (is_window && named_number_of(line, "sill"@) is None ==> o.kind
                    == OpeningKindModel::Window { sill: "900"@ })
                &&& (!is_window ==> o.kind == OpeningKindModel::Door)
                &&& o.id == (if is_window {
                    "window"@
                } else {
                    "door"@
                }) + "-"@ + zero_padded((d.project.openings.len() + 1) as nat)
            }
        }),
{
    let line = statement_of(raw);
    lemma_calls_differ(line);
    let r = opening_statement(d.project, line);
    if r is Ok {
        let q = r->Ok_0;
        assert(q.openings.drop_last() == d.project.openings);
    }
}

/// Two prefixes of one text begin with the same character.
proof fn lemma_prefixes_agree(line: Seq<char>, a: Seq<char>, b: Seq<char>)
    requires
        a.len() > 0,
        b.len() > 0,
        starts_with(line, a),
        starts_with(line, b),
    ensures
        a[0] == b[0],
{
    assert(line.take(a.len() as int)[0] == line[0]);
    assert(line.take(b.len() as int)[0] == line[0]);
}

/// A `project(...)` line renames the plan to the text quoted after
/// `name = `, or to "Untitled plan" when the line gives none, and changes
/// nothing else.
pub proof fn law_project_line(d: DraftModel, number: int, raw: Seq<char>)
    requires
        !is_skipped(raw),
        starts_with(statement_of(raw), "project("@),
    ensures
        ({
            let line = statement_of(raw);
            let s = line_step(d, number, raw);
            &&& named_string_of(line, "name"@) is Some ==> s.project.name == named_string_of(
                line,
                "name"@,
            )->0
            &&& named_string_of(line, "name"@) is None ==> s.project.name == "Untitled plan"@
            &&& s.project.walls == d.project.walls
            &&& s.project.openings == d.project.openings
            &&& s.opening_lines == d.opening_lines
            &&& s.error == d.error
        }),
{
    let line = statement_of(raw);
    reveal_strlit("project(");
    reveal_strlit("wall(");
    reveal_strlit("door(");
    reveal_strlit("window(");
    if starts_with(line, "wall("@) {
        lemma_prefixes_agree(line, "project("@, "wall("@);
    }
    if starts_with(line, "door("@) {
        lemma_prefixes_agree(line, "project("@, "door("@);
    }
    if starts_with(line, "window("@) {
        lemma_prefixes_agree(line, "project("@, "window("@);
    }
}

/// Blank and comment lines change nothing; a `view.` line changes nothing;
/// any other line that is not a call the script knows is an error on that
/// line, and changes nothing else.
pub proof fn law_other_lines(d: DraftModel, number: int, raw: Seq<char>)
    requires
        is_skipped(raw) || !(starts_with(statement_of(raw), "wall("@) || starts_with(
            statement_of(raw),
            "door("@,
        ) || starts_with(statement_of(raw), "window("@) || starts_with(
            statement_of(raw),
            "project("@,
        )),
    ensures
        ({
            let line = statement_of(raw);
            let s = line_step(d, number, raw);
            &&& s.project == d.project
            &&& s.opening_lines == d.opening_lines
            &&& (is_skipped(raw) || starts_with(line, "view."@)) ==> s.error == d.error
            &&& !(is_skipped(raw) || starts_with(line, "view."@)) ==> s.error == Some(
                (number, "expected wall(...), door(...), window(...), or project(...)"@),
            )
        }),
{
}

} // verus!
