//! Baumaus: a script-first architectural plan editor.
//!
//! The verified library holds the plan script language (its lines, calls and
//! arguments), the decimal numerals that the script writes, the plan model
//! and its bounds, and the script editor: its cursor and what each key does.

mod cursor;
mod domain;
mod editor;
mod mesh;
mod numeral;
mod parser;
mod text;

pub use cursor::{next_boundary, previous_boundary, snap_boundary};
pub use domain::{Opening, OpeningKind, Point, Project, Wall};
pub use editor::{Action, Editor, Focus, Key};
pub use mesh::prism_faces_text;
pub use numeral::Numeral;
pub use parser::{
    compile, error, first_string, named_number, named_string, numbers, CompileError, Draft,
};
