use baumaus::{compile, error, CompileError, Draft, Numeral, OpeningKind, Project, Wall};

fn value(n: &Numeral) -> f64 {
    n.to_text().parse().unwrap()
}

fn length(w: &Wall) -> f64 {
    (value(&w.end.x) - value(&w.start.x)).hypot(value(&w.end.y) - value(&w.start.y))
}

/// Whether each opening of a draft fits inside its wall.
fn fits(draft: &Draft) -> Vec<bool> {
    draft
        .project
        .openings
        .iter()
        .map(|o| {
            let wall = draft.project.walls.iter().find(|w| w.id == o.wall_id).unwrap();
            let offset = value(&o.offset);
            let width = value(&o.width);
            !(offset < 0.0 || width <= 0.0 || offset + width > length(wall))
        })
        .collect()
}

fn build(source: &str) -> Result<Project, CompileError> {
    let draft = compile(source);
    let verdicts = fits(&draft);
    draft.settle(&verdicts)
}

fn fails_with(source: &str, line: usize, message: &str) {
    let e = build(source).err().expect("an error");
    assert_eq!(e.line, line, "{source}");
    assert_eq!(e.message, message, "{source}");
}

const EXAMPLE: &str = r#"project(name = "Casa Baumaus");

wall([0, 0], [6000, 0], thickness = 300);
wall([6000, 0], [6000, 4500], thickness = 300);
wall([6000, 4500], [0, 4500], thickness = 300);
wall([0, 4500], [0, 0], thickness = 300);

door("wall-001", offset = 1200, width = 900);
window("wall-002", offset = 900, width = 1200, sill = 900);
view.fit();"#;

#[test]
fn compiles_a_plan_with_openings() {
    let project = build(
        "wall([0, 0], [6000, 0], thickness = 300);\ndoor(\"wall-001\", offset = 1200, width = 900);",
    )
    .unwrap();
    assert_eq!(project.walls.len(), 1);
    assert_eq!(project.openings.len(), 1);
}

#[test]
fn rejects_opening_without_wall() {
    assert!(build("door(\"missing\", offset = 0, width = 900);").is_err());
}

#[test]
fn compiles_the_example_plan() {
    let project = build(EXAMPLE).unwrap();
    assert_eq!(project.name, "Casa Baumaus");
    let ids: Vec<&str> = project.walls.iter().map(|w| w.id.as_str()).collect();
    assert_eq!(ids, vec!["wall-001", "wall-002", "wall-003", "wall-004"]);
    assert_eq!(project.walls[1].start.x.to_text(), "6000");
    assert_eq!(project.walls[1].end.y.to_text(), "4500");
    assert_eq!(project.walls[3].thickness.to_text(), "300");
    assert_eq!(project.openings.len(), 2);
    assert_eq!(project.openings[0].id, "door-001");
    assert_eq!(project.openings[0].wall_id, "wall-001");
    assert_eq!(project.openings[0].offset.to_text(), "1200");
    assert_eq!(project.openings[0].width.to_text(), "900");
    assert!(matches!(project.openings[0].kind, OpeningKind::Door));
    assert_eq!(project.openings[1].id, "window-002");
    match &project.openings[1].kind {
        OpeningKind::Window { sill } => assert_eq!(sill.to_text(), "900"),
        OpeningKind::Door => panic!("expected a window"),
    }
}

#[test]
fn defaults_fill_missing_arguments() {
    let project = build(
        "wall([0, 0], [5000, 0]);\nwindow(\"wall-001\", offset = 100, width = 200);",
    )
    .unwrap();
    assert_eq!(project.name, "Untitled plan");
    assert_eq!(project.walls[0].thickness.to_text(), "300");
    match &project.openings[0].kind {
        OpeningKind::Window { sill } => assert_eq!(sill.to_text(), "900"),
        OpeningKind::Door => panic!("expected a window"),
    }
    let project = build("project();").unwrap();
    assert_eq!(project.name, "Untitled plan");
}

#[test]
fn skips_blank_lines_comments_and_view_statements() {
    let project = build("  \n// a comment\n# another\n\tview.fit();\r\nwall([1, 2], [3, 4]);;\r\n").unwrap();
    assert_eq!(project.walls.len(), 1);
    assert_eq!(project.walls[0].start.y.to_text(), "2");
}

#[test]
fn named_walls_keep_their_ids_and_numbering_counts_walls() {
    let project = build(
        "wall([0, 0], [10, 0], id = \"north\");\nwall([0, 0], [0, 10]);\ndoor(\"north\", offset = 1, width = 2);",
    )
    .unwrap();
    assert_eq!(project.walls[0].id, "north");
    assert_eq!(project.walls[1].id, "wall-002");
    assert_eq!(project.openings[0].wall_id, "north");
}

#[test]
fn each_error_names_its_line() {
    fails_with("wall([0, 0], [1]);", 1, "wall expects [x1, y1], [x2, y2]");
    fails_with(
        "wall([0, 0], [1, 0], id = \"a\");\nwall([0, 0], [2, 0], id = \"a\");",
        2,
        "wall id is already in use",
    );
    fails_with("\n\ndoor(offset = 1, width = 2);", 3, "opening needs a wall id as first argument");
    fails_with("door(\"x\", offset = 1, width = 2);", 1, "opening references an unknown wall");
    fails_with("wall([0,0],[10,0]);\ndoor(\"wall-001\", width = 2);", 2, "opening needs offset");
    fails_with("wall([0,0],[10,0]);\nwindow(\"wall-001\", offset = 2);", 2, "opening needs width");
    fails_with(
        "wall([0,0],[10,0]);\nroof();",
        2,
        "expected wall(...), door(...), window(...), or project(...)",
    );
    fails_with(
        "wall([0,0],[10,0]);\ndoor(\"wall-001\", offset = 5, width = 6);",
        2,
        "opening must fit inside its wall",
    );
    fails_with(
        "wall([0,0],[10,0]);\ndoor(\"wall-001\", offset = -1, width = 2);",
        2,
        "opening must fit inside its wall",
    );
    fails_with(
        "wall([0,0],[10,0]);\ndoor(\"wall-001\", offset = 1, width = 0);",
        2,
        "opening must fit inside its wall",
    );
}

#[test]
fn the_first_error_wins_even_when_a_fit_is_decided_later() {
    // the door does not fit (line 2) and line 3 is not a statement
    let source = "wall([0,0],[10,0]);\ndoor(\"wall-001\", offset = 5, width = 9);\nnonsense";
    let draft = compile(source);
    assert_eq!(draft.opening_lines, vec![2]);
    assert_eq!(draft.error.as_ref().unwrap().line, 3);
    let e = draft.settle(&vec![false]).err().unwrap();
    assert_eq!(e, CompileError { line: 2, message: "opening must fit inside its wall".to_string() });
    // with the door fitting, the later error stands
    let e = compile(source).settle(&vec![true]).err().unwrap();
    assert_eq!(e.line, 3);
}

#[test]
fn compilation_stops_at_the_first_error() {
    let draft = compile("wall([0,0],[1,0]);\nbad\nwall([0,0],[2,0]);");
    assert_eq!(draft.project.walls.len(), 1);
    assert_eq!(draft.error.unwrap().line, 2);
}

#[test]
fn errors_count_lines_from_one() {
    let e = error(0, "x");
    assert_eq!(e.line, 1);
    assert_eq!(e.message, "x");
    assert_eq!(error(41, "y").line, 42);
}

#[test]
fn ids_are_padded_to_three_digits_and_grow_past_them() {
    let mut source = String::new();
    for _ in 0..1000 {
        source.push_str("wall([0,0],[1,0]);\n");
    }
    let project = build(&source).unwrap();
    assert_eq!(project.walls[0].id, "wall-001");
    assert_eq!(project.walls[9].id, "wall-010");
    assert_eq!(project.walls[99].id, "wall-100");
    assert_eq!(project.walls[999].id, "wall-1000");
}

#[test]
fn bounds_enclose_the_walls() {
    let project = build(EXAMPLE).unwrap();
    let (lo, hi) = project.bounds().unwrap();
    assert_eq!(lo.x.to_text(), "0");
    assert_eq!(lo.y.to_text(), "0");
    assert_eq!(hi.x.to_text(), "6000");
    assert_eq!(hi.y.to_text(), "4500");
    let project = build("wall([-1.5, 3], [2, -0.25]);\nwall([10, 7], [0.5, 7.5]);").unwrap();
    let (lo, hi) = project.bounds().unwrap();
    assert_eq!(lo.x.to_text(), "-1.5");
    assert_eq!(lo.y.to_text(), "-0.25");
    assert_eq!(hi.x.to_text(), "10");
    assert_eq!(hi.y.to_text(), "7.5");
    assert!(build("project(name = \"empty\");").unwrap().bounds().is_none());
}
