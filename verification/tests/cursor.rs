use baumaus::{next_boundary, previous_boundary, snap_boundary};

#[test]
fn cursor_moves_on_utf8_boundaries() {
    let line = "casa è";
    let end = line.len();
    let before_e = previous_boundary(line, end);
    assert_eq!(&line[before_e..], "è");
    assert_eq!(next_boundary(line, before_e), end);
    assert_eq!(snap_boundary("è", 1), 0);
}

#[test]
fn previous_boundary_stops_at_the_start() {
    assert_eq!(previous_boundary("abc", 0), 0);
    assert_eq!(previous_boundary("abc", 1), 0);
    assert_eq!(previous_boundary("", 0), 0);
}

#[test]
fn next_boundary_stops_at_the_end() {
    assert_eq!(next_boundary("abc", 3), 3);
    assert_eq!(next_boundary("", 0), 0);
    assert_eq!(next_boundary("abc", 0), 1);
}

#[test]
fn steps_cross_whole_characters() {
    // "a€b": '€' takes three bytes, at 1..4.
    let line = "a€b";
    assert_eq!(next_boundary(line, 1), 4);
    assert_eq!(previous_boundary(line, 4), 1);
    assert_eq!(next_boundary(line, 4), 5);
    // a four-byte character
    let line = "x😀";
    assert_eq!(next_boundary(line, 1), 5);
    assert_eq!(previous_boundary(line, 5), 1);
}

#[test]
fn snap_clamps_and_moves_back_to_a_boundary() {
    assert_eq!(snap_boundary("abc", 10), 3);
    assert_eq!(snap_boundary("abc", 2), 2);
    assert_eq!(snap_boundary("a€b", 2), 1);
    assert_eq!(snap_boundary("a€b", 3), 1);
    assert_eq!(snap_boundary("a€b", 4), 4);
    assert_eq!(snap_boundary("", 7), 0);
}

#[test]
fn stepping_right_then_left_returns() {
    let line = "añ€😀z";
    let mut c = 0;
    while c < line.len() {
        let n = next_boundary(line, c);
        assert_eq!(previous_boundary(line, n), c);
        c = n;
    }
    assert_eq!(c, line.len());
}

#[test]
fn snapping_twice_is_snapping_once() {
    let line = "añ€😀z";
    for c in 0..=line.len() + 2 {
        let s = snap_boundary(line, c);
        assert!(line.is_char_boundary(s));
        assert_eq!(snap_boundary(line, s), s);
    }
}
