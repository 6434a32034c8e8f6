use baumaus::prism_faces_text;

#[test]
fn prism_faces_are_written_as_obj_face_lines() {
    let mut v = 1;
    let mut n = 1;
    let text = prism_faces_text(&mut v, &mut n);
    assert_eq!(
        text,
        "f 1//1 2//1 3//1 4//1\n\
         f 5//2 6//2 7//2 8//2\n\
         f 1//3 2//3 6//3 5//3\n\
         f 2//4 3//4 7//4 6//4\n\
         f 3//5 4//5 8//5 7//5\n\
         f 4//6 1//6 5//6 8//6\n"
    );
    assert_eq!((v, n), (9, 7));
    assert_eq!(text.matches("f ").count(), 6);
}

#[test]
fn later_prisms_number_from_the_counters() {
    let mut v = 9;
    let mut n = 7;
    let first = prism_faces_text(&mut v, &mut n);
    assert!(first.starts_with("f 9//7 10//7 11//7 12//7\n"));
    let second = prism_faces_text(&mut v, &mut n);
    assert!(second.starts_with("f 17//13 18//13 19//13 20//13\n"));
    assert!(second.ends_with("f 20//18 17//18 21//18 24//18\n"));
    assert_eq!((v, n), (25, 19));
}

#[test]
fn every_edge_of_a_prism_is_shared_by_two_faces() {
    let mut v = 1;
    let mut n = 1;
    let text = prism_faces_text(&mut v, &mut n);
    let faces: Vec<Vec<usize>> = text
        .lines()
        .map(|l| {
            l[2..]
                .split(' ')
                .map(|c| c.split("//").next().unwrap().parse().unwrap())
                .collect()
        })
        .collect();
    for f in &faces {
        for k in 0..4 {
            let (a, b) = (f[k], f[(k + 1) % 4]);
            let uses = faces
                .iter()
                .filter(|g| (0..4).any(|j| {
                    let (c, d) = (g[j], g[(j + 1) % 4]);
                    (c, d) == (a, b) || (c, d) == (b, a)
                }))
                .count();
            assert_eq!(uses, 2);
        }
    }
}
