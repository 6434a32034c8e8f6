//! The faces of the OBJ preview.
//!
//! Every wall piece of the preview is a prism: four vertices at its foot,
//! four at its top (in the same order), and six normals. Its six faces are
//! written as OBJ `f` lines of `vertex//normal` corners, numbered from the
//! vertices and normals that the file holds before the prism.

use vstd::prelude::*;
use crate::text::{chars_of, decimal, push_decimal, string_of};

verus! {

/// The corners of a prism's faces, as (vertex, normal) numbers, for a prism
/// whose first vertex is `v` and whose first normal is `n`: the foot, the
/// top, then the four sides from the first vertex round.
pub open spec fn prism_faces(v: int, n: int) -> Seq<Seq<(int, int)>> {
    seq![
        seq![(v, n), (v + 1, n), (v + 2, n), (v + 3, n)],
        seq![(v + 4, n + 1), (v + 5, n + 1), (v + 6, n + 1), (v + 7, n + 1)],
        seq![(v, n + 2), (v + 1, n + 2), (v + 5, n + 2), (v + 4, n + 2)],
        seq![(v + 1, n + 3), (v + 2, n + 3), (v + 6, n + 3), (v + 5, n + 3)],
        seq![(v + 2, n + 4), (v + 3, n + 4), (v + 7, n + 4), (v + 6, n + 4)],
        seq![(v + 3, n + 5), (v, n + 5), (v + 4, n + 5), (v + 7, n + 5)],
    ]
}

/// A corner as OBJ writes it: `vertex//normal`.
pub open spec fn corner_text(c: (int, int)) -> Seq<char> {
    decimal(c.0 as nat) + "//"@ + decimal(c.1 as nat)
}

/// A face line: `f` and its four corners, separated by spaces.
pub open spec fn face_text(f: Seq<(int, int)>) -> Seq<char> {
    "f "@ + corner_text(f[0]) + " "@ + corner_text(f[1]) + " "@ + corner_text(f[2]) + " "@
        + corner_text(f[3]) + "\n"@
}

/// The face lines of the first `k` faces.
pub open spec fn faces_text(fs: Seq<Seq<(int, int)>>, k: int) -> Seq<char>
    decreases k,
{
    if k <= 0 {
        seq![]
    } else {
        faces_text(fs, k - 1) + face_text(fs[k - 1])
    }
}

/// The edge of face `f` from its corner `k` to the next one, by vertex.
pub open spec fn edge(f: Seq<(int, int)>, k: int) -> (int, int) {
    (f[k].0, f[(k + 1) % 4].0)
}

/// Two edges join the same vertices.
pub open spec fn same_edge(a: (int, int), b: (int, int)) -> bool {
    a == b || (a.0 == b.1 && a.1 == b.0)
}

/// Face `f` has the edge `e`.
pub open spec fn has_edge(f: Seq<(int, int)>, e: (int, int)) -> bool {
    same_edge(edge(f, 0), e) || same_edge(edge(f, 1), e) || same_edge(edge(f, 2), e)
        || same_edge(edge(f, 3), e)
}

/// How many of the first `k` faces have the edge `e`.
pub open spec fn edge_uses(fs: Seq<Seq<(int, int)>>, e: (int, int), k: int) -> int
    decreases k,
{
    if k <= 0 {
        0
    } else {
        edge_uses(fs, e, k - 1) + if has_edge(fs[k - 1], e) {
            1int
        } else {
            0int
        }
    }
}

fn push_str_chars(out: &mut Vec<char>, s: &str)
    ensures
        final(out)@ == old(out)@ + s@,
{
    let chars = chars_of(s);
    let mut i: usize = 0;
    let ghost start = out@;
    while i < chars.len()
        invariant
            i <= chars.len(),
            out@ == start + chars@.take(i as int),
        decreases chars.len() - i,
    {
        out.push(chars[i]);
        proof {
            assert(chars@.take(i + 1) == chars@.take(i as int).push(chars@[i as int]));
        }
        i = i + 1;
    }
    proof {
        assert(chars@.take(i as int) == chars@);
    }
}

fn push_face(out: &mut Vec<char>, c: [(usize, usize); 4])
    ensures
        final(out)@ == old(out)@ + face_text(
            seq![
                (c[0].0 as int, c[0].1 as int),
                (c[1].0 as int, c[1].1 as int),
                (c[2].0 as int, c[2].1 as int),
                (c[3].0 as int, c[3].1 as int),
            ],
        ),
{
    let ghost start = out@;
    push_str_chars(out, "f ");
    let mut k: usize = 0;
    while k < 4
        invariant
            k <= 4,
            0 < k ==> out@ == start + "f "@ + corner_text((c[0].0 as int, c[0].1 as int))
                + if k >= 2 {
                " "@ + corner_text((c[1].0 as int, c[1].1 as int))
            } else {
                seq![]
            } + if k >= 3 {
                " "@ + corner_text((c[2].0 as int, c[2].1 as int))
            } else {
                seq![]
            } + if k >= 4 {
                " "@ + corner_text((c[3].0 as int, c[3].1 as int))
            } else {
                seq![]
            },
            k == 0 ==> out@ == start + "f "@,
        decreases 4 - k,
    {
        let ghost before = out@;
        if k > 0 {
            push_str_chars(out, " ");
        }
        let (v, n) = c[k];
        push_decimal(out, v);
        push_str_chars(out, "//");
        push_decimal(out, n);
        proof {
            assert(out@ == before + (if k > 0 { " "@ } else { seq![] }) + corner_text(
                (v as int, n as int),
            ));
        }
        k = k + 1;
    }
    push_str_chars(out, "\n");
}

/// Writes face `k` of the prism whose first vertex is `v` and whose first
/// normal is `n`.
fn push_prism_face(out: &mut Vec<char>, v: usize, n: usize, k: usize)
    requires
        v + 8 <= usize::MAX,
        n + 6 <= usize::MAX,
        k < 6,
    ensures
        final(out)@ == old(out)@ + face_text(prism_faces(v as int, n as int)[k as int]),
{
    let ghost f = prism_faces(v as int, n as int)[k as int];
    let c: [(usize, usize); 4] = if k == 0 {
        [(v, n), (v + 1, n), (v + 2, n), (v + 3, n)]
    } else if k == 1 {
        [(v + 4, n + 1), (v + 5, n + 1), (v + 6, n + 1), (v + 7, n + 1)]
    } else if k == 2 {
        [(v, n + 2), (v + 1, n + 2), (v + 5, n + 2), (v + 4, n + 2)]
    } else if k == 3 {
        [(v + 1, n + 3), (v + 2, n + 3), (v + 6, n + 3), (v + 5, n + 3)]
    } else if k == 4 {
        [(v + 2, n + 4), (v + 3, n + 4), (v + 7, n + 4), (v + 6, n + 4)]
    } else {
        [(v + 3, n + 5), (v, n + 5), (v + 4, n + 5), (v + 7, n + 5)]
    };
    proof {
        assert(seq![
            (c[0].0 as int, c[0].1 as int),
            (c[1].0 as int, c[1].1 as int),
            (c[2].0 as int, c[2].1 as int),
            (c[3].0 as int, c[3].1 as int),
        ] =~= f);
    }
    push_face(out, c);
}

/// The face lines of the next prism, whose vertices and normals were
/// written from `next_vertex` and `next_normal` on; both move past the
/// prism's eight vertices and six normals.
pub fn prism_faces_text(next_vertex: &mut usize, next_normal: &mut usize) -> (r: String)
    requires
        *old(next_vertex) + 8 <= usize::MAX,
        *old(next_normal) + 6 <= usize::MAX,
    ensures
        r@ == faces_text(prism_faces(*old(next_vertex) as int, *old(next_normal) as int), 6),
        *final(next_vertex) == *old(next_vertex) + 8,
        *final(next_normal) == *old(next_normal) + 6,
{
    let v = *next_vertex;
    let n = *next_normal;
    let ghost fs = prism_faces(v as int, n as int);
    let mut out: Vec<char> = Vec::new();
    let mut k: usize = 0;
    while k < 6
        invariant
            v + 8 <= usize::MAX,
            n + 6 <= usize::MAX,
            fs == prism_faces(v as int, n as int),
            k <= 6,
            out@ == faces_text(fs, k as int),
        decreases 6 - k,
    {
        push_prism_face(&mut out, v, n, k);
        k = k + 1;
    }
    *next_vertex = v + 8;
    *next_normal = n + 6;
    string_of(out.as_slice())
}

/// Each face of a prism uses the prism's own vertices, four of them, and a
/// normal of its own, the `i`-th of the prism's six.
pub proof fn law_prism_faces_use_their_prism(v: int, n: int)
    ensures
        prism_faces(v, n).len() == 6,
        forall|i: int, k: int|
            0 <= i < 6 && 0 <= k < 4 ==> {
                let c = #[trigger] prism_faces(v, n)[i][k];
                &&& prism_faces(v, n)[i].len() == 4
                &&& v <= c.0 < v + 8
                &&& c.1 == n + i
            },
{
    let fs = prism_faces(v, n);
    assert forall|i: int, k: int| 0 <= i < 6 && 0 <= k < 4 implies {
        let c = #[trigger] fs[i][k];
        &&& fs[i].len() == 4
        &&& v <= c.0 < v + 8
        &&& c.1 == n + i
    } by {
        if i == 0 {
        } else if i == 1 {
        } else if i == 2 {
        } else if i == 3 {
        } else if i == 4 {
        } else {
        }
    }
}

/// A prism is closed: every edge of one of its faces is an edge of exactly
/// one other face.
pub proof fn law_prism_is_closed(v: int, n: int)
    ensures
        forall|i: int, k: int|
            0 <= i < 6 && 0 <= k < 4 ==> edge_uses(
                prism_faces(v, n),
                #[trigger] edge(prism_faces(v, n)[i], k),
                6,
            ) == 2,
{
    let fs = prism_faces(v, n);
    assert forall|i: int, k: int| 0 <= i < 6 && 0 <= k < 4 implies edge_uses(
        fs,
        #[trigger] edge(fs[i], k),
        6,
    ) == 2 by {
        reveal_with_fuel(edge_uses, 7);
        if i == 0 {
        } else if i == 1 {
        } else if i == 2 {
        } else if i == 3 {
        } else if i == 4 {
        } else {
        }
    }
}

} // verus!
