//! The plan model: walls between two points, and the doors and windows cut
//! into them. Every number is kept as the decimal numeral that the script
//! wrote, in millimetres.

use vstd::prelude::*;
use crate::numeral::{numerator, pow10, scale, value_lt, Numeral};

verus! {

/// A point of the plan.
#[derive(Debug, Clone)]
pub struct Point {
    pub x: Numeral,
    pub y: Numeral,
}

/// A straight wall from `start` to `end`.
#[derive(Debug, Clone)]
pub struct Wall {
    pub id: String,
    pub start: Point,
    pub end: Point,
    pub thickness: Numeral,
}

/// What an opening is.
#[derive(Debug, Clone)]
pub enum OpeningKind {
    Door,
    Window { sill: Numeral },
}

/// A door or window cut into the wall named by `wall_id`, `offset` from
/// its start and `width` wide.
#[derive(Debug, Clone)]
pub struct Opening {
    pub id: String,
    pub wall_id: String,
    pub offset: Numeral,
    pub width: Numeral,
    pub kind: OpeningKind,
}

/// A plan: its name, its walls and its openings, in the order written.
#[derive(Debug, Clone)]
pub struct Project {
    pub name: String,
    pub walls: Vec<Wall>,
    pub openings: Vec<Opening>,
}

/// A point as the numerals of its coordinates.
pub struct PointModel {
    pub x: Seq<char>,
    pub y: Seq<char>,
}

/// A wall as text.
pub struct WallModel {
    pub id: Seq<char>,
    pub start: PointModel,
    pub end: PointModel,
    pub thickness: Seq<char>,
}

/// What an opening is, as text.
pub enum OpeningKindModel {
    Door,
    Window { sill: Seq<char> },
}

/// An opening as text.
pub struct OpeningModel {
    pub id: Seq<char>,
    pub wall_id: Seq<char>,
    pub offset: Seq<char>,
    pub width: Seq<char>,
    pub kind: OpeningKindModel,
}

/// A plan as text.
pub struct ProjectModel {
    pub name: Seq<char>,
    pub walls: Seq<WallModel>,
    pub openings: Seq<OpeningModel>,
}

impl View for Point {
    type V = PointModel;

    open spec fn view(&self) -> PointModel {
        PointModel { x: self.x@, y: self.y@ }
    }
}

impl View for Wall {
    type V = WallModel;

    open spec fn view(&self) -> WallModel {
        WallModel {
            id: self.id@,
            start: self.start@,
            end: self.end@,
            thickness: self.thickness@,
        }
    }
}

impl View for OpeningKind {
    type V = OpeningKindModel;

    open spec fn view(&self) -> OpeningKindModel {
        match self {
            OpeningKind::Door => OpeningKindModel::Door,
            OpeningKind::Window { sill } => OpeningKindModel::Window { sill: sill@ },
        }
    }
}

impl View for Opening {
    type V = OpeningModel;

    open spec fn view(&self) -> OpeningModel {
        OpeningModel {
            id: self.id@,
            wall_id: self.wall_id@,
            offset: self.offset@,
            width: self.width@,
            kind: self.kind@,
        }
    }
}

impl View for Project {
    type V = ProjectModel;

    open spec fn view(&self) -> ProjectModel {
        ProjectModel {
            name: self.name@,
            walls: self.walls@.map_values(|w: Wall| w@),
            openings: self.openings@.map_values(|o: Opening| o@),
        }
    }
}

/// The end points of the walls, in order: each wall's start, then its end.
pub open spec fn wall_points(walls: Seq<WallModel>) -> Seq<PointModel> {
    Seq::new(
        (2 * walls.len()) as nat,
        |i: int|
            if i % 2 == 0 {
                walls[i / 2].start
            } else {
                walls[i / 2].end
            },
    )
}

/// The lesser of a running minimum `m` and `v`; `m` on a tie.
pub open spec fn lower(m: Seq<char>, v: Seq<char>) -> Seq<char> {
    if value_lt(v, m) {
        v
    } else {
        m
    }
}

/// The greater of a running maximum `m` and `v`; `m` on a tie.
pub open spec fn upper(m: Seq<char>, v: Seq<char>) -> Seq<char> {
    if value_lt(m, v) {
        v
    } else {
        m
    }
}

/// The least of the first `n` numerals of `xs`, the earliest among equals.
pub open spec fn least(xs: Seq<Seq<char>>, n: int) -> Seq<char>
    decreases n,
{
    if n <= 1 {
        xs[0]
    } else {
        lower(least(xs, n - 1), xs[n - 1])
    }
}

/// The greatest of the first `n` numerals of `xs`, the earliest among
/// equals.
pub open spec fn greatest(xs: Seq<Seq<char>>, n: int) -> Seq<char>
    decreases n,
{
    if n <= 1 {
        xs[0]
    } else {
        upper(greatest(xs, n - 1), xs[n - 1])
    }
}

/// The x coordinates of some points.
pub open spec fn xs_of(points: Seq<PointModel>) -> Seq<Seq<char>> {
    points.map_values(|p: PointModel| p.x)
}

/// The y coordinates of some points.
pub open spec fn ys_of(points: Seq<PointModel>) -> Seq<Seq<char>> {
    points.map_values(|p: PointModel| p.y)
}

/// The corners of the smallest axis-aligned box around every wall's end
/// points, or nothing for a plan without walls.
pub open spec fn bounds_model(p: ProjectModel) -> Option<(PointModel, PointModel)> {
    let points = wall_points(p.walls);
    let n = points.len() as int;
    if n == 0 {
        None
    } else {
        Some(
            (
                PointModel { x: least(xs_of(points), n), y: least(ys_of(points), n) },
                PointModel { x: greatest(xs_of(points), n), y: greatest(ys_of(points), n) },
            ),
        )
    }
}

impl Point {
    /// A point equal to this one.
    pub fn duplicate(&self) -> (r: Point)
        ensures
            r@ == self@,
    {
        Point { x: self.x.duplicate(), y: self.y.duplicate() }
    }
}

impl Project {
    /// The corners of the smallest box around the plan's walls: the least
    /// and the greatest coordinates of their end points.
    pub fn bounds(&self) -> (r: Option<(Point, Point)>)
        ensures
            (match r {
                None => bounds_model(self@) is None,
                Some(b) => bounds_model(self@) == Some((b.0@, b.1@)),
            }),
    {
        let ghost walls = self@.walls;
        let ghost points = wall_points(walls);
        let ghost xs = xs_of(points);
        let ghost ys = ys_of(points);
        if self.walls.len() == 0 {
            return None;
        }
        let first = &self.walls[0].start;
        let mut lo_x = first.x.duplicate();
        let mut lo_y = first.y.duplicate();
        let mut hi_x = first.x.duplicate();
        let mut hi_y = first.y.duplicate();
        let n: usize = self.walls.len();
        let mut i: usize = 0;
        proof {
            assert(points[0] == walls[0].start);
        }
        while i < n
            invariant
                n == self.walls.len(),
                walls == self@.walls,
                points == wall_points(walls),
                xs == xs_of(points),
                ys == ys_of(points),
                i < n,
                lo_x@ == least(xs, 2 * i + 1),
                lo_y@ == least(ys, 2 * i + 1),
                hi_x@ == greatest(xs, 2 * i + 1),
                hi_y@ == greatest(ys, 2 * i + 1),
            decreases n - i,
        {
            let end = &self.walls[i].end;
            let ghost k1 = 2 * i + 2;
            proof {
                assert(points[2 * i + 1] == walls[i as int].end);
                assert(xs[2 * i + 1] == end.x@ && ys[2 * i + 1] == end.y@);
                assert(least(xs, k1) == lower(least(xs, 2 * i + 1), xs[2 * i + 1]));
                assert(least(ys, k1) == lower(least(ys, 2 * i + 1), ys[2 * i + 1]));
                assert(greatest(xs, k1) == upper(greatest(xs, 2 * i + 1), xs[2 * i + 1]));
                assert(greatest(ys, k1) == upper(greatest(ys, 2 * i + 1), ys[2 * i + 1]));
            }
            if end.x.less_than(&lo_x) {
                lo_x = end.x.duplicate();
            }
            if end.y.less_than(&lo_y) {
                lo_y = end.y.duplicate();
            }
            if hi_x.less_than(&end.x) {
                hi_x = end.x.duplicate();
            }
            if hi_y.less_than(&end.y) {
                hi_y = end.y.duplicate();
            }
            if i + 1 == n {
                return Some((Point { x: lo_x, y: lo_y }, Point { x: hi_x, y: hi_y }));
            }
            let start = &self.walls[i + 1].start;
            let ghost k2 = 2 * i + 3;
            proof {
                assert(points[2 * i + 2] == walls[i + 1].start);
                assert(xs[2 * i + 2] == start.x@ && ys[2 * i + 2] == start.y@);
                assert(least(xs, k2) == lower(least(xs, k1), xs[2 * i + 2]));
                assert(least(ys, k2) == lower(least(ys, k1), ys[2 * i + 2]));
                assert(greatest(xs, k2) == upper(greatest(xs, k1), xs[2 * i + 2]));
                assert(greatest(ys, k2) == upper(greatest(ys, k1), ys[2 * i + 2]));
            }
            if start.x.less_than(&lo_x) {
                lo_x = start.x.duplicate();
            }
            if start.y.less_than(&lo_y) {
                lo_y = start.y.duplicate();
            }
            if hi_x.less_than(&start.x) {
                hi_x = start.x.duplicate();
            }
            if hi_y.less_than(&start.y) {
                hi_y = start.y.duplicate();
            }
            i = i + 1;
        }
        None
    }
}

/// The value of numeral `a` is at most that of numeral `b`.
pub open spec fn value_le(a: Seq<char>, b: Seq<char>) -> bool {
    !value_lt(b, a)
}

/// Numerals are ordered by value: a numeral is at most itself, less means at
/// most, and at-most is transitive.
pub proof fn lemma_value_order(a: Seq<char>, b: Seq<char>, c: Seq<char>)
    ensures
        value_le(a, a),
        value_lt(a, b) ==> value_le(a, b),
        value_le(a, b) && value_le(b, c) ==> value_le(a, c),
{
    crate::numeral::lemma_pow10(scale(a), 0);
    crate::numeral::lemma_pow10(scale(b), 0);
    crate::numeral::lemma_pow10(scale(c), 0);
    let na = numerator(a);
    let nb = numerator(b);
    let nc = numerator(c);
    let pa = pow10(scale(a)) as int;
    let pb = pow10(scale(b)) as int;
    let pc = pow10(scale(c)) as int;
    if value_le(a, b) && value_le(b, c) {
        assert(na * pc <= nc * pa) by (nonlinear_arith)
            requires
                na * pb <= nb * pa,
                nb * pc <= nc * pb,
                pa >= 1,
                pb >= 1,
                pc >= 1,
        {
            assert((na * pb) * pc <= (nb * pa) * pc);
            assert((nb * pc) * pa <= (nc * pb) * pa);
            assert(pb * (na * pc) <= pb * (nc * pa));
        }
    }
}

/// The running minimum of the first `n` numerals is at most each of them
/// and is one of them.
proof fn lemma_least(xs: Seq<Seq<char>>, n: int)
    requires
        1 <= n <= xs.len(),
    ensures
        forall|i: int| 0 <= i < n ==> value_le(least(xs, n), #[trigger] xs[i]),
        exists|j: int| 0 <= j < n && least(xs, n) == xs[j],
    decreases n,
{
    if n == 1 {
        lemma_value_order(xs[0], xs[0], xs[0]);
        assert(least(xs, n) == xs[0]);
    } else {
        lemma_least(xs, n - 1);
        let m = least(xs, n - 1);
        let v = xs[n - 1];
        assert forall|i: int| 0 <= i < n implies value_le(least(xs, n), #[trigger] xs[i]) by {
            lemma_value_order(v, m, xs[i]);
            lemma_value_order(m, v, v);
            lemma_value_order(v, v, v);
        }
        if value_lt(v, m) {
            assert(least(xs, n) == xs[n - 1]);
        } else {
            let j = choose|j: int| 0 <= j < n - 1 && m == xs[j];
            assert(least(xs, n) == xs[j]);
        }
    }
}

/// The running maximum of the first `n` numerals is at least each of them
/// and is one of them.
proof fn lemma_greatest(xs: Seq<Seq<char>>, n: int)
    requires
        1 <= n <= xs.len(),
    ensures
        forall|i: int| 0 <= i < n ==> value_le(#[trigger] xs[i], greatest(xs, n)),
        exists|j: int| 0 <= j < n && greatest(xs, n) == xs[j],
    decreases n,
{
    if n == 1 {
        lemma_value_order(xs[0], xs[0], xs[0]);
        assert(greatest(xs, n) == xs[0]);
    } else {
        lemma_greatest(xs, n - 1);
        let m = greatest(xs, n - 1);
        let v = xs[n - 1];
        assert forall|i: int| 0 <= i < n implies value_le(#[trigger] xs[i], greatest(xs, n)) by {
            lemma_value_order(xs[i], m, v);
            lemma_value_order(m, v, v);
            lemma_value_order(v, v, v);
        }
        if value_lt(m, v) {
            assert(greatest(xs, n) == xs[n - 1]);
        } else {
            let j = choose|j: int| 0 <= j < n - 1 && m == xs[j];
            assert(greatest(xs, n) == xs[j]);
        }
    }
}

/// A plan has bounds exactly when it has walls; then every wall end point
/// lies inside them, and each bound is the coordinate of some end point.
pub proof fn law_bounds_enclose_walls(p: ProjectModel)
    ensures
        bounds_model(p) is None <==> p.walls.len() == 0,
        bounds_model(p) matches Some(b) ==> {
            let points = wall_points(p.walls);
            &&& forall|i: int|
                0 <= i < points.len() ==> value_le(b.0.x, #[trigger] points[i].x) && value_le(
                    b.0.y,
                    points[i].y,
                ) && value_le(points[i].x, b.1.x) && value_le(points[i].y, b.1.y)
            &&& exists|i: int| 0 <= i < points.len() && b.0.x == #[trigger] points[i].x
            &&& exists|i: int| 0 <= i < points.len() && b.0.y == #[trigger] points[i].y
            &&& exists|i: int| 0 <= i < points.len() && b.1.x == #[trigger] points[i].x
            &&& exists|i: int| 0 <= i < points.len() && b.1.y == #[trigger] points[i].y
        },
{
    let points = wall_points(p.walls);
    let n = points.len() as int;
    if n > 0 {
        let xs = xs_of(points);
        let ys = ys_of(points);
        lemma_least(xs, n);
        lemma_least(ys, n);
        lemma_greatest(xs, n);
        lemma_greatest(ys, n);
        assert forall|i: int| 0 <= i < n implies value_le(
            least(xs, n),
            #[trigger] points[i].x,
        ) && value_le(least(ys, n), points[i].y) && value_le(points[i].x, greatest(xs, n))
            && value_le(points[i].y, greatest(ys, n)) by {
            assert(xs[i] == points[i].x);
            assert(ys[i] == points[i].y);
        }
        let j1 = choose|j: int| 0 <= j < n && least(xs, n) == xs[j];
        assert(xs[j1] == points[j1].x);
        let j2 = choose|j: int| 0 <= j < n && least(ys, n) == ys[j];
        assert(ys[j2] == points[j2].y);
        let j3 = choose|j: int| 0 <= j < n && greatest(xs, n) == xs[j];
        assert(xs[j3] == points[j3].x);
        let j4 = choose|j: int| 0 <= j < n && greatest(ys, n) == ys[j];
        assert(ys[j4] == points[j4].y);
    }
}

} // verus!
