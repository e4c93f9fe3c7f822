//! Keyboard geometry: the fixed QWERTY layout, path synthesis from words,
//! Euclidean distances and tolerance-based path simplification.
//!
//! Key centres sit on a staggered grid in scaled units: 10 units between
//! horizontally adjacent keys, rows 10 units apart, the home row shifted
//! right by half a key and the bottom row by a key and a half.

use vstd::prelude::*;
use crate::types::Point;

verus! {

/// Points closer than this to the last kept point are dropped by
/// `simplify_path`: half a key width.
pub const SIMPLIFY_TOLERANCE: u64 = 5;

/// The key centre of a character on the fixed QWERTY layout, or `None`
/// for characters that have no key.
pub open spec fn key_point(c: char) -> Option<Point> {
    match c {
        'q' => Some(Point { x: 0, y: 0 }),
        'w' => Some(Point { x: 10, y: 0 }),
        'e' => Some(Point { x: 20, y: 0 }),
        'r' => Some(Point { x: 30, y: 0 }),
        't' => Some(Point { x: 40, y: 0 }),
        'y' => Some(Point { x: 50, y: 0 }),
        'u' => Some(Point { x: 60, y: 0 }),
        'i' => Some(Point { x: 70, y: 0 }),
        'o' => Some(Point { x: 80, y: 0 }),
        'p' => Some(Point { x: 90, y: 0 }),
        'a' => Some(Point { x: 5, y: 10 }),
        's' => Some(Point { x: 15, y: 10 }),
        'd' => Some(Point { x: 25, y: 10 }),
        'f' => Some(Point { x: 35, y: 10 }),
        'g' => Some(Point { x: 45, y: 10 }),
        'h' => Some(Point { x: 55, y: 10 }),
        'j' => Some(Point { x: 65, y: 10 }),
        'k' => Some(Point { x: 75, y: 10 }),
        'l' => Some(Point { x: 85, y: 10 }),
        'z' => Some(Point { x: 15, y: 20 }),
        'x' => Some(Point { x: 25, y: 20 }),
        'c' => Some(Point { x: 35, y: 20 }),
        'v' => Some(Point { x: 45, y: 20 }),
        'b' => Some(Point { x: 55, y: 20 }),
        'n' => Some(Point { x: 65, y: 20 }),
        'm' => Some(Point { x: 75, y: 20 }),
        _ => None,
    }
}

/// ASCII case folding, applied to the first and last character of a swipe
/// before edge-penalty lookups.
pub open spec fn lower_spec(c: char) -> char {
    match c {
        'A' => 'a', 'B' => 'b', 'C' => 'c', 'D' => 'd', 'E' => 'e',
        'F' => 'f', 'G' => 'g', 'H' => 'h', 'I' => 'i', 'J' => 'j',
        'K' => 'k', 'L' => 'l', 'M' => 'm', 'N' => 'n', 'O' => 'o',
        'P' => 'p', 'Q' => 'q', 'R' => 'r', 'S' => 's', 'T' => 't',
        'U' => 'u', 'V' => 'v', 'W' => 'w', 'X' => 'x', 'Y' => 'y',
        'Z' => 'z',
        _ => c,
    }
}

/// Largest `r` with `r * r <= n` (and `0` for negative `n`).
pub open spec fn floor_sqrt(n: int) -> int
    decreases n,
        when n >= 0
{
    if n <= 0 {
        0
    } else {
        let p = floor_sqrt(n - 1);
        if (p + 1) * (p + 1) <= n {
            p + 1
        } else {
            p
        }
    }
}

pub proof fn lemma_floor_sqrt_bounds(n: int)
    requires
        n >= 0,
    ensures
        0 <= floor_sqrt(n),
        floor_sqrt(n) * floor_sqrt(n) <= n,
        n < (floor_sqrt(n) + 1) * (floor_sqrt(n) + 1),
    decreases n,
{
    if n > 0 {
        lemma_floor_sqrt_bounds(n - 1);
        let p = floor_sqrt(n - 1);
        let f = floor_sqrt(n);
        assert(f == if (p + 1) * (p + 1) <= n { p + 1 } else { p });
        if (p + 1) * (p + 1) <= n {
            assert(f * f <= n && n < (f + 1) * (f + 1)) by (nonlinear_arith)
                requires
                    f == p + 1,
                    0 <= p,
                    (p + 1) * (p + 1) <= n,
                    n - 1 < (p + 1) * (p + 1),
            ;
        } else {
            assert(f * f <= n && n < (f + 1) * (f + 1)) by (nonlinear_arith)
                requires
                    f == p,
                    0 <= p,
                    p * p <= n - 1,
                    !((p + 1) * (p + 1) <= n),
            ;
        }
    }
}

/// The squared Euclidean distance between two key centres.
pub open spec fn sq_dist(p: Point, q: Point) -> int {
    (p.x - q.x) * (p.x - q.x) + (p.y - q.y) * (p.y - q.y)
}

/// The Euclidean distance between two key centres, rounded down to an
/// integer number of grid units.
pub open spec fn dist_spec(p: Point, q: Point) -> int {
    floor_sqrt(sq_dist(p, q))
}

/// Every distance between `u16` coordinates fits far below this bound.
pub proof fn lemma_dist_bound(p: Point, q: Point)
    ensures
        0 <= dist_spec(p, q) < 92682,
{
    let s = sq_dist(p, q);
    assert(0 <= s && s < 8589953124) by (nonlinear_arith)
        requires
            p.x < 65536 && q.x < 65536 && p.y < 65536 && q.y < 65536,
            s == (p.x - q.x) * (p.x - q.x) + (p.y - q.y) * (p.y - q.y),
    ;
    lemma_floor_sqrt_bounds(s);
    assert(floor_sqrt(s) < 92682) by (nonlinear_arith)
        requires
            0 <= floor_sqrt(s),
            floor_sqrt(s) * floor_sqrt(s) <= s,
            s < 8589953124,
    ;
}

proof fn lemma_sqrt_unique(n: int, r: int)
    requires
        0 <= n,
        0 <= r,
        r * r <= n,
        n < (r + 1) * (r + 1),
    ensures
        r == floor_sqrt(n),
{
    lemma_floor_sqrt_bounds(n);
    let f = floor_sqrt(n);
    assert(r == f) by (nonlinear_arith)
        requires
            0 <= r && 0 <= f,
            r * r <= n < (r + 1) * (r + 1),
            f * f <= n < (f + 1) * (f + 1),
    ;
}

/// The Euclidean distance between two points, in grid units rounded down.
pub fn euclidean_dist(p: &Point, q: &Point) -> (r: u64)
    ensures
        r as int == dist_spec(*p, *q),
{
    let dx: u64 = if p.x >= q.x { (p.x - q.x) as u64 } else { (q.x - p.x) as u64 };
    let dy: u64 = if p.y >= q.y { (p.y - q.y) as u64 } else { (q.y - p.y) as u64 };
    proof {
        assert(dx * dx + dy * dy < 8589953124 && dx * dx + dy * dy == sq_dist(*p, *q))
            by (nonlinear_arith)
            requires
                dx <= 65535 && dy <= 65535,
                dx == (if p.x >= q.x { p.x - q.x } else { q.x - p.x }),
                dy == (if p.y >= q.y { p.y - q.y } else { q.y - p.y }),
                sq_dist(*p, *q) == (p.x - q.x) * (p.x - q.x) + (p.y - q.y) * (p.y - q.y),
        ;
    }
    let sq: u64 = dx * dx + dy * dy;
    let mut r: u64 = 0;
    while (r + 1) * (r + 1) <= sq
        invariant
            r * r <= sq,
            sq == sq_dist(*p, *q),
            sq < 8589953124,
            r < 92682,
            (r + 1) * (r + 1) <= 8589953124,
        decreases sq - r,
    {
        r = r + 1;
        proof {
            assert(r < 92682 && (r + 1) * (r + 1) <= 8589953124 && r <= sq)
                by (nonlinear_arith)
                requires
                    1 <= r,
                    r * r <= sq,
                    sq < 8589953124,
            ;
        }
    }
    proof {
        lemma_sqrt_unique(sq as int, r as int);
    }
    r
}

/// The fixed mapping from lowercase characters to key centres.
///
/// The table is immutable for the engine's lifetime; `lookup` is a pure
/// query of `key_point`.
pub struct KeyboardLayout {
}

impl KeyboardLayout {
    /// Look a character's key centre up; characters without a key yield
    /// `None` rather than a default position.
    pub fn lookup(&self, c: char) -> (r: Option<Point>)
        ensures
            r == key_point(c),
    {
        match c {
            'q' => Some(Point { x: 0, y: 0 }),
            'w' => Some(Point { x: 10, y: 0 }),
            'e' => Some(Point { x: 20, y: 0 }),
            'r' => Some(Point { x: 30, y: 0 }),
            't' => Some(Point { x: 40, y: 0 }),
            'y' => Some(Point { x: 50, y: 0 }),
            'u' => Some(Point { x: 60, y: 0 }),
            'i' => Some(Point { x: 70, y: 0 }),
            'o' => Some(Point { x: 80, y: 0 }),
            'p' => Some(Point { x: 90, y: 0 }),
            'a' => Some(Point { x: 5, y: 10 }),
            's' => Some(Point { x: 15, y: 10 }),
            'd' => Some(Point { x: 25, y: 10 }),
            'f' => Some(Point { x: 35, y: 10 }),
            'g' => Some(Point { x: 45, y: 10 }),
            'h' => Some(Point { x: 55, y: 10 }),
            'j' => Some(Point { x: 65, y: 10 }),
            'k' => Some(Point { x: 75, y: 10 }),
            'l' => Some(Point { x: 85, y: 10 }),
            'z' => Some(Point { x: 15, y: 20 }),
            'x' => Some(Point { x: 25, y: 20 }),
            'c' => Some(Point { x: 35, y: 20 }),
            'v' => Some(Point { x: 45, y: 20 }),
            'b' => Some(Point { x: 55, y: 20 }),
            'n' => Some(Point { x: 65, y: 20 }),
            'm' => Some(Point { x: 75, y: 20 }),
            _ => None,
        }
    }
}

/// Build the standard QWERTY layout.
pub fn get_keyboard_layout() -> KeyboardLayout {
    KeyboardLayout {  }
}

/// ASCII case folding as an executable function.
pub fn to_lower(c: char) -> (r: char)
    ensures
        r == lower_spec(c),
{
    match c {
        'A' => 'a', 'B' => 'b', 'C' => 'c', 'D' => 'd', 'E' => 'e',
        'F' => 'f', 'G' => 'g', 'H' => 'h', 'I' => 'i', 'J' => 'j',
        'K' => 'k', 'L' => 'l', 'M' => 'm', 'N' => 'n', 'O' => 'o',
        'P' => 'p', 'Q' => 'q', 'R' => 'r', 'S' => 's', 'T' => 't',
        'U' => 'u', 'V' => 'v', 'W' => 'w', 'X' => 'x', 'Y' => 'y',
        'Z' => 'z',
        _ => c,
    }
}

/// The path a character sequence traces: one key centre per character,
/// in order, with characters absent from the layout skipped.
pub open spec fn path_of(s: Seq<char>) -> Seq<Point>
    decreases s.len(),
{
    if s.len() == 0 {
        Seq::empty()
    } else {
        let rest = path_of(s.drop_last());
        match key_point(s.last()) {
            Some(p) => rest.push(p),
            None => rest,
        }
    }
}

/// Build the ordered key-centre path of a word (or raw swipe string):
/// one point per character that has a key, in input order.  An input
/// whose characters all lack keys yields an empty path.
pub fn get_word_path(word: &str, layout: &KeyboardLayout) -> (r: Vec<Point>)
    ensures
        r@ == path_of(word@),
{
    let n = word.unicode_len();
    let mut r: Vec<Point> = Vec::new();
    let mut i: usize = 0;
    while i < n
        invariant
            i <= n,
            n == word@.len(),
            r@ == path_of(word@.take(i as int)),
        decreases n - i,
    {
        let c = word.get_char(i);
        match layout.lookup(c) {
            Some(p) => {
                r.push(p);
            },
            None => {},
        }
        proof {
            assert(word@.take(i + 1 as int).drop_last() =~= word@.take(i as int));
            assert(word@.take(i + 1 as int).last() == word@[i as int]);
        }
        i = i + 1;
    }
    proof {
        assert(word@.take(n as int) =~= word@);
    }
    r
}

/// The interior points `simplify_path` keeps between the anchors: a point
/// is kept when it lies at least `SIMPLIFY_TOLERANCE` from the last kept
/// point; `anchor` is that last kept point.  Indices `i .. len-1`.
pub open spec fn simplify_mid(s: Seq<Point>, i: int, anchor: Point) -> Seq<Point>
    decreases s.len() - i,
{
    if i < 1 || i >= s.len() - 1 {
        Seq::empty()
    } else if dist_spec(anchor, s[i]) >= SIMPLIFY_TOLERANCE {
        seq![s[i]] + simplify_mid(s, i + 1, s[i])
    } else {
        simplify_mid(s, i + 1, anchor)
    }
}

/// What `simplify_path` returns: the input itself when it has no interior
/// to reduce, otherwise the first point, the kept interior points, and
/// the last point.
pub open spec fn simplify_spec(s: Seq<Point>) -> Seq<Point> {
    if s.len() <= 1 {
        s
    } else {
        seq![s[0]] + simplify_mid(s, 1, s[0]) + seq![s.last()]
    }
}

/// Reduce a raw path to its geometrically essential points: consecutive
/// points closer than half a key to the last kept point are dropped, and
/// the first and last point are always preserved as anchors.  Empty and
/// single-point paths are returned unchanged.
pub fn simplify_path(path: &Vec<Point>) -> (r: Vec<Point>)
    ensures
        r@ == simplify_spec(path@),
{
    let n = path.len();
    if n <= 1 {
        let mut r: Vec<Point> = Vec::new();
        if n == 1 {
            r.push(path[0]);
        }
        proof {
            assert(r@ =~= simplify_spec(path@));
        }
        return r;
    }
    let mut r: Vec<Point> = Vec::new();
    r.push(path[0]);
    let mut anchor: Point = path[0];
    let mut i: usize = 1;
    while i < n - 1
        invariant
            1 <= i <= n - 1,
            n == path@.len(),
            2 <= n,
            seq![path@[0]] + simplify_mid(path@, 1, path@[0])
                == r@ + simplify_mid(path@, i as int, anchor),
        decreases n - i,
    {
        let d = euclidean_dist(&anchor, &path[i]);
        if d >= SIMPLIFY_TOLERANCE {
            r.push(path[i]);
            anchor = path[i];
        }
        i = i + 1;
    }
    r.push(path[n - 1]);
    proof {
        assert(r@ =~= simplify_spec(path@));
    }
    r
}

/// Path simplification keeps the anchors: the result of simplifying a
/// non-empty path is non-empty, starts at the input's first point and
/// ends at its last point.
pub proof fn lemma_simplify_preserves_anchors(s: Seq<Point>)
    requires
        s.len() > 0,
    ensures
        simplify_spec(s).len() > 0,
        simplify_spec(s)[0] == s[0],
        simplify_spec(s).last() == s.last(),
{
}

} // verus!
