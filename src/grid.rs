//! The mathematical model of a position: a square grid of optional stones,
//! with the notions of the rules (chains, groups, liberties, captures,
//! suicide) stated over it.
use vstd::prelude::*;
use crate::color::StoneColor;

verus! {

/// Whether `p` lies on a board with `size` lines on each side.
pub open spec fn in_bounds(size: int, p: (i32, i32)) -> bool {
    0 <= p.0 < size && 0 <= p.1 < size
}

/// Whether `p` and `q` are orthogonal neighbours.
pub open spec fn adjacent(p: (i32, i32), q: (i32, i32)) -> bool {
    ||| (p.0 == q.0 && (q.1 == p.1 + 1 || q.1 == p.1 - 1))
    ||| (p.1 == q.1 && (q.0 == p.0 + 1 || q.0 == p.0 - 1))
}

/// The row-major position of point `p` in a grid of `size` columns.
pub open spec fn cell_index(size: int, p: (i32, i32)) -> int {
    p.0 * size + p.1
}

/// The neighbours of `p` that lie on the board, in the order +y, -y, +x, -x.
pub open spec fn neighbor_seq(size: int, p: (i32, i32)) -> Seq<(i32, i32)> {
    let (x, y) = (p.0 as int, p.1 as int);
    (if 0 <= x < size && 0 <= y + 1 < size { seq![(p.0, (y + 1) as i32)] } else { Seq::empty() })
        + (if 0 <= x < size && 0 <= y - 1 < size { seq![(p.0, (y - 1) as i32)] } else { Seq::empty() })
        + (if 0 <= x + 1 < size && 0 <= y < size { seq![((x + 1) as i32, p.1)] } else { Seq::empty() })
        + (if 0 <= x - 1 < size && 0 <= y < size { seq![((x - 1) as i32, p.1)] } else { Seq::empty() })
}

/// Number of stones of colour `c` among `cells`.
pub open spec fn count_color(cells: Seq<Option<StoneColor>>, c: StoneColor) -> nat
    decreases cells.len(),
{
    if cells.len() == 0 {
        0
    } else {
        count_color(cells.drop_last(), c) + if cells.last() == Some(c) {
            1nat
        } else {
            0nat
        }
    }
}

/// Number of occupied cells among `cells`.
pub open spec fn count_occupied(cells: Seq<Option<StoneColor>>) -> nat
    decreases cells.len(),
{
    if cells.len() == 0 {
        0
    } else {
        count_occupied(cells.drop_last()) + if cells.last() is Some {
            1nat
        } else {
            0nat
        }
    }
}

/// A position: `size` lines on each side, cells stored row by row
/// (the cell of `(x, y)` is at `x * size + y`).
pub struct Grid {
    pub size: int,
    pub cells: Seq<Option<StoneColor>>,
}

impl Grid {
    pub open spec fn well_shaped(self) -> bool {
        self.size > 0 && self.cells.len() == self.size * self.size
    }

    /// The stone at `p`; no stone outside the board.
    pub open spec fn at(self, p: (i32, i32)) -> Option<StoneColor> {
        if in_bounds(self.size, p) {
            self.cells[cell_index(self.size, p)]
        } else {
            None
        }
    }

    /// `p` is on the board and holds no stone.
    pub open spec fn can_place(self, p: (i32, i32)) -> bool {
        in_bounds(self.size, p) && self.at(p) is None
    }

    /// The position with a stone of colour `c` put at `p`.
    pub open spec fn place(self, p: (i32, i32), c: StoneColor) -> Grid {
        Grid { size: self.size, cells: self.cells.update(cell_index(self.size, p), Some(c)) }
    }

    /// `path` is a walk over orthogonal neighbours through stones of colour `c`.
    pub open spec fn is_chain(self, c: StoneColor, path: Seq<(i32, i32)>) -> bool {
        &&& path.len() > 0
        &&& forall|i: int| 0 <= i < path.len() ==> self.at(#[trigger] path[i]) == Some(c)
        &&& forall|i: int|
            0 <= i < path.len() - 1 ==> #[trigger] adjacent(path[i], path[i + 1])
    }

    /// `path` is a same-coloured walk from the stone at `a` to `b`.
    pub open spec fn chain_between(self, a: (i32, i32), b: (i32, i32), path: Seq<(i32, i32)>) -> bool {
        &&& self.at(a) is Some
        &&& self.is_chain(self.at(a)->0, path)
        &&& path[0] == a
        &&& path.last() == b
    }

    /// `b` can be reached from the stone at `a` through stones of its colour.
    pub open spec fn connected(self, a: (i32, i32), b: (i32, i32)) -> bool {
        exists|path: Seq<(i32, i32)>| #[trigger] self.chain_between(a, b, path)
    }

    /// The group of `a`: the stones connected to it; empty when `a` holds no stone.
    pub open spec fn group(self, a: (i32, i32)) -> Set<(i32, i32)> {
        Set::new(|q: (i32, i32)| self.connected(a, q))
    }

    /// The empty points of the board next to some stone of `g`.
    pub open spec fn liberties(self, g: Set<(i32, i32)>) -> Set<(i32, i32)> {
        Set::new(
            |q: (i32, i32)|
                in_bounds(self.size, q) && self.at(q) is None && exists|m: (i32, i32)|
                    #[trigger] g.contains(m) && adjacent(m, q),
        )
    }

    /// The group of the stone at `nb` is one of colour `c`'s opponent and has no liberty.
    pub open spec fn is_dead_opponent(self, nb: (i32, i32), c: StoneColor) -> bool {
        self.at(nb) == Some(c.spec_opposite()) && self.liberties(self.group(nb)).is_empty()
    }

    /// The stones that a stone of colour `c` at `p` takes: every opposing group
    /// next to `p` that has no liberty.
    pub open spec fn captured_by(self, p: (i32, i32), c: StoneColor) -> Set<(i32, i32)> {
        Set::new(
            |q: (i32, i32)|
                exists|nb: (i32, i32)|
                    #[trigger] adjacent(p, nb) && self.is_dead_opponent(nb, c) && self.group(
                        nb,
                    ).contains(q),
        )
    }

    /// Some opposing group next to `p` has no liberty.
    pub open spec fn captures_any(self, p: (i32, i32), c: StoneColor) -> bool {
        exists|nb: (i32, i32)| #[trigger] adjacent(p, nb) && self.is_dead_opponent(nb, c)
    }

    /// A stone of colour `c` put at `p` takes nothing and leaves its own
    /// group without a liberty.
    pub open spec fn is_suicide(self, p: (i32, i32), c: StoneColor) -> bool {
        let t = self.place(p, c);
        !t.captures_any(p, c) && t.liberties(t.group(p)).is_empty()
    }

    /// Every neighbour of `q` that holds a stone of colour `c` is in `s`.
    pub open spec fn closed_at(self, s: Seq<(i32, i32)>, q: (i32, i32), c: StoneColor) -> bool {
        forall|d: (i32, i32)| #[trigger] adjacent(q, d) && self.at(d) == Some(c) ==> s.contains(d)
    }
}

pub proof fn lemma_cell_index_bounds(size: int, p: (i32, i32))
    requires
        in_bounds(size, p),
    ensures
        0 <= cell_index(size, p) < size * size,
{
    assert(0 <= p.0 * size + p.1 < size * size) by (nonlinear_arith)
        requires
            0 <= p.0 < size,
            0 <= p.1 < size,
    ;
}

pub proof fn lemma_cell_index_injective(size: int, p: (i32, i32), q: (i32, i32))
    requires
        in_bounds(size, p),
        in_bounds(size, q),
        cell_index(size, p) == cell_index(size, q),
    ensures
        p == q,
{
    let (px, py, qx, qy) = (p.0 as int, p.1 as int, q.0 as int, q.1 as int);
    assert(px == qx) by (nonlinear_arith)
        requires
            0 <= py < size,
            0 <= qy < size,
            px * size + py == qx * size + qy,
    {
        if px < qx {
            assert(px * size + size <= qx * size);
        } else if px > qx {
            assert(qx * size + size <= px * size);
        }
    }
}

/// The list of neighbours holds each on-board orthogonal neighbour once,
/// and nothing else.
pub proof fn lemma_neighbor_seq(size: int, p: (i32, i32))
    requires
        0 < size <= 19,
    ensures
        neighbor_seq(size, p).no_duplicates(),
        neighbor_seq(size, p).len() <= 4,
        forall|d: (i32, i32)|
            #[trigger] neighbor_seq(size, p).contains(d) <==> in_bounds(size, d) && adjacent(p, d),
{
    let (x, y) = (p.0 as int, p.1 as int);
    let c1 = 0 <= x < size && 0 <= y + 1 < size;
    let c2 = 0 <= x < size && 0 <= y - 1 < size;
    let c3 = 0 <= x + 1 < size && 0 <= y < size;
    let c4 = 0 <= x - 1 < size && 0 <= y < size;
    let up = (p.0, (y + 1) as i32);
    let down = (p.0, (y - 1) as i32);
    let right = ((x + 1) as i32, p.1);
    let left = ((x - 1) as i32, p.1);
    let s1: Seq<(i32, i32)> = if c1 { seq![up] } else { Seq::empty() };
    let s2: Seq<(i32, i32)> = if c2 { seq![down] } else { Seq::empty() };
    let s3: Seq<(i32, i32)> = if c3 { seq![right] } else { Seq::empty() };
    let s4: Seq<(i32, i32)> = if c4 { seq![left] } else { Seq::empty() };
    let s = neighbor_seq(size, p);
    assert(s == s1 + s2 + s3 + s4);
    assert(c1 ==> up.1 == y + 1 && up.0 == x);
    assert(c2 ==> down.1 == y - 1 && down.0 == x);
    assert(c3 ==> right.0 == x + 1 && right.1 == y);
    assert(c4 ==> left.0 == x - 1 && left.1 == y);
    let n1 = s1.len() as int;
    let n2 = n1 + s2.len();
    let n3 = n2 + s3.len();
    assert forall|i: int| 0 <= i < s.len() implies {
        ||| (i < n1 && c1 && #[trigger] s[i] == up)
        ||| (n1 <= i < n2 && c2 && s[i] == down)
        ||| (n2 <= i < n3 && c3 && s[i] == right)
        ||| (n3 <= i && c4 && s[i] == left)
    } by {
        if i < n1 {
            assert(s[i] == s1[i]);
        } else if i < n2 {
            assert(s[i] == s2[i - n1]);
        } else if i < n3 {
            assert(s[i] == s3[i - n2]);
        } else {
            assert(s[i] == s4[i - n3]);
        }
    }
    assert forall|d: (i32, i32)| #[trigger] s.contains(d) <==> in_bounds(size, d) && adjacent(p, d) by {
        if in_bounds(size, d) && adjacent(p, d) {
            if d.0 == x && d.1 == y + 1 {
                assert(s[0] == d);
            } else if d.0 == x && d.1 == y - 1 {
                assert(s[n1] == d);
            } else if d.0 == x + 1 {
                assert(s[n2] == d);
            } else {
                assert(s[n3] == d);
            }
        }
        if s.contains(d) {
            let i = choose|i: int| 0 <= i < s.len() && s[i] == d;
        }
    }
}

/// A stone is connected to itself.
pub proof fn lemma_connected_self(g: Grid, a: (i32, i32))
    requires
        g.at(a) is Some,
    ensures
        g.connected(a, a),
{
    let path = seq![a];
    assert(g.chain_between(a, a, path));
}

/// Connected stones have the colour of the stone they start from.
pub proof fn lemma_connected_color(g: Grid, a: (i32, i32), b: (i32, i32))
    requires
        g.connected(a, b),
    ensures
        g.at(a) is Some,
        g.at(b) == g.at(a),
{
    let path = choose|path: Seq<(i32, i32)>| #[trigger] g.chain_between(a, b, path);
    assert(g.at(path[path.len() - 1]) == g.at(a));
}

/// A connection extends to a same-coloured neighbour of its end.
pub proof fn lemma_connected_step(g: Grid, a: (i32, i32), b: (i32, i32), d: (i32, i32))
    requires
        g.connected(a, b),
        adjacent(b, d),
        g.at(d) == g.at(a),
    ensures
        g.connected(a, d),
{
    let path = choose|path: Seq<(i32, i32)>| #[trigger] g.chain_between(a, b, path);
    let longer = path.push(d);
    assert forall|i: int| 0 <= i < longer.len() - 1 implies #[trigger] adjacent(
        longer[i],
        longer[i + 1],
    ) by {
        if i < path.len() - 1 {
            assert(adjacent(path[i], path[i + 1]));
        }
    }
    assert(g.chain_between(a, d, longer));
}

/// Connection runs both ways.
pub proof fn lemma_connected_symmetric(g: Grid, a: (i32, i32), b: (i32, i32))
    requires
        g.connected(a, b),
    ensures
        g.connected(b, a),
{
    let path = choose|path: Seq<(i32, i32)>| #[trigger] g.chain_between(a, b, path);
    lemma_connected_color(g, a, b);
    let back = path.reverse();
    let c = g.at(a)->0;
    assert forall|i: int| 0 <= i < back.len() implies g.at(#[trigger] back[i]) == Some(c) by {
        assert(back[i] == path[path.len() - 1 - i]);
    }
    assert forall|i: int| 0 <= i < back.len() - 1 implies #[trigger] adjacent(back[i], back[i + 1]) by {
        let j = path.len() - 2 - i;
        assert(adjacent(path[j], path[j + 1]));
    }
    assert(back[0] == b);
    assert(back.last() == a);
    assert(g.chain_between(b, a, back));
}

/// Connection chains: from `a` to `b` and from `b` to `d` gives from `a` to `d`.
pub proof fn lemma_connected_transitive(g: Grid, a: (i32, i32), b: (i32, i32), d: (i32, i32))
    requires
        g.connected(a, b),
        g.connected(b, d),
    ensures
        g.connected(a, d),
{
    let p1 = choose|path: Seq<(i32, i32)>| #[trigger] g.chain_between(a, b, path);
    let p2 = choose|path: Seq<(i32, i32)>| #[trigger] g.chain_between(b, d, path);
    lemma_connected_color(g, a, b);
    let c = g.at(a)->0;
    let joined = p1 + p2.drop_first();
    assert forall|i: int| 0 <= i < joined.len() implies g.at(#[trigger] joined[i]) == Some(c) by {
        if i < p1.len() {
            assert(joined[i] == p1[i]);
        } else {
            assert(joined[i] == p2[i - p1.len() + 1]);
        }
    }
    assert forall|i: int| 0 <= i < joined.len() - 1 implies #[trigger] adjacent(joined[i], joined[i + 1]) by {
        if i < p1.len() - 1 {
            assert(adjacent(p1[i], p1[i + 1]));
        } else if i == p1.len() - 1 {
            assert(joined[i] == b);
            assert(p2[0] == b);
            assert(p2.len() >= 2);
            let j = 0int;
            assert(adjacent(p2[j], p2[j + 1]));
            assert(joined[i + 1] == p2[1]);
        } else {
            let j = i - p1.len() + 1;
            assert(adjacent(p2[j], p2[j + 1]));
        }
    }
    if p2.len() == 1 {
        assert(joined =~= p1);
    }
    assert(g.chain_between(a, d, joined));
}

/// Connected stones have the same group.
pub proof fn lemma_same_group(g: Grid, a: (i32, i32), b: (i32, i32))
    requires
        g.connected(a, b),
    ensures
        g.group(a) == g.group(b),
{
    lemma_connected_symmetric(g, a, b);
    assert forall|q: (i32, i32)| g.connected(a, q) <==> g.connected(b, q) by {
        if g.connected(a, q) {
            lemma_connected_transitive(g, b, a, q);
        }
        if g.connected(b, q) {
            lemma_connected_transitive(g, a, b, q);
        }
    }
    assert(g.group(a) =~= g.group(b));
}

/// A set that holds all same-coloured neighbours of `q` still does once it grows.
pub proof fn lemma_closed_grows(g: Grid, s: Seq<(i32, i32)>, t: Seq<(i32, i32)>, q: (i32, i32), c: StoneColor)
    requires
        g.closed_at(s, q, c),
        forall|d: (i32, i32)| s.contains(d) ==> t.contains(d),
    ensures
        g.closed_at(t, q, c),
{
    assert forall|d: (i32, i32)| #[trigger] adjacent(q, d) && g.at(d) == Some(c) implies t.contains(d) by {
        assert(s.contains(d));
    }
}

/// Every stone of a chain lies in any set that holds its first stone and
/// holds all same-coloured neighbours of each of its members.
pub proof fn lemma_chain_in_closed(g: Grid, c: StoneColor, s: Seq<(i32, i32)>, path: Seq<(i32, i32)>)
    requires
        g.is_chain(c, path),
        s.contains(path[0]),
        forall|q: (i32, i32)| s.contains(q) ==> #[trigger] g.closed_at(s, q, c),
    ensures
        forall|i: int| 0 <= i < path.len() ==> s.contains(#[trigger] path[i]),
    decreases path.len(),
{
    if path.len() > 1 {
        let shorter = path.drop_last();
        assert(g.is_chain(c, shorter)) by {
            assert forall|i: int| 0 <= i < shorter.len() - 1 implies #[trigger] adjacent(
                shorter[i],
                shorter[i + 1],
            ) by {
                assert(adjacent(path[i], path[i + 1]));
            }
            assert forall|i: int| 0 <= i < shorter.len() implies g.at(#[trigger] shorter[i]) == Some(c) by {
                assert(g.at(path[i]) == Some(c));
            }
        }
        lemma_chain_in_closed(g, c, s, shorter);
        let k = path.len() - 2;
        assert(s.contains(shorter[k]));
        assert(adjacent(path[k], path[k + 1]));
        assert(g.at(path[k + 1]) == Some(c));
        assert(g.closed_at(s, path[k], c));
        assert forall|i: int| 0 <= i < path.len() implies s.contains(#[trigger] path[i]) by {
            if i < path.len() - 1 {
                assert(path[i] == shorter[i]);
            }
        }
    }
}

/// A duplicate-free list of points of the board has at most `size * size` entries.
pub proof fn lemma_points_bound(size: int, s: Seq<(i32, i32)>)
    requires
        size > 0,
        s.no_duplicates(),
        forall|i: int| 0 <= i < s.len() ==> in_bounds(size, #[trigger] s[i]),
    ensures
        s.len() <= size * size,
{
    let f = |p: (i32, i32)| cell_index(size, p);
    let pts = s.to_set();
    s.unique_seq_to_set();
    assert(vstd::relations::injective_on(f, pts)) by {
        assert forall|p: (i32, i32), q: (i32, i32)|
            pts.contains(p) && pts.contains(q) && #[trigger] f(p) == #[trigger] f(q) implies p == q by {
            lemma_cell_index_injective(size, p, q);
        }
    }
    let img = pts.map(f);
    vstd::set_lib::lemma_map_size(pts, img, f);
    vstd::set_lib::lemma_int_range(0, size * size);
    assert(img.subset_of(vstd::set_lib::set_int_range(0, size * size))) by {
        assert forall|i: int| img.contains(i) implies vstd::set_lib::set_int_range(
            0,
            size * size,
        ).contains(i) by {
            let p = choose|p: (i32, i32)| pts.contains(p) && f(p) == i;
            lemma_cell_index_bounds(size, p);
        }
    }
    vstd::set_lib::lemma_len_subset(img, vstd::set_lib::set_int_range(0, size * size));
}

} // verus!
