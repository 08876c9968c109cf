//! The rules engine: legality, groups, liberties, captures, suicide and score.
use vstd::prelude::*;
use crate::board::BoardState;
use crate::color::StoneColor;
use crate::config::GoBoardConfig;
use crate::board::{cell_offset, lemma_count_occupied_update};
use crate::grid::{
    adjacent, cell_index, count_color, count_occupied, in_bounds, lemma_cell_index_bounds,
    lemma_cell_index_injective, lemma_chain_in_closed, lemma_closed_grows, lemma_connected_color,
    lemma_connected_self, lemma_connected_step, lemma_points_bound, lemma_same_group, Grid,
};

verus! {

/// Komi, the compensation White receives for playing second: 7.5 points.
pub const KOMI_HALF_POINTS: usize = 15;

/// The score of a position in half points, as (Black, White).
pub open spec fn score_spec(cells: Seq<Option<StoneColor>>) -> (usize, usize) {
    (
        (2 * count_color(cells, StoneColor::Black)) as usize,
        (2 * count_color(cells, StoneColor::White) + KOMI_HALF_POINTS) as usize,
    )
}

/// Whether `config` lets colour `c` play at `p` on `s`: the point is on
/// the board and empty; when captures or the ko rule are on, it is not the ko
/// point; when captures are on, the move is not suicide.
pub open spec fn move_allowed(s: BoardState, p: (i32, i32), c: StoneColor, config: GoBoardConfig) -> bool {
    &&& s.grid().can_place(p)
    &&& (config.enable_captures || config.enable_ko_rule) ==> s.ko_position != Some(p)
    &&& config.enable_captures ==> !s.grid().is_suicide(p, c)
}

/// The stones that a move of colour `c` at `p` takes under `config`.
pub open spec fn move_captures(s: BoardState, p: (i32, i32), c: StoneColor, config: GoBoardConfig) -> Set<(i32, i32)> {
    if config.enable_captures {
        s.grid().place(p, c).captured_by(p, c)
    } else {
        Set::empty()
    }
}

/// The ko point after a move at `p` that took the stones `taken`, with `after`
/// the position that results: the one stone taken, when exactly one was
/// taken and the stone played stands alone with a single liberty.
pub open spec fn ko_after(after: Grid, p: (i32, i32), taken: Seq<(i32, i32)>, config: GoBoardConfig) -> Option<(i32, i32)> {
    if config.enable_ko_rule && taken.len() == 1 && after.group(p).len() == 1
        && after.liberties(after.group(p)).len() == 1 {
        Some(taken[0])
    } else {
        None
    }
}

/// The Go rules, as functions over a board state.
pub struct GoBoardRules;

/// Whether `p` is one of the points of `v`.
fn contains_point(v: &Vec<(i32, i32)>, p: (i32, i32)) -> (r: bool)
    ensures
        r == v@.contains(p),
{
    let mut i: usize = 0;
    while i < v.len()
        invariant
            i <= v@.len(),
            forall|j: int| 0 <= j < i ==> v@[j] != p,
        decreases v@.len() - i,
    {
        if v[i].0 == p.0 && v[i].1 == p.1 {
            return true;
        }
        i = i + 1;
    }
    false
}

/// An element-by-element copy of `v`.
fn copy_vec<T: Copy>(v: &Vec<T>) -> (r: Vec<T>)
    ensures
        r@ == v@,
{
    let mut r: Vec<T> = Vec::new();
    let mut i: usize = 0;
    while i < v.len()
        invariant
            i <= v@.len(),
            r@ == v@.take(i as int),
        decreases v@.len() - i,
    {
        r.push(v[i]);
        i = i + 1;
        proof {
            assert(r@ =~= v@.take(i as int));
        }
    }
    proof {
        assert(r@ =~= v@);
    }
    r
}

/// The stones of every opposing group next to `(x, y)` that has no liberty,
/// each once. A neighbour already taken as part of an earlier group is not
/// looked at again.
fn find_captures(board_state: &BoardState, x: i32, y: i32, color: StoneColor) -> (r: Vec<(i32, i32)>)
    requires
        board_state.shape_ok(),
    ensures
        r@.no_duplicates(),
        forall|q: (i32, i32)|
            r@.contains(q) <==> board_state.grid().captured_by((x, y), color).contains(q),
{
    let ghost g = board_state.grid();
    let ghost size = board_state.size();
    let opponent = color.opposite();
    let nbrs = board_state.get_neighbors(x, y);
    let mut captured: Vec<(i32, i32)> = Vec::new();
    let mut k: usize = 0;
    while k < nbrs.len()
        invariant
            board_state.shape_ok(),
            g == board_state.grid(),
            size == board_state.size(),
            opponent == color.spec_opposite(),
            k <= nbrs@.len(),
            forall|d: (i32, i32)| nbrs@.contains(d) <==> in_bounds(size, d) && adjacent((x, y), d),
            captured@.no_duplicates(),
            forall|q: (i32, i32)|
                #![trigger captured@.contains(q)]
                captured@.contains(q) <==> exists|j: int|
                    0 <= j < k && g.is_dead_opponent(#[trigger] nbrs@[j], color) && g.group(
                        nbrs@[j],
                    ).contains(q),
        decreases nbrs@.len() - k,
    {
        let nb = nbrs[k];
        let ghost before = captured@;
        let mut dead = false;
        // A neighbour inside a group already taken brings nothing new.
        let seen = contains_point(&captured, nb);
        let stone = if seen {
            None
        } else {
            board_state.get_stone(nb.0, nb.1)
        };
        if let Some(c) = stone {
            if c == opponent {
                let grp = GoBoardRules::get_group(board_state, nb.0, nb.1);
                proof {
                    assert(grp@.to_set() =~= g.group(nb));
                }
                if GoBoardRules::count_liberties(board_state, &grp) == 0 {
                    dead = true;
                    let mut m: usize = 0;
                    while m < grp.len()
                        invariant
                            g == board_state.grid(),
                            m <= grp@.len(),
                            captured@.no_duplicates(),
                            forall|q: (i32, i32)|
                                #![trigger captured@.contains(q)]
                                captured@.contains(q) <==> (before.contains(q) || exists|t: int|
                                    0 <= t < m && grp@[t] == q),
                        decreases grp@.len() - m,
                    {
                        let q = grp[m];
                        let ghost mid = captured@;
                        if !contains_point(&captured, q) {
                            captured.push(q);
                            proof {
                                assert(captured@ == mid.push(q));
                                assert(captured@[captured@.len() - 1] == q);
                                assert forall|z: (i32, i32)| mid.contains(z) implies captured@.contains(z) by {
                                    let j = choose|j: int| 0 <= j < mid.len() && mid[j] == z;
                                    assert(captured@[j] == z);
                                }
                                assert forall|z: (i32, i32)| captured@.contains(z) && z != q implies mid.contains(z) by {
                                    let j = choose|j: int| 0 <= j < captured@.len() && captured@[j] == z;
                                    assert(mid[j] == z);
                                }
                            }
                        }
                        proof {
                            assert(grp@[m as int] == q);
                            assert forall|z: (i32, i32)|
                                #![trigger captured@.contains(z)]
                                captured@.contains(z) <==> (before.contains(z) || exists|t: int|
                                    0 <= t < m + 1 && grp@[t] == z) by {
                                if z != q {
                                    assert(captured@.contains(z) == mid.contains(z));
                                    if exists|t: int| 0 <= t < m + 1 && grp@[t] == z {
                                        let t = choose|t: int| 0 <= t < m + 1 && grp@[t] == z;
                                        assert(t < m);
                                    }
                                }
                            }
                        }
                        m = m + 1;
                    }
                    proof {
                        assert forall|z: (i32, i32)|
                            captured@.contains(z) <==> (before.contains(z) || g.group(nb).contains(z)) by {
                            if grp@.contains(z) {
                                let t = choose|t: int| 0 <= t < grp@.len() && grp@[t] == z;
                            }
                            if exists|t: int| 0 <= t < grp@.len() && grp@[t] == z {
                                let t = choose|t: int| 0 <= t < grp@.len() && grp@[t] == z;
                                assert(grp@.contains(z));
                            }
                        }
                    }
                }
            }
        }
        proof {
            assert(nbrs@[k as int] == nb);
            if seen {
                let j = choose|j: int|
                    0 <= j < k && g.is_dead_opponent(#[trigger] nbrs@[j], color) && g.group(
                        nbrs@[j],
                    ).contains(nb);
                lemma_same_group(g, nbrs@[j], nb);
                lemma_connected_color(g, nbrs@[j], nb);
                assert(g.is_dead_opponent(nb, color));
                assert forall|q: (i32, i32)| g.group(nb).contains(q) implies before.contains(q) by {
                    assert(g.is_dead_opponent(nbrs@[j], color) && g.group(nbrs@[j]).contains(q));
                }
            } else {
                assert(dead == g.is_dead_opponent(nb, color)) by {
                    if g.at(nb) == Some(color.spec_opposite()) {
                        vstd::set_lib::axiom_is_empty_len0(g.liberties(g.group(nb)));
                    }
                }
            }
            if !dead {
                assert(captured@ == before);
            }
            assert forall|q: (i32, i32)|
                #![trigger captured@.contains(q)]
                captured@.contains(q) <==> exists|j: int|
                    0 <= j < k + 1 && g.is_dead_opponent(#[trigger] nbrs@[j], color) && g.group(
                        nbrs@[j],
                    ).contains(q) by {
                if captured@.contains(q) && !before.contains(q) {
                    assert(dead);
                    assert(g.group(nb).contains(q));
                }
                if exists|j: int|
                    0 <= j < k + 1 && g.is_dead_opponent(#[trigger] nbrs@[j], color) && g.group(
                        nbrs@[j],
                    ).contains(q) {
                    let j = choose|j: int|
                        0 <= j < k + 1 && g.is_dead_opponent(#[trigger] nbrs@[j], color) && g.group(
                            nbrs@[j],
                        ).contains(q);
                    if j == k && !seen {
                        assert(dead);
                        assert(g.group(nb).contains(q));
                    }
                }
            }
        }
        k = k + 1;
    }
    proof {
        assert forall|q: (i32, i32)|
            captured@.contains(q) <==> g.captured_by((x, y), color).contains(q) by {
            if g.captured_by((x, y), color).contains(q) {
                let nb = choose|nb: (i32, i32)|
                    #[trigger] adjacent((x, y), nb) && g.is_dead_opponent(nb, color) && g.group(
                        nb,
                    ).contains(q);
                assert(nbrs@.contains(nb));
                let j = choose|j: int| 0 <= j < nbrs@.len() && nbrs@[j] == nb;
            }
            if captured@.contains(q) {
                let j = choose|j: int|
                    0 <= j < k && g.is_dead_opponent(#[trigger] nbrs@[j], color) && g.group(
                        nbrs@[j],
                    ).contains(q);
                assert(nbrs@.contains(nbrs@[j]));
            }
        }
    }
    captured
}

impl GoBoardRules {
    /// The group of the stone at `(x, y)`, found by a depth-first flood fill
    /// with an explicit stack; empty when the point holds no stone.
    pub fn get_group(board_state: &BoardState, x: i32, y: i32) -> (r: Vec<(i32, i32)>)
        requires
            board_state.shape_ok(),
        ensures
            r@.no_duplicates(),
            forall|q: (i32, i32)| r@.contains(q) <==> board_state.grid().group((x, y)).contains(q),
    {
        let mut group: Vec<(i32, i32)> = Vec::new();
        if let Some(color) = board_state.get_stone(x, y) {
            let ghost g = board_state.grid();
            let ghost a = (x, y);
            let ghost size = board_state.size();
            let mut stack: Vec<(i32, i32)> = Vec::new();
            stack.push((x, y));
            group.push((x, y));
            proof {
                lemma_connected_self(g, a);
                assert(group@[0] == a);
                assert(stack@[0] == a);
            }
            while stack.len() > 0
                invariant
                    board_state.shape_ok(),
                    g == board_state.grid(),
                    size == board_state.size(),
                    9 <= size <= 19,
                    g.at(a) == Some(color),
                    group@.no_duplicates(),
                    group@.contains(a),
                    forall|q: (i32, i32)| group@.contains(q) ==> g.connected(a, q),
                    forall|q: (i32, i32)| stack@.contains(q) ==> group@.contains(q),
                    forall|q: (i32, i32)|
                        group@.contains(q) ==> stack@.contains(q) || g.closed_at(group@, q, color),
                    group@.len() <= size * size,
                decreases 2 * (size * size - group@.len()) + stack@.len(),
            {
                let ghost group0 = group@;
                let ghost stack0 = stack@;
                let c = stack.pop().unwrap();
                assert(stack0.contains(c)) by {
                    assert(stack0[stack0.len() - 1] == c);
                }
                assert forall|q: (i32, i32)| stack@.contains(q) implies stack0.contains(q) by {
                    let j = choose|j: int| 0 <= j < stack@.len() && stack@[j] == q;
                    assert(stack0[j] == q);
                }
                assert(stack0 == stack@.push(c));
                assert forall|q: (i32, i32)| stack0.contains(q) && q != c implies stack@.contains(q) by {
                    let j = choose|j: int| 0 <= j < stack0.len() && stack0[j] == q;
                    assert(stack@[j] == q);
                }
                let nbrs = board_state.get_neighbors(c.0, c.1);
                let mut k: usize = 0;
                while k < nbrs.len()
                    invariant
                        board_state.shape_ok(),
                        g == board_state.grid(),
                        size == board_state.size(),
                        9 <= size <= 19,
                        g.at(a) == Some(color),
                        nbrs@.len() <= 4,
                        k <= nbrs@.len(),
                        forall|d: (i32, i32)|
                            nbrs@.contains(d) <==> in_bounds(size, d) && adjacent(c, d),
                        group@.no_duplicates(),
                        group@.contains(a),
                        group@.contains(c),
                        forall|q: (i32, i32)| group@.contains(q) ==> g.connected(a, q),
                        forall|q: (i32, i32)| stack@.contains(q) ==> group@.contains(q),
                        forall|q: (i32, i32)|
                            group@.contains(q) ==> stack@.contains(q) || q == c || g.closed_at(
                                group@,
                                q,
                                color,
                            ),
                        forall|j: int|
                            0 <= j < k && g.at(#[trigger] nbrs@[j]) == Some(color)
                                ==> group@.contains(nbrs@[j]),
                        group@.len() <= size * size,
                        group@.len() >= group0.len(),
                        group@.len() - group0.len() == stack@.len() - (stack0.len() - 1),
                    decreases nbrs@.len() - k,
                {
                    let nb = nbrs[k];
                    assert(nbrs@.contains(nb)) by {
                        assert(nbrs@[k as int] == nb);
                    }
                    if !contains_point(&group, nb) {
                        if let Some(nc) = board_state.get_stone(nb.0, nb.1) {
                            if nc == color {
                                let ghost before = group@;
                                let ghost sb = stack@;
                                proof {
                                    lemma_connected_step(g, a, c, nb);
                                }
                                group.push(nb);
                                stack.push(nb);
                                proof {
                                    assert forall|d: (i32, i32)| before.contains(d) implies group@.contains(d) by {
                                        let j = choose|j: int| 0 <= j < before.len() && before[j] == d;
                                        assert(group@[j] == d);
                                    }
                                    assert(group@ == before.push(nb));
                                    assert(stack@ == sb.push(nb));
                                    assert forall|d: (i32, i32)| sb.contains(d) implies stack@.contains(d) by {
                                        let j = choose|j: int| 0 <= j < sb.len() && sb[j] == d;
                                        assert(stack@[j] == d);
                                    }
                                    assert(group@[group@.len() - 1] == nb);
                                    assert(stack@[stack@.len() - 1] == nb);
                                    assert forall|q: (i32, i32)| group@.contains(q) implies g.connected(a, q) by {
                                        if q != nb {
                                            let j = choose|j: int| 0 <= j < group@.len() && group@[j] == q;
                                            assert(before[j] == q);
                                        }
                                    }
                                    assert forall|q: (i32, i32)| stack@.contains(q) implies group@.contains(q) by {
                                        if q != nb {
                                            let j = choose|j: int| 0 <= j < stack@.len() && stack@[j] == q;
                                            assert(sb[j] == q);
                                            assert(before.contains(q));
                                        }
                                    }
                                    assert forall|q: (i32, i32)| group@.contains(q) implies stack@.contains(q) || q == c
                                        || g.closed_at(group@, q, color) by {
                                        if q != nb {
                                            let j = choose|j: int| 0 <= j < group@.len() && group@[j] == q;
                                            assert(before[j] == q);
                                            if sb.contains(q) {
                                            } else if q != c {
                                                lemma_closed_grows(g, before, group@, q, color);
                                            }
                                        }
                                    }
                                    assert forall|q: (i32, i32)| group@.contains(q) implies in_bounds(size, q) by {
                                        lemma_connected_color(g, a, q);
                                    }
                                    assert forall|i: int| 0 <= i < group@.len() implies in_bounds(size, #[trigger] group@[i]) by {
                                        assert(group@.contains(group@[i]));
                                    }
                                    lemma_points_bound(size, group@);
                                }
                            }
                        }
                    }
                    k = k + 1;
                }
                proof {
                    assert(g.closed_at(group@, c, color)) by {
                        assert forall|d: (i32, i32)| #[trigger] adjacent(c, d) && g.at(d) == Some(color) implies group@.contains(d) by {
                            assert(nbrs@.contains(d));
                            let j = choose|j: int| 0 <= j < nbrs@.len() && nbrs@[j] == d;
                        }
                    }
                }
            }
            proof {
                assert forall|q: (i32, i32)| g.group(a).contains(q) implies group@.contains(q) by {
                    let path = choose|path: Seq<(i32, i32)>| #[trigger] g.chain_between(a, q, path);
                    lemma_chain_in_closed(g, color, group@, path);
                    assert(group@.contains(path[path.len() - 1]));
                }
            }
        }
        group
    }

    /// The number of distinct empty points of the board next to some stone
    /// of `group`.
    pub fn count_liberties(board_state: &BoardState, group: &Vec<(i32, i32)>) -> (r: usize)
        requires
            board_state.shape_ok(),
        ensures
            board_state.grid().liberties(group@.to_set()).finite(),
            r == board_state.grid().liberties(group@.to_set()).len(),
    {
        let ghost g = board_state.grid();
        let ghost size = board_state.size();
        let mut libs: Vec<(i32, i32)> = Vec::new();
        let mut i: usize = 0;
        while i < group.len()
            invariant
                board_state.shape_ok(),
                g == board_state.grid(),
                size == board_state.size(),
                i <= group@.len(),
                libs@.no_duplicates(),
                forall|q: (i32, i32)|
                    #![trigger libs@.contains(q)]
                    libs@.contains(q) <==> (in_bounds(size, q) && g.at(q) is None && exists|j: int|
                        0 <= j < i && #[trigger] adjacent(group@[j], q)),
            decreases group@.len() - i,
        {
            let m = group[i];
            let nbrs = board_state.get_neighbors(m.0, m.1);
            let mut k: usize = 0;
            while k < nbrs.len()
                invariant
                    board_state.shape_ok(),
                    g == board_state.grid(),
                    size == board_state.size(),
                    i < group@.len(),
                    m == group@[i as int],
                    k <= nbrs@.len(),
                    nbrs@.no_duplicates(),
                    forall|d: (i32, i32)|
                        nbrs@.contains(d) <==> in_bounds(size, d) && adjacent(m, d),
                    libs@.no_duplicates(),
                    forall|q: (i32, i32)|
                        #![trigger libs@.contains(q)]
                        libs@.contains(q) <==> (in_bounds(size, q) && g.at(q) is None && ((exists|j: int|
                            0 <= j < i && #[trigger] adjacent(group@[j], q)) || exists|j: int|
                            0 <= j < k && nbrs@[j] == q)),
                decreases nbrs@.len() - k,
            {
                let d = nbrs[k];
                assert(nbrs@.contains(d)) by {
                    assert(nbrs@[k as int] == d);
                }
                let ghost before = libs@;
                if board_state.get_stone(d.0, d.1).is_none() && !contains_point(&libs, d) {
                    libs.push(d);
                    proof {
                        assert(libs@ == before.push(d));
                        assert(libs@[libs@.len() - 1] == d);
                        assert forall|q: (i32, i32)| before.contains(q) implies libs@.contains(q) by {
                            let j = choose|j: int| 0 <= j < before.len() && before[j] == q;
                            assert(libs@[j] == q);
                        }
                        assert forall|q: (i32, i32)| libs@.contains(q) && q != d implies before.contains(q) by {
                            let j = choose|j: int| 0 <= j < libs@.len() && libs@[j] == q;
                            assert(before[j] == q);
                        }
                    }
                }
                proof {
                    assert(nbrs@[k as int] == d);
                    assert forall|q: (i32, i32)|
                        libs@.contains(q) <==> (in_bounds(size, q) && g.at(q) is None && ((exists|j: int|
                            0 <= j < i && #[trigger] adjacent(group@[j], q)) || exists|j: int|
                            0 <= j < k + 1 && nbrs@[j] == q)) by {
                        assert(before.contains(q) <==> (in_bounds(size, q) && g.at(q) is None && ((exists|j: int|
                            0 <= j < i && #[trigger] adjacent(group@[j], q)) || exists|j: int|
                            0 <= j < k && nbrs@[j] == q)));
                        if q != d {
                            assert(libs@.contains(q) == before.contains(q));
                            if exists|j: int| 0 <= j < k + 1 && nbrs@[j] == q {
                                let j = choose|j: int| 0 <= j < k + 1 && nbrs@[j] == q;
                                assert(j < k);
                            }
                        } else {
                            assert(in_bounds(size, d));
                        }
                    }
                }
                k = k + 1;
            }
            proof {
                assert forall|q: (i32, i32)|
                    libs@.contains(q) <==> (in_bounds(size, q) && g.at(q) is None && exists|j: int|
                        0 <= j < i + 1 && #[trigger] adjacent(group@[j], q)) by {
                    if in_bounds(size, q) && g.at(q) is None && adjacent(m, q) {
                        assert(nbrs@.contains(q));
                        let j = choose|j: int| 0 <= j < nbrs@.len() && nbrs@[j] == q;
                    }
                    if exists|j: int| 0 <= j < nbrs@.len() && nbrs@[j] == q {
                        let j = choose|j: int| 0 <= j < nbrs@.len() && nbrs@[j] == q;
                        assert(nbrs@.contains(q));
                        assert(adjacent(group@[i as int], q));
                    }
                    if exists|j: int| 0 <= j < i + 1 && #[trigger] adjacent(group@[j], q) {
                        let j = choose|j: int| 0 <= j < i + 1 && #[trigger] adjacent(group@[j], q);
                        if j == i && in_bounds(size, q) && g.at(q) is None {
                            assert(nbrs@.contains(q));
                            let jj = choose|jj: int| 0 <= jj < nbrs@.len() && nbrs@[jj] == q;
                        }
                    }
                }
            }
            i = i + 1;
        }
        proof {
            let gs = group@.to_set();
            assert(libs@.to_set() =~= g.liberties(gs)) by {
                assert forall|q: (i32, i32)| g.liberties(gs).contains(q) implies libs@.contains(q) by {
                    let m = choose|m: (i32, i32)| #[trigger] gs.contains(m) && adjacent(m, q);
                    let j = choose|j: int| 0 <= j < group@.len() && group@[j] == m;
                    assert(adjacent(group@[j], q));
                }
                assert forall|q: (i32, i32)| libs@.contains(q) implies g.liberties(gs).contains(q) by {
                    let j = choose|j: int| 0 <= j < i && #[trigger] adjacent(group@[j], q);
                    assert(gs.contains(group@[j]));
                }
            }
            libs@.unique_seq_to_set();
        }
        libs.len()
    }

    /// Takes the stones of every opposing group next to `(x, y)` that has no
    /// liberty: each such stone leaves the board, the result lists each once,
    /// and the opponent's capture counter grows by their number. The stone
    /// just played at `(x, y)` is expected to be on the board already.
    pub fn capture_stones(board_state: &mut BoardState, x: i32, y: i32, color: StoneColor) -> (r: Vec<(i32, i32)>)
        requires
            old(board_state).wf(),
        ensures
            final(board_state).wf(),
            r@.no_duplicates(),
            forall|q: (i32, i32)|
                r@.contains(q) <==> old(board_state).grid().captured_by((x, y), color).contains(q),
            forall|q: (i32, i32)|
                final(board_state).grid().at(q) == if r@.contains(q) {
                    None
                } else {
                    old(board_state).grid().at(q)
                },
            forall|q: (i32, i32)|
                final(board_state).number_at(q) == if r@.contains(q) {
                    None
                } else {
                    old(board_state).number_at(q)
                },
            final(board_state).board_size == old(board_state).board_size,
            final(board_state).move_count == old(board_state).move_count,
            final(board_state).ko_position == old(board_state).ko_position,
            final(board_state).last_move == old(board_state).last_move,
            color == StoneColor::Black ==> final(board_state).captured_white
                == old(board_state).captured_white + r@.len() && final(board_state).captured_black
                == old(board_state).captured_black,
            color == StoneColor::White ==> final(board_state).captured_black
                == old(board_state).captured_black + r@.len() && final(board_state).captured_white
                == old(board_state).captured_white,
    {
        let ghost s0 = *board_state;
        let ghost g = s0.grid();
        let captured = find_captures(board_state, x, y, color);
        proof {
            assert forall|j: int| 0 <= j < captured@.len() implies g.at(#[trigger] captured@[j]) is Some by {
                let q = captured@[j];
                assert(captured@.contains(q));
                let nb = choose|nb: (i32, i32)|
                    #[trigger] adjacent((x, y), nb) && g.is_dead_opponent(nb, color) && g.group(
                        nb,
                    ).contains(q);
                lemma_connected_color(g, nb, q);
            }
        }
        let mut i: usize = 0;
        while i < captured.len()
            invariant
                s0.wf(),
                g == s0.grid(),
                board_state.wf(),
                i <= captured@.len(),
                captured@.no_duplicates(),
                forall|j: int| 0 <= j < captured@.len() ==> g.at(#[trigger] captured@[j]) is Some,
                board_state.board_size == s0.board_size,
                board_state.move_count == s0.move_count,
                board_state.captured_black == s0.captured_black,
                board_state.captured_white == s0.captured_white,
                board_state.ko_position == s0.ko_position,
                board_state.last_move == s0.last_move,
                count_occupied(board_state.stones@) + i == count_occupied(s0.stones@),
                forall|q: (i32, i32)|
                    #![trigger board_state.grid().at(q)]
                    board_state.grid().at(q) == if exists|j: int| 0 <= j < i && captured@[j] == q {
                        None
                    } else {
                        g.at(q)
                    },
                forall|q: (i32, i32)|
                    #![trigger board_state.number_at(q)]
                    board_state.number_at(q) == if exists|j: int| 0 <= j < i && captured@[j] == q {
                        None
                    } else {
                        s0.number_at(q)
                    },
            decreases captured@.len() - i,
        {
            let q = captured[i];
            let ghost cur = *board_state;
            let ghost size = cur.size();
            proof {
                assert(g.at(captured@[i as int]) is Some);
                assert(!(exists|j: int| 0 <= j < i && captured@[j] == q));
                assert(cur.grid().at(q) is Some);
                lemma_cell_index_bounds(size, q);
                lemma_count_occupied_update(cur.stones@, cell_index(size, q), None);
            }
            board_state.remove_stone(q.0, q.1);
            proof {
                assert forall|p: (i32, i32)| p != q && in_bounds(size, p) implies cell_index(size, p) != cell_index(size, q) by {
                    if cell_index(size, p) == cell_index(size, q) {
                        lemma_cell_index_injective(size, p, q);
                    }
                }
                assert forall|p: (i32, i32)|
                    #![trigger board_state.grid().at(p)]
                    board_state.grid().at(p) == if exists|j: int| 0 <= j < i + 1 && captured@[j] == p {
                        None
                    } else {
                        g.at(p)
                    } by {
                    assert(cur.grid().at(p) == if exists|j: int| 0 <= j < i && captured@[j] == p {
                        None
                    } else {
                        g.at(p)
                    });
                    if p == q {
                        assert(captured@[i as int] == p);
                    } else {
                        if in_bounds(size, p) {
                            lemma_cell_index_bounds(size, p);
                        }
                        if exists|j: int| 0 <= j < i + 1 && captured@[j] == p {
                            let j = choose|j: int| 0 <= j < i + 1 && captured@[j] == p;
                            assert(j < i);
                        }
                    }
                }
                assert forall|p: (i32, i32)|
                    #![trigger board_state.number_at(p)]
                    board_state.number_at(p) == if exists|j: int| 0 <= j < i + 1 && captured@[j] == p {
                        None
                    } else {
                        s0.number_at(p)
                    } by {
                    assert(cur.number_at(p) == if exists|j: int| 0 <= j < i && captured@[j] == p {
                        None
                    } else {
                        s0.number_at(p)
                    });
                    if p == q {
                        assert(captured@[i as int] == p);
                    } else {
                        if in_bounds(size, p) {
                            lemma_cell_index_bounds(size, p);
                        }
                        if exists|j: int| 0 <= j < i + 1 && captured@[j] == p {
                            let j = choose|j: int| 0 <= j < i + 1 && captured@[j] == p;
                            assert(j < i);
                        }
                    }
                }
            }
            i = i + 1;
        }
        let n = captured.len();
        let ghost done = *board_state;
        match color {
            StoneColor::Black => board_state.captured_white = board_state.captured_white + n,
            StoneColor::White => board_state.captured_black = board_state.captured_black + n,
        }
        proof {
            assert(board_state.grid() == done.grid());
            assert forall|q: (i32, i32)|
                board_state.grid().at(q) == if captured@.contains(q) {
                    None
                } else {
                    g.at(q)
                } && board_state.number_at(q) == if captured@.contains(q) {
                    None
                } else {
                    s0.number_at(q)
                } by {
                assert(done.grid().at(q) == if exists|j: int| 0 <= j < n && captured@[j] == q {
                    None
                } else {
                    g.at(q)
                });
                assert(done.number_at(q) == if exists|j: int| 0 <= j < n && captured@[j] == q {
                    None
                } else {
                    s0.number_at(q)
                });
            }
        }
        captured
    }

    /// A stone of colour `color` put at `(x, y)` would take nothing and leave
    /// its own group without a liberty; `false` off the board. Decided on a
    /// scratch copy of the board; `board_state` is left as it is.
    pub fn is_suicide(board_state: &BoardState, x: i32, y: i32, color: StoneColor) -> (r: bool)
        requires
            board_state.shape_ok(),
        ensures
            r == (in_bounds(board_state.size(), (x, y)) && board_state.grid().is_suicide(
                (x, y),
                color,
            )),
    {
        let ghost t = board_state.grid().place((x, y), color);
        let n = board_state.board_size.get_value();
        if x < 0 || x >= n || y < 0 || y >= n {
            return false;
        }
        let idx = cell_offset(n, x, y);
        let mut stones = copy_vec(&board_state.stones);
        stones.set(idx, Some(color));
        let temp_board = BoardState {
            stones,
            move_numbers: copy_vec(&board_state.move_numbers),
            board_size: board_state.board_size,
            move_count: board_state.move_count,
            captured_black: board_state.captured_black,
            captured_white: board_state.captured_white,
            ko_position: board_state.ko_position,
            last_move: board_state.last_move,
        };
        assert(temp_board.grid() == t);
        let takes = find_captures(&temp_board, x, y, color);
        proof {
            if t.captures_any((x, y), color) {
                let nb = choose|nb: (i32, i32)| #[trigger] adjacent((x, y), nb) && t.is_dead_opponent(nb, color);
                lemma_connected_self(t, nb);
                assert(t.captured_by((x, y), color).contains(nb));
                assert(takes@.contains(nb));
            }
            if takes@.len() > 0 {
                assert(takes@.contains(takes@[0]));
            }
        }
        if takes.len() > 0 {
            return false;
        }
        let own_group = GoBoardRules::get_group(&temp_board, x, y);
        proof {
            assert(own_group@.to_set() =~= t.group((x, y)));
        }
        let libs = GoBoardRules::count_liberties(&temp_board, &own_group);
        proof {
            vstd::set_lib::axiom_is_empty_len0(t.liberties(t.group((x, y))));
        }
        libs == 0
    }

    /// A move at `(x, y)` is on the board, on an empty point, and not on the
    /// ko point. Suicide is not looked at here.
    pub fn is_valid_move(board_state: &BoardState, x: i32, y: i32, _color: StoneColor) -> (r: bool)
        requires
            board_state.shape_ok(),
        ensures
            r == (board_state.grid().can_place((x, y)) && board_state.ko_position != Some((x, y))),
    {
        let n = board_state.board_size.get_value();
        if x < 0 || x >= n || y < 0 || y >= n {
            return false;
        }
        if board_state.get_stone(x, y).is_some() {
            return false;
        }
        if let Some(ko_pos) = board_state.ko_position {
            if ko_pos.0 == x && ko_pos.1 == y {
                return false;
            }
        }
        true
    }

    /// The score in half points, as (Black, White): each side's stones on the
    /// board, and komi for White. Empty points count for neither side.
    pub fn calculate_score(board_state: &BoardState) -> (r: (usize, usize))
        requires
            board_state.shape_ok(),
        ensures
            r == score_spec(board_state.stones@),
    {
        let mut black: usize = 0;
        let mut white: usize = 0;
        let mut i: usize = 0;
        let ghost cells = board_state.stones@;
        while i < board_state.stones.len()
            invariant
                cells == board_state.stones@,
                cells.len() <= 361,
                i <= cells.len(),
                black == count_color(cells.take(i as int), StoneColor::Black),
                white == count_color(cells.take(i as int), StoneColor::White),
                black <= i,
                white <= i,
            decreases cells.len() - i,
        {
            proof {
                assert(cells.take(i + 1).drop_last() =~= cells.take(i as int));
                assert(cells.take(i + 1).last() == cells[i as int]);
            }
            match board_state.stones[i] {
                Some(StoneColor::Black) => black = black + 1,
                Some(StoneColor::White) => white = white + 1,
                None => {},
            }
            i = i + 1;
        }
        proof {
            assert(cells.take(i as int) =~= cells);
        }
        (2 * black, 2 * white + KOMI_HALF_POINTS)
    }

    /// Plays a proposed move as one step: checks it, puts the stone, takes
    /// what it captures and updates the ko point. A refused move (off the
    /// board, on a stone, on the ko point, or suicide) gives `None` and
    /// changes nothing; an accepted one gives the stones it took.
    pub fn play_move(
        board_state: &mut BoardState,
        x: i32,
        y: i32,
        color: StoneColor,
        config: &GoBoardConfig,
    ) -> (r: Option<Vec<(i32, i32)>>)
        requires
            old(board_state).wf(),
            old(board_state).move_count < usize::MAX,
        ensures
            final(board_state).wf(),
            r is Some == move_allowed(*old(board_state), (x, y), color, *config),
            r is None ==> *final(board_state) == *old(board_state),
            r is Some ==> {
                let s = *old(board_state);
                let t = s.grid().place((x, y), color);
                let taken = move_captures(s, (x, y), color, *config);
                let f = *final(board_state);
                &&& r->0@.no_duplicates()
                &&& forall|q: (i32, i32)| r->0@.contains(q) <==> taken.contains(q)
                &&& forall|q: (i32, i32)|
                    f.grid().at(q) == if taken.contains(q) {
                        None
                    } else {
                        t.at(q)
                    }
                &&& forall|q: (i32, i32)|
                    f.number_at(q) == if taken.contains(q) {
                        None
                    } else if q == (x, y) {
                        Some((s.move_count + 1) as usize)
                    } else {
                        s.number_at(q)
                    }
                &&& f.board_size == s.board_size
                &&& f.move_count == s.move_count + 1
                &&& f.last_move == Some((x, y))
                &&& color == StoneColor::Black ==> f.captured_white == s.captured_white + r->0@.len()
                    && f.captured_black == s.captured_black
                &&& color == StoneColor::White ==> f.captured_black == s.captured_black + r->0@.len()
                    && f.captured_white == s.captured_white
                &&& f.ko_position == ko_after(f.grid(), (x, y), r->0@, *config)
                &&& f.ko_position is Some ==> f.grid().at(f.ko_position->0) is None && adjacent(
                    (x, y),
                    f.ko_position->0,
                )
            },
    {
        let ghost s = *board_state;
        let n = board_state.board_size.get_value();
        if config.enable_captures || config.enable_ko_rule {
            if !GoBoardRules::is_valid_move(board_state, x, y, color) {
                return None;
            }
        } else if x < 0 || x >= n || y < 0 || y >= n || board_state.get_stone(x, y).is_some() {
            return None;
        }
        if config.enable_captures && GoBoardRules::is_suicide(board_state, x, y, color) {
            return None;
        }
        let placed = board_state.place_stone(x, y, color);
        let ghost t = *board_state;
        proof {
            assert(placed);
            assert forall|q: (i32, i32)|
                t.number_at(q) == if q == (x, y) {
                    Some((s.move_count + 1) as usize)
                } else {
                    s.number_at(q)
                } by {
                lemma_cell_index_bounds(t.size(), (x, y));
                if in_bounds(t.size(), q) && q != (x, y) {
                    lemma_cell_index_bounds(t.size(), q);
                    if cell_index(t.size(), q) == cell_index(t.size(), (x, y)) {
                        lemma_cell_index_injective(t.size(), q, (x, y));
                    }
                }
            }
        }
        board_state.ko_position = None;
        assert(board_state.grid() == t.grid());
        let ghost t1 = *board_state;
        let captured = if config.enable_captures {
            GoBoardRules::capture_stones(board_state, x, y, color)
        } else {
            Vec::new()
        };
        let ghost after_cap = *board_state;
        proof {
            let taken = move_captures(s, (x, y), color, *config);
            assert(t1.grid() == s.grid().place((x, y), color));
            assert(forall|q: (i32, i32)| captured@.contains(q) <==> taken.contains(q));
            assert(forall|q: (i32, i32)|
                after_cap.grid().at(q) == if taken.contains(q) {
                    None
                } else {
                    s.grid().place((x, y), color).at(q)
                });
        }
        if config.enable_ko_rule && captured.len() == 1 {
            let own_group = GoBoardRules::get_group(board_state, x, y);
            let ghost f = board_state.grid();
            proof {
                assert(own_group@.to_set() =~= f.group((x, y)));
                own_group@.unique_seq_to_set();
            }
            if own_group.len() == 1 && GoBoardRules::count_liberties(board_state, &own_group) == 1 {
                proof {
                    let tg = t1.grid();
                    let q = captured@[0];
                    assert(captured@.contains(q));
                    let nb = choose|nb: (i32, i32)|
                        #[trigger] adjacent((x, y), nb) && tg.is_dead_opponent(nb, color) && tg.group(
                            nb,
                        ).contains(q);
                    lemma_connected_self(tg, nb);
                    assert(captured@.contains(nb));
                    let j = choose|j: int| 0 <= j < captured@.len() && captured@[j] == nb;
                    assert(nb == q);
                }
                board_state.ko_position = Some(captured[0]);
            }
        }
        proof {
            assert(board_state.grid() == after_cap.grid());
            assert(board_state.ko_position == ko_after(after_cap.grid(), (x, y), captured@, *config));
            let taken = move_captures(s, (x, y), color, *config);
            let f = *board_state;
            assert(forall|q: (i32, i32)|
                f.grid().at(q) == if taken.contains(q) {
                    None
                } else {
                    s.grid().place((x, y), color).at(q)
                });
            assert forall|q: (i32, i32)|
                f.number_at(q) == if taken.contains(q) {
                    None
                } else if q == (x, y) {
                    Some((s.move_count + 1) as usize)
                } else {
                    s.number_at(q)
                } by {
                assert(t1.number_at(q) == t.number_at(q));
                assert(f.number_at(q) == after_cap.number_at(q));
            }
            assert(f.move_count == s.move_count + 1);
            assert(color == StoneColor::Black ==> f.captured_white == s.captured_white + captured@.len()
                    && f.captured_black == s.captured_black);
            assert(color == StoneColor::White ==> f.captured_black == s.captured_black + captured@.len()
                    && f.captured_white == s.captured_white);
        }
        Some(captured)
    }
}

} // verus!
