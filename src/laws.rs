//! Properties of the rules that relate several operations or hold of every
//! position, proved over the model.
use vstd::prelude::*;
use crate::board::BoardState;
use crate::color::StoneColor;
use crate::config::GoBoardConfig;
use crate::grid::{
    adjacent, cell_index, in_bounds, lemma_cell_index_bounds, lemma_cell_index_injective,
    lemma_chain_in_closed, lemma_connected_self, lemma_connected_step, Grid,
};
use crate::rules::{ko_after, move_allowed, score_spec, KOMI_HALF_POINTS};

verus! {

/// Putting a stone on `q` of the placed grid changes only `p`.
proof fn lemma_place_elsewhere(g: Grid, p: (i32, i32), c: StoneColor, q: (i32, i32))
    requires
        g.well_shaped(),
        in_bounds(g.size, p),
    ensures
        q != p ==> g.place(p, c).at(q) == g.at(q),
        g.place(p, c).at(p) == Some(c),
{
    lemma_cell_index_bounds(g.size, p);
    if in_bounds(g.size, q) && q != p {
        lemma_cell_index_bounds(g.size, q);
        if cell_index(g.size, q) == cell_index(g.size, p) {
            lemma_cell_index_injective(g.size, q, p);
        }
    }
}

/// Once a stone of any colour is put on an empty point, the point holds it
/// and no second stone can be put there.
pub proof fn lemma_placement_exclusive(g: Grid, p: (i32, i32), c: StoneColor)
    requires
        g.well_shaped(),
        g.can_place(p),
    ensures
        g.place(p, c).at(p) == Some(c),
        !g.place(p, c).can_place(p),
{
    lemma_cell_index_bounds(g.size, p);
}

/// A stone whose on-board neighbours all hold the other colour is a group
/// of its own with no liberty, and a stone of the other colour played next
/// to it takes it.
pub proof fn lemma_surrounded_stone_captured(g: Grid, q: (i32, i32), c: StoneColor, p: (i32, i32))
    requires
        g.at(q) == Some(c),
        forall|d: (i32, i32)|
            in_bounds(g.size, d) && #[trigger] adjacent(q, d) ==> g.at(d) == Some(c.spec_opposite()),
        adjacent(p, q),
    ensures
        g.group(q) == set![q],
        g.liberties(g.group(q)).is_empty(),
        g.captured_by(p, c.spec_opposite()).contains(q),
{
    lemma_lone_stone_group(g, q, c);
    assert(g.liberties(set![q]) =~= Set::empty()) by {
        assert forall|e: (i32, i32)| !g.liberties(set![q]).contains(e) by {
            if in_bounds(g.size, e) && g.at(e) is None {
                assert forall|m: (i32, i32)| set![q].contains(m) implies !adjacent(m, e) by {
                    if adjacent(m, e) {
                        assert(g.at(e) == Some(c.spec_opposite()));
                    }
                }
            }
        }
    }
    assert(c.spec_opposite().spec_opposite() == c);
    assert(adjacent(p, q) && g.is_dead_opponent(q, c.spec_opposite()) && g.group(q).contains(q));
}

/// A stone with an empty neighbour on the board is never taken.
pub proof fn lemma_stone_with_liberty_not_captured(
    g: Grid,
    q: (i32, i32),
    e: (i32, i32),
    p: (i32, i32),
    c: StoneColor,
)
    requires
        g.at(q) is Some,
        in_bounds(g.size, e),
        adjacent(q, e),
        g.at(e) is None,
    ensures
        !g.captured_by(p, c).contains(q),
{
    if g.captured_by(p, c).contains(q) {
        let nb = choose|nb: (i32, i32)|
            #[trigger] adjacent(p, nb) && g.is_dead_opponent(nb, c) && g.group(nb).contains(q);
        assert(g.liberties(g.group(nb)).contains(e)) by {
            assert(g.group(nb).contains(q) && adjacent(q, e));
        }
        vstd::set_lib::axiom_is_empty_len0(g.liberties(g.group(nb)));
        assert(g.liberties(g.group(nb)).remove(e).len() + 1 == g.liberties(g.group(nb)).len());
    }
}

/// A stone none of whose neighbours holds its colour is a group of its own.
proof fn lemma_lone_stone_group(g: Grid, q: (i32, i32), c: StoneColor)
    requires
        g.at(q) == Some(c),
        forall|d: (i32, i32)| #[trigger] adjacent(q, d) ==> g.at(d) != Some(c),
    ensures
        g.group(q) == set![q],
{
    let s = seq![q];
    assert(s.contains(q)) by {
        assert(s[0] == q);
    }
    assert forall|m: (i32, i32)| s.contains(m) implies #[trigger] g.closed_at(s, m, c) by {
        assert(m == q);
    }
    lemma_connected_self(g, q);
    assert forall|m: (i32, i32)| g.group(q).contains(m) <==> set![q].contains(m) by {
        if g.connected(q, m) {
            let path = choose|path: Seq<(i32, i32)>| #[trigger] g.chain_between(q, m, path);
            lemma_chain_in_closed(g, c, s, path);
            assert(s.contains(path[path.len() - 1]));
        }
    }
    assert(g.group(q) =~= set![q]);
}

/// Three same-coloured stones in a chain, with no other stone of their
/// colour next to any of them, form one group, whichever of them it is
/// asked from.
pub proof fn lemma_three_stone_chain(
    g: Grid,
    a: (i32, i32),
    b: (i32, i32),
    c: (i32, i32),
    col: StoneColor,
)
    requires
        g.at(a) == Some(col),
        g.at(b) == Some(col),
        g.at(c) == Some(col),
        adjacent(a, b),
        adjacent(b, c),
        forall|m: (i32, i32), d: (i32, i32)|
            (m == a || m == b || m == c) && #[trigger] adjacent(m, d) && g.at(d) == Some(col) ==> (
            d == a || d == b || d == c),
    ensures
        g.group(a) == set![a, b, c],
        g.group(b) == set![a, b, c],
        g.group(c) == set![a, b, c],
{
    let s = seq![a, b, c];
    assert(s[0] == a && s[1] == b && s[2] == c);
    assert forall|m: (i32, i32)| s.contains(m) implies #[trigger] g.closed_at(s, m, col) by {
        assert forall|d: (i32, i32)| #[trigger] adjacent(m, d) && g.at(d) == Some(col) implies s.contains(d) by {
            assert(d == a || d == b || d == c);
        }
    }
    lemma_connected_self(g, a);
    lemma_connected_step(g, a, a, b);
    lemma_connected_step(g, a, b, c);
    lemma_connected_self(g, b);
    lemma_connected_step(g, b, b, a);
    lemma_connected_step(g, b, b, c);
    lemma_connected_self(g, c);
    lemma_connected_step(g, c, c, b);
    lemma_connected_step(g, c, b, a);
    assert forall|start: (i32, i32), m: (i32, i32)|
        (start == a || start == b || start == c) && #[trigger] g.connected(start, m) implies (m == a
        || m == b || m == c) by {
        let path = choose|path: Seq<(i32, i32)>| #[trigger] g.chain_between(start, m, path);
        assert(s.contains(start));
        lemma_chain_in_closed(g, col, s, path);
        assert(s.contains(path[path.len() - 1]));
    }
    assert(g.group(a) =~= set![a, b, c]);
    assert(g.group(b) =~= set![a, b, c]);
    assert(g.group(c) =~= set![a, b, c]);
}

/// An empty point whose on-board neighbours all hold the other colour is
/// suicide for a stone that would take nothing there.
pub proof fn lemma_surrounded_point_is_suicide(g: Grid, p: (i32, i32), c: StoneColor)
    requires
        g.well_shaped(),
        g.can_place(p),
        forall|d: (i32, i32)|
            in_bounds(g.size, d) && #[trigger] adjacent(p, d) ==> g.at(d) == Some(c.spec_opposite()),
        !g.place(p, c).captures_any(p, c),
    ensures
        g.is_suicide(p, c),
{
    let t = g.place(p, c);
    lemma_place_elsewhere(g, p, c, p);
    assert forall|d: (i32, i32)| in_bounds(t.size, d) && #[trigger] adjacent(p, d) implies t.at(d)
        == Some(c.spec_opposite()) by {
        lemma_place_elsewhere(g, p, c, d);
    }
    assert forall|d: (i32, i32)| #[trigger] adjacent(p, d) implies t.at(d) != Some(c) by {
        lemma_place_elsewhere(g, p, c, d);
        if in_bounds(t.size, d) {
            assert(t.at(d) == Some(c.spec_opposite()));
        }
    }
    lemma_lone_stone_group(t, p, c);
    assert(t.liberties(set![p]) =~= Set::empty()) by {
        assert forall|e: (i32, i32)| !t.liberties(set![p]).contains(e) by {
            if in_bounds(t.size, e) && t.at(e) is None {
                assert forall|m: (i32, i32)| set![p].contains(m) implies !adjacent(m, e) by {
                    if adjacent(m, e) {
                        assert(t.at(e) == Some(c.spec_opposite()));
                    }
                }
            }
        }
    }
}

/// A board without stones scores nothing for Black and komi for White.
pub proof fn lemma_empty_board_score(cells: Seq<Option<StoneColor>>)
    requires
        forall|i: int| 0 <= i < cells.len() ==> #[trigger] cells[i] is None,
    ensures
        score_spec(cells) == (0usize, KOMI_HALF_POINTS),
{
    crate::board::lemma_all_empty_counts(cells);
}

/// While a ko point is marked and the ko rule is on, no move there is
/// allowed; in particular, after a move that took a single stone in a ko
/// shape, retaking at once on that stone's point is refused.
pub proof fn lemma_ko_point_refused(
    after: BoardState,
    p: (i32, i32),
    taken: Seq<(i32, i32)>,
    c: StoneColor,
    config: GoBoardConfig,
)
    requires
        config.enable_ko_rule,
        after.ko_position == ko_after(after.grid(), p, taken, config),
        after.ko_position is Some,
    ensures
        after.ko_position == Some(taken[0]),
        !move_allowed(after, taken[0], c, config),
{
}

} // verus!
