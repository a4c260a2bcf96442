use vstd::prelude::*;
use crate::atoms::{AtomType, Grid};

verus! {

/// Two cells touch: side by side, or, when `diagonal`, also corner to corner.
pub open spec fn touches(diagonal: bool, a: (i32, i32), b: (i32, i32)) -> bool {
    let dx = a.0 - b.0;
    let dy = a.1 - b.1;
    if diagonal {
        -1 <= dx <= 1 && -1 <= dy <= 1 && !(dx == 0 && dy == 0)
    } else {
        (dx == 0 && (dy == 1 || dy == -1)) || (dy == 0 && (dx == 1 || dx == -1))
    }
}

/// A cell inside the grid whose type satisfies `inside`.
pub open spec fn member<K>(g: Grid<K>, inside: spec_fn(AtomType) -> bool, c: (i32, i32)) -> bool {
    g.in_bounds(c.0, c.1) && inside(g.kind(c.0, c.1))
}

/// A non-empty walk through member cells, each step to a touching cell.
pub open spec fn is_walk<K>(g: Grid<K>, inside: spec_fn(AtomType) -> bool, diagonal: bool, p: Seq<(i32, i32)>) -> bool {
    &&& p.len() > 0
    &&& forall|i: int| 0 <= i < p.len() ==> member(g, inside, #[trigger] p[i])
    &&& forall|i: int| 0 <= i < p.len() - 1 ==> touches(diagonal, #[trigger] p[i], p[i + 1])
}

/// b can be reached from a through touching member cells.
pub open spec fn connected<K>(
    g: Grid<K>,
    inside: spec_fn(AtomType) -> bool,
    diagonal: bool,
    a: (i32, i32),
    b: (i32, i32),
) -> bool {
    exists|p: Seq<(i32, i32)>| #[trigger] is_walk(g, inside, diagonal, p) && p[0] == a && p.last() == b
}

/// A member cell reaches itself.
pub proof fn lemma_connected_self<K>(g: Grid<K>, inside: spec_fn(AtomType) -> bool, diagonal: bool, a: (i32, i32))
    requires
        member(g, inside, a),
    ensures
        connected(g, inside, diagonal, a, a),
{
    let p = seq![a];
    assert(is_walk(g, inside, diagonal, p));
}

/// A walk extends by one step to a touching member cell.
pub proof fn lemma_connected_step<K>(
    g: Grid<K>,
    inside: spec_fn(AtomType) -> bool,
    diagonal: bool,
    a: (i32, i32),
    b: (i32, i32),
    c: (i32, i32),
)
    requires
        connected(g, inside, diagonal, a, b),
        touches(diagonal, b, c),
        member(g, inside, c),
    ensures
        connected(g, inside, diagonal, a, c),
{
    let p = choose|p: Seq<(i32, i32)>| #[trigger] is_walk(g, inside, diagonal, p) && p[0] == a && p.last() == b;
    let q = p.push(c);
    assert forall|i: int| 0 <= i < q.len() - 1 implies touches(diagonal, #[trigger] q[i], q[i + 1]) by {
        if i < p.len() - 1 {
            assert(q[i] == p[i] && q[i + 1] == p[i + 1]);
        } else {
            assert(q[i] == b);
        }
    }
    assert forall|i: int| 0 <= i < q.len() implies member(g, inside, #[trigger] q[i]) by {
        if i < p.len() {
            assert(q[i] == p[i]);
        }
    }
    assert(is_walk(g, inside, diagonal, q));
}

/// Member cells reachable from a are members.
pub proof fn lemma_connected_member<K>(
    g: Grid<K>,
    inside: spec_fn(AtomType) -> bool,
    diagonal: bool,
    a: (i32, i32),
    b: (i32, i32),
)
    requires
        connected(g, inside, diagonal, a, b),
    ensures
        member(g, inside, a),
        member(g, inside, b),
{
    let p = choose|p: Seq<(i32, i32)>| #[trigger] is_walk(g, inside, diagonal, p) && p[0] == a && p.last() == b;
    assert(member(g, inside, p[0]));
    assert(member(g, inside, p[p.len() - 1]));
}

/// A set of cells closed under steps between touching member cells, holding
/// the first cell of a walk, holds its last cell too.
pub proof fn lemma_closed_holds_walk<K>(
    g: Grid<K>,
    inside: spec_fn(AtomType) -> bool,
    diagonal: bool,
    holds: spec_fn((i32, i32)) -> bool,
    p: Seq<(i32, i32)>,
)
    requires
        is_walk(g, inside, diagonal, p),
        holds(p[0]),
        forall|c: (i32, i32), d: (i32, i32)|
            #![trigger holds(c), holds(d)]
            holds(c) && member(g, inside, c) && member(g, inside, d) && touches(diagonal, c, d) ==> holds(d),
    ensures
        holds(p.last()),
    decreases p.len(),
{
    if p.len() > 1 {
        let q = p.drop_last();
        assert forall|i: int| 0 <= i < q.len() implies member(g, inside, #[trigger] q[i]) by {
            assert(q[i] == p[i]);
        }
        assert forall|i: int| 0 <= i < q.len() - 1 implies touches(diagonal, #[trigger] q[i], q[i + 1]) by {
            assert(q[i] == p[i] && q[i + 1] == p[i + 1]);
        }
        lemma_closed_holds_walk(g, inside, diagonal, holds, q);
        let c = p[p.len() - 2];
        let d = p[p.len() - 1];
        assert(touches(diagonal, p[p.len() - 2], p[p.len() - 2 + 1]));
        assert(member(g, inside, p[p.len() - 2]));
        assert(member(g, inside, p[p.len() - 1]));
        assert(holds(c));
    }
}

/// A set of cells that holds a and is closed under steps between touching
/// member cells holds every member cell connected to a.
pub proof fn lemma_closed_holds<K>(
    g: Grid<K>,
    inside: spec_fn(AtomType) -> bool,
    diagonal: bool,
    holds: spec_fn((i32, i32)) -> bool,
    a: (i32, i32),
    b: (i32, i32),
)
    requires
        connected(g, inside, diagonal, a, b),
        holds(a),
        forall|c: (i32, i32), d: (i32, i32)|
            #![trigger holds(c), holds(d)]
            holds(c) && member(g, inside, c) && member(g, inside, d) && touches(diagonal, c, d) ==> holds(d),
    ensures
        holds(b),
{
    let p = choose|p: Seq<(i32, i32)>| #[trigger] is_walk(g, inside, diagonal, p) && p[0] == a && p.last() == b;
    lemma_closed_holds_walk(g, inside, diagonal, holds, p);
}


/// Walks can be followed backwards.
pub proof fn lemma_connected_symmetric<K>(
    g: Grid<K>,
    inside: spec_fn(AtomType) -> bool,
    diagonal: bool,
    a: (i32, i32),
    b: (i32, i32),
)
    requires
        connected(g, inside, diagonal, a, b),
    ensures
        connected(g, inside, diagonal, b, a),
{
    let p = choose|p: Seq<(i32, i32)>| #[trigger] is_walk(g, inside, diagonal, p) && p[0] == a && p.last() == b;
    let q = p.reverse();
    assert forall|i: int| 0 <= i < q.len() implies member(g, inside, #[trigger] q[i]) by {
        assert(q[i] == p[p.len() - 1 - i]);
    }
    assert forall|i: int| 0 <= i < q.len() - 1 implies touches(diagonal, #[trigger] q[i], q[i + 1]) by {
        let k = p.len() - 2 - i;
        assert(q[i] == p[k + 1]);
        assert(q[i + 1] == p[k]);
        assert(touches(diagonal, p[k], p[k + 1]));
    }
    assert(q[0] == p[p.len() - 1]);
    assert(q.last() == p[0]);
    assert(is_walk(g, inside, diagonal, q));
}

/// Walks can be joined end to start.
pub proof fn lemma_connected_transitive<K>(
    g: Grid<K>,
    inside: spec_fn(AtomType) -> bool,
    diagonal: bool,
    a: (i32, i32),
    b: (i32, i32),
    c: (i32, i32),
)
    requires
        connected(g, inside, diagonal, a, b),
        connected(g, inside, diagonal, b, c),
    ensures
        connected(g, inside, diagonal, a, c),
{
    let p = choose|p: Seq<(i32, i32)>| #[trigger] is_walk(g, inside, diagonal, p) && p[0] == a && p.last() == b;
    let q = choose|q: Seq<(i32, i32)>| #[trigger] is_walk(g, inside, diagonal, q) && q[0] == b && q.last() == c;
    let r = p + q.drop_first();
    assert forall|i: int| 0 <= i < r.len() implies member(g, inside, #[trigger] r[i]) by {
        if i < p.len() {
            assert(r[i] == p[i]);
        } else {
            assert(r[i] == q[i - p.len() + 1]);
        }
    }
    assert forall|i: int| 0 <= i < r.len() - 1 implies touches(diagonal, #[trigger] r[i], r[i + 1]) by {
        if i < p.len() - 1 {
            assert(r[i] == p[i] && r[i + 1] == p[i + 1]);
        } else if i == p.len() - 1 {
            assert(r[i] == b);
            assert(r[i + 1] == q[1]);
            assert(touches(diagonal, q[0int], q[0int + 1]));
        } else {
            let k = i - p.len() + 1;
            assert(r[i] == q[k] && r[i + 1] == q[k + 1]);
        }
    }
    if q.len() == 1 {
        assert(r =~= p);
    } else {
        assert(r.last() == q.last());
    }
    assert(is_walk(g, inside, diagonal, r));
}

} // verus!
