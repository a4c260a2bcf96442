use vstd::prelude::*;
use crate::atoms::{cell_index, lemma_index_in_range, lemma_index_injective, Atom, AtomType, AtomWorld, Grid, Kinetics, spawned_as};
use crate::paths::{connected, lemma_closed_holds, lemma_connected_member, lemma_connected_self, lemma_connected_step, member, touches};
use crate::game::{lemma_paint_step, painted};

verus! {

/// The number of unmarked entries among the first `n`.
pub open spec fn unmarked(v: Seq<bool>, n: int) -> nat
    decreases n,
{
    if n <= 0 {
        0
    } else {
        unmarked(v, n - 1) + if !v[n - 1] {
            1nat
        } else {
            0nat
        }
    }
}

/// Marking an unmarked entry leaves one fewer unmarked entry among those
/// counted.
pub proof fn lemma_unmarked_mark(v: Seq<bool>, i: int, n: int)
    requires
        0 <= i < v.len(),
        0 <= n <= v.len(),
        !v[i],
    ensures
        unmarked(v.update(i, true), n) + (if i < n { 1nat } else { 0nat }) == unmarked(v, n),
    decreases n,
{
    if n > 0 {
        lemma_unmarked_mark(v, i, n - 1);
    }
}

/// How long an atom that an editor tool paints lives: fire 10 seconds, every
/// other type without end.
pub open spec fn paint_lifetime(t: AtomType) -> Option<u32> {
    if t == AtomType::Fire {
        Some(10u32)
    } else {
        None
    }
}

/// The temperature an atom that an editor tool paints starts at.
pub open spec fn paint_temperature(t: AtomType) -> i32 {
    if t == AtomType::Fire {
        700i32
    } else {
        20i32
    }
}

/// `a` is a freshly painted atom of type `t`.
pub open spec fn is_painted<K: Kinetics>(a: Atom<K>, t: AtomType) -> bool {
    spawned_as(a, t, paint_lifetime(t), paint_temperature(t))
}

/// The atom an editor tool paints: fire burns for 10 s at 700 degrees, every
/// other type is placed at room temperature without lifetime.
pub fn painted_atom<K: Kinetics>(atom_type: AtomType) -> (r: Atom<K>)
    ensures
        is_painted(r, atom_type),
{
    if atom_type == AtomType::Fire {
        Atom::spawn(atom_type, Some(10), 700)
    } else {
        Atom::spawn(atom_type, None, 20)
    }
}

pub open spec fn seen(v: Seq<bool>, w: usize, c: (i32, i32)) -> bool {
    v[cell_index(w, c.0, c.1)]
}

/// The predicate "has type t".
pub open spec fn kind_is(t: AtomType) -> spec_fn(AtomType) -> bool {
    |u: AtomType| u == t
}

/// The cells that a fill from `start` replaces: those reachable from it
/// through side-by-side cells of its own type.
pub open spec fn fill_region<K>(g: Grid<K>, start: (i32, i32), c: (i32, i32)) -> bool {
    connected(g, kind_is(g.kind(start.0, start.1)), false, start, c)
}

/// Cells not yet visited are as they were.
pub open spec fn fill_frame<K>(world: Grid<K>, g0: Grid<K>, v: Seq<bool>) -> bool {
    forall|i: int| 0 <= i < g0.atoms.len() && !v[i] ==> #[trigger] world.atoms[i] == g0.atoms[i]
}

/// Visited cells of the target type were reached from the start and filled;
/// other visited cells are as they were.
pub open spec fn fill_visited<K: Kinetics>(world: Grid<K>, g0: Grid<K>, v: Seq<bool>, target: AtomType, fill: AtomType, s: (i32, i32)) -> bool {
    forall|c: (i32, i32)|
        g0.in_bounds(c.0, c.1) && #[trigger] seen(v, g0.width, c) ==> if g0.kind(c.0, c.1) == target {
            is_painted(world.at(c.0, c.1), fill) && connected(g0, kind_is(target), false, s, c)
        } else {
            world.at(c.0, c.1) == g0.at(c.0, c.1)
        }
}

/// Pending cells lie at most one step outside the grid, and those of the
/// target type were reached from the start.
pub open spec fn fill_pending<K>(g0: Grid<K>, stack: Seq<(i32, i32)>, target: AtomType, s: (i32, i32)) -> bool {
    forall|j: int|
        0 <= j < stack.len() ==> -1 <= (#[trigger] stack[j]).0 <= g0.width && -1 <= stack[j].1 <= g0.height && (
        member(g0, kind_is(target), stack[j]) ==> connected(g0, kind_is(target), false, s, stack[j]))
}

/// Every target-type neighbour of a visited target-type cell is visited or
/// pending, and so is the start.
pub open spec fn fill_closed<K>(g0: Grid<K>, v: Seq<bool>, stack: Seq<(i32, i32)>, target: AtomType, s: (i32, i32)) -> bool {
    &&& forall|c: (i32, i32), d: (i32, i32)|
        #![trigger seen(v, g0.width, c), seen(v, g0.width, d)]
        member(g0, kind_is(target), c) && seen(v, g0.width, c) && member(g0, kind_is(target), d) && touches(false, c, d)
            ==> seen(v, g0.width, d) || stack.contains(d)
    &&& seen(v, g0.width, s) || stack.contains(s)
}

pub open spec fn fill_state<K: Kinetics>(
    world: Grid<K>,
    g0: Grid<K>,
    v: Seq<bool>,
    stack: Seq<(i32, i32)>,
    target: AtomType,
    fill: AtomType,
    s: (i32, i32),
) -> bool {
    &&& world.wf()
    &&& world.addressable()
    &&& world.width == g0.width
    &&& world.height == g0.height
    &&& world.updated == g0.updated
    &&& v.len() == g0.atoms.len()
    &&& target != fill
    &&& member(g0, kind_is(target), s)
    &&& fill_frame(world, g0, v)
    &&& fill_visited(world, g0, v, target, fill, s)
    &&& fill_pending(g0, stack, target, s)
    &&& fill_closed(g0, v, stack, target, s)
}

proof fn lemma_pop_contains(st: Seq<(i32, i32)>, p: (i32, i32), d: (i32, i32))
    requires
        st.push(p).contains(d),
        d != p,
    ensures
        st.contains(d),
{
    let j = choose|j: int| 0 <= j < st.push(p).len() && st.push(p)[j] == d;
    assert(st[j] == d);
}

proof fn lemma_push_contains(st: Seq<(i32, i32)>, p: (i32, i32), d: (i32, i32))
    requires
        st.contains(d) || d == p,
    ensures
        st.push(p).contains(d),
{
    if d == p {
        assert(st.push(p)[st.len() as int] == p);
    } else {
        let j = choose|j: int| 0 <= j < st.len() && st[j] == d;
        assert(st.push(p)[j] == d);
    }
}

/// Dropping a pending cell that lies outside the grid keeps the state.
proof fn lemma_fill_skip<K: Kinetics>(
    world: Grid<K>,
    g0: Grid<K>,
    v: Seq<bool>,
    st: Seq<(i32, i32)>,
    p: (i32, i32),
    target: AtomType,
    fill: AtomType,
    s: (i32, i32),
)
    requires
        fill_state(world, g0, v, st.push(p), target, fill, s),
        !member(g0, kind_is(target), p) || seen(v, g0.width, p),
    ensures
        fill_state(world, g0, v, st, target, fill, s),
{
    let old_stack = st.push(p);
    assert forall|c: (i32, i32), d: (i32, i32)|
        #![trigger seen(v, g0.width, c), seen(v, g0.width, d)]
        member(g0, kind_is(target), c) && seen(v, g0.width, c) && member(g0, kind_is(target), d) && touches(false, c, d)
            implies seen(v, g0.width, d) || st.contains(d) by {
        if !seen(v, g0.width, d) {
            lemma_pop_contains(st, p, d);
        }
    }
    if !seen(v, g0.width, s) {
        lemma_pop_contains(st, p, s);
    }
    assert forall|j: int| 0 <= j < st.len() implies -1 <= (#[trigger] st[j]).0 <= g0.width && -1 <= st[j].1 <= g0.height
        && (member(g0, kind_is(target), st[j]) ==> connected(g0, kind_is(target), false, s, st[j])) by {
        assert(st[j] == old_stack[j]);
    }
}


/// Marking the entry of p as visited visits p and nothing else.
proof fn lemma_seen_mark<K>(g: Grid<K>, v: Seq<bool>, p: (i32, i32), c: (i32, i32))
    requires
        g.in_bounds(p.0, p.1),
        g.in_bounds(c.0, c.1),
        v.len() == g.width * g.height,
    ensures
        seen(v.update(cell_index(g.width, p.0, p.1), true), g.width, c) == (c == p || seen(v, g.width, c)),
{
    lemma_index_in_range(g, p.0, p.1);
    lemma_index_in_range(g, c.0, c.1);
    if cell_index(g.width, p.0, p.1) == cell_index(g.width, c.0, c.1) {
        lemma_index_injective(g, p.0, p.1, c.0, c.1);
    }
}

/// Visiting a pending cell of another type only marks it.
proof fn lemma_fill_visit_other<K: Kinetics>(
    world: Grid<K>,
    g0: Grid<K>,
    v: Seq<bool>,
    st: Seq<(i32, i32)>,
    p: (i32, i32),
    target: AtomType,
    fill: AtomType,
    s: (i32, i32),
)
    requires
        fill_state(world, g0, v, st.push(p), target, fill, s),
        g0.wf(),
        g0.in_bounds(p.0, p.1),
        !seen(v, g0.width, p),
        g0.kind(p.0, p.1) != target,
    ensures
        fill_state(world, g0, v.update(cell_index(g0.width, p.0, p.1), true), st, target, fill, s),
{
    let i = cell_index(g0.width, p.0, p.1);
    let v2 = v.update(i, true);
    lemma_index_in_range(g0, p.0, p.1);
    assert forall|c: (i32, i32)| g0.in_bounds(c.0, c.1) && #[trigger] seen(v2, g0.width, c) implies if g0.kind(c.0, c.1)
        == target {
        is_painted(world.at(c.0, c.1), fill) && connected(g0, kind_is(target), false, s, c)
    } else {
        world.at(c.0, c.1) == g0.at(c.0, c.1)
    } by {
        lemma_seen_mark(g0, v, p, c);
        if c == p {
            assert(world.atoms[i] == g0.atoms[i]);
        }
    }
    assert forall|c: (i32, i32), d: (i32, i32)|
        #![trigger seen(v2, g0.width, c), seen(v2, g0.width, d)]
        member(g0, kind_is(target), c) && seen(v2, g0.width, c) && member(g0, kind_is(target), d) && touches(false, c, d)
            implies seen(v2, g0.width, d) || st.contains(d) by {
        lemma_seen_mark(g0, v, p, c);
        lemma_seen_mark(g0, v, p, d);
        assert(c != p);
        assert(seen(v, g0.width, c));
        assert(seen(v, g0.width, d) || st.push(p).contains(d));
        if !seen(v, g0.width, d) {
            lemma_pop_contains(st, p, d);
        }
    }
    if !seen(v2, g0.width, s) {
        lemma_seen_mark(g0, v, p, s);
        lemma_pop_contains(st, p, s);
    }
    assert forall|j: int| 0 <= j < st.len() implies -1 <= (#[trigger] st[j]).0 <= g0.width && -1 <= st[j].1 <= g0.height
        && (member(g0, kind_is(target), st[j]) ==> connected(g0, kind_is(target), false, s, st[j])) by {
        assert(st[j] == st.push(p)[j]);
    }
}


/// The four side neighbours of p, in the order they are pushed.
pub open spec fn push_sides(st: Seq<(i32, i32)>, p: (i32, i32)) -> Seq<(i32, i32)> {
    st.push(((p.0 + 1) as i32, p.1)).push(((p.0 - 1) as i32, p.1)).push((p.0, (p.1 + 1) as i32)).push(
        (p.0, (p.1 - 1) as i32),
    )
}

/// Visiting a pending cell of the target type fills it and makes its side
/// neighbours pending.
proof fn lemma_fill_visit_target<K: Kinetics>(
    world: Grid<K>,
    g0: Grid<K>,
    v: Seq<bool>,
    st: Seq<(i32, i32)>,
    p: (i32, i32),
    a: Atom<K>,
    target: AtomType,
    fill: AtomType,
    s: (i32, i32),
)
    requires
        fill_state(world, g0, v, st.push(p), target, fill, s),
        g0.wf(),
        g0.in_bounds(p.0, p.1),
        !seen(v, g0.width, p),
        g0.kind(p.0, p.1) == target,
        is_painted(a, fill),
    ensures
        fill_state(
            world.set(p.0, p.1, a),
            g0,
            v.update(cell_index(g0.width, p.0, p.1), true),
            push_sides(st, p),
            target,
            fill,
            s,
        ),
{
    let i = cell_index(g0.width, p.0, p.1);
    let v2 = v.update(i, true);
    let w2 = world.set(p.0, p.1, a);
    let st2 = push_sides(st, p);
    let old_stack = st.push(p);
    lemma_index_in_range(g0, p.0, p.1);
    crate::atoms::lemma_size_cast(g0.width);
    crate::atoms::lemma_size_cast(g0.height);
    assert(old_stack[old_stack.len() - 1] == p);
    assert(connected(g0, kind_is(target), false, s, p));
    assert forall|j: int| 0 <= j < g0.atoms.len() && !v2[j] implies #[trigger] w2.atoms[j] == g0.atoms[j] by {
        assert(j != i);
        assert(world.atoms[j] == g0.atoms[j]);
    }
    assert forall|c: (i32, i32)| g0.in_bounds(c.0, c.1) && #[trigger] seen(v2, g0.width, c) implies if g0.kind(c.0, c.1)
        == target {
        is_painted(w2.at(c.0, c.1), fill) && connected(g0, kind_is(target), false, s, c)
    } else {
        w2.at(c.0, c.1) == g0.at(c.0, c.1)
    } by {
        lemma_seen_mark(g0, v, p, c);
        lemma_index_in_range(g0, c.0, c.1);
        if c != p {
            if cell_index(g0.width, c.0, c.1) == i {
                lemma_index_injective(g0, c.0, c.1, p.0, p.1);
            }
            assert(w2.at(c.0, c.1) == world.at(c.0, c.1));
        }
    }
    let r = ((p.0 + 1) as i32, p.1);
    let l = ((p.0 - 1) as i32, p.1);
    let dn = (p.0, (p.1 + 1) as i32);
    let up = (p.0, (p.1 - 1) as i32);
    assert(st2 == st.push(r).push(l).push(dn).push(up));
    assert forall|j: int| 0 <= j < st2.len() implies -1 <= (#[trigger] st2[j]).0 <= g0.width && -1 <= st2[j].1
        <= g0.height && (member(g0, kind_is(target), st2[j]) ==> connected(g0, kind_is(target), false, s, st2[j])) by {
        if j < st.len() {
            assert(st2[j] == st[j]);
            assert(st[j] == old_stack[j]);
        } else {
            if member(g0, kind_is(target), st2[j]) {
                lemma_connected_step(g0, kind_is(target), false, s, p, st2[j]);
            }
        }
    }
    assert forall|d: (i32, i32)| st.contains(d) implies st2.contains(d) by {
        lemma_push_contains(st, r, d);
        lemma_push_contains(st.push(r), l, d);
        lemma_push_contains(st.push(r).push(l), dn, d);
        lemma_push_contains(st.push(r).push(l).push(dn), up, d);
    }
    assert forall|c: (i32, i32), d: (i32, i32)|
        #![trigger seen(v2, g0.width, c), seen(v2, g0.width, d)]
        member(g0, kind_is(target), c) && seen(v2, g0.width, c) && member(g0, kind_is(target), d) && touches(false, c, d)
            implies seen(v2, g0.width, d) || st2.contains(d) by {
        lemma_seen_mark(g0, v, p, c);
        lemma_seen_mark(g0, v, p, d);
        if c == p {
            if d == r {
                lemma_push_contains(st, r, d);
                lemma_push_contains(st.push(r), l, d);
                lemma_push_contains(st.push(r).push(l), dn, d);
                lemma_push_contains(st.push(r).push(l).push(dn), up, d);
            } else if d == l {
                lemma_push_contains(st.push(r), l, d);
                lemma_push_contains(st.push(r).push(l), dn, d);
                lemma_push_contains(st.push(r).push(l).push(dn), up, d);
            } else if d == dn {
                lemma_push_contains(st.push(r).push(l), dn, d);
                lemma_push_contains(st.push(r).push(l).push(dn), up, d);
            } else {
                assert(d == up);
                lemma_push_contains(st.push(r).push(l).push(dn), up, d);
            }
        } else {
            assert(seen(v, g0.width, c));
            if !seen(v, g0.width, d) && d != p {
                lemma_pop_contains(st, p, d);
            }
        }
    }
    if !seen(v2, g0.width, s) {
        lemma_seen_mark(g0, v, p, s);
        lemma_pop_contains(st, p, s);
    }
}


proof fn lemma_fill_init<K: Kinetics>(g0: Grid<K>, v: Seq<bool>, s: (i32, i32), fill: AtomType)
    requires
        g0.wf(),
        g0.addressable(),
        g0.in_bounds(s.0, s.1),
        g0.kind(s.0, s.1) != fill,
        v.len() == g0.atoms.len(),
        forall|j: int| 0 <= j < v.len() ==> !v[j],
    ensures
        fill_state(g0, g0, v, seq![s], g0.kind(s.0, s.1), fill, s),
{
    let target = g0.kind(s.0, s.1);
    lemma_connected_self(g0, kind_is(target), false, s);
    crate::atoms::lemma_size_cast(g0.width);
    crate::atoms::lemma_size_cast(g0.height);
    assert forall|c: (i32, i32)| g0.in_bounds(c.0, c.1) implies !#[trigger] seen(v, g0.width, c) by {
        lemma_index_in_range(g0, c.0, c.1);
    }
    assert(seq![s][0] == s);
}

proof fn lemma_fill_done<K: Kinetics>(world: Grid<K>, g0: Grid<K>, v: Seq<bool>, target: AtomType, fill: AtomType, s: (i32, i32))
    requires
        fill_state(world, g0, v, Seq::empty(), target, fill, s),
        g0.wf(),
        target == g0.kind(s.0, s.1),
    ensures
        forall|x: i32, y: i32|
            g0.in_bounds(x, y) ==> if fill_region(g0, s, (x, y)) {
                is_painted(#[trigger] world.at(x, y), fill)
            } else {
                world.at(x, y) == g0.at(x, y)
            },
{
    let holds = |c: (i32, i32)| seen(v, g0.width, c);
    assert forall|x: i32, y: i32| g0.in_bounds(x, y) implies if fill_region(g0, s, (x, y)) {
        is_painted(#[trigger] world.at(x, y), fill)
    } else {
        world.at(x, y) == g0.at(x, y)
    } by {
        let c = (x, y);
        lemma_index_in_range(g0, x, y);
        if fill_region(g0, s, c) {
            assert forall|a: (i32, i32), b: (i32, i32)|
                #![trigger holds(a), holds(b)]
                holds(a) && member(g0, kind_is(target), a) && member(g0, kind_is(target), b) && touches(false, a, b)
                    implies holds(b) by {
                assert(seen(v, g0.width, a));
                assert(!Seq::<(i32, i32)>::empty().contains(b));
            }
            assert(!Seq::<(i32, i32)>::empty().contains(s));
            lemma_closed_holds(g0, kind_is(target), false, holds, s, c);
            lemma_connected_member(g0, kind_is(target), false, s, c);
            assert(seen(v, g0.width, c));
        } else {
            if seen(v, g0.width, c) {
                assert(world.at(x, y) == g0.at(x, y));
            } else {
                assert(world.atoms[cell_index(g0.width, x, y)] == g0.atoms[cell_index(g0.width, x, y)]);
            }
        }
    }
}

/// Replaces the region of same-typed, side-by-side touching cells around
/// (start_x, start_y) with painted atoms of `fill_type`. Nothing happens when
/// the start lies outside or already has that type.
pub fn flood_fill_area<K: Kinetics>(world: &mut AtomWorld<K>, start_x: i32, start_y: i32, fill_type: AtomType)
    requires
        old(world).wf(),
        old(world)@.addressable(),
    ensures
        final(world).wf(),
        final(world).width == old(world).width,
        final(world).height == old(world).height,
        final(world)@.updated == old(world)@.updated,
        !old(world)@.in_bounds(start_x, start_y) || old(world)@.kind(start_x, start_y) == fill_type
            ==> final(world)@ == old(world)@,
        old(world)@.in_bounds(start_x, start_y) && old(world)@.kind(start_x, start_y) != fill_type
            ==> forall|x: i32, y: i32|
            old(world)@.in_bounds(x, y) ==> if fill_region(old(world)@, (start_x, start_y), (x, y)) {
                is_painted(#[trigger] final(world)@.at(x, y), fill_type)
            } else {
                final(world)@.at(x, y) == old(world)@.at(x, y)
            },
{
    let target = match world.get_atom(start_x, start_y) {
        Some(atom) => atom.atom_type,
        None => return ,
    };
    if target == fill_type {
        return ;
    }
    let ghost g0 = world@;
    let ghost s = (start_x, start_y);
    let n = world.atoms.len();
    let mut visited: Vec<bool> = Vec::new();
    let mut k: usize = 0;
    while k < n
        invariant
            k <= n,
            visited.len() == k,
            forall|j: int| 0 <= j < k ==> !visited@[j],
        decreases n - k,
    {
        visited.push(false);
        k = k + 1;
    }
    let mut stack: Vec<(i32, i32)> = Vec::new();
    stack.push((start_x, start_y));
    proof {
        assert(stack@ == seq![s]);
        lemma_fill_init(g0, visited@, s, fill_type);
    }
    while stack.len() > 0
        invariant
            fill_state(world@, g0, visited@, stack@, target, fill_type, s),
            g0.wf(),
            g0.addressable(),
            target == g0.kind(s.0, s.1),
            n == g0.atoms.len(),
        decreases 4 * unmarked(visited@, n as int) + stack.len(),
    {
        let ghost pre = stack@;
        let (x, y) = stack.pop().unwrap();
        let ghost st = stack@;
        assert(pre =~= st.push((x, y)));
        let ghost v0 = visited@;
        let ghost wg = world@;
        match world.get_index(x, y) {
            None => {
                proof {
                    lemma_fill_skip(wg, g0, v0, st, (x, y), target, fill_type, s);
                }
            },
            Some(idx) => {
                proof {
                    lemma_index_in_range(g0, x, y);
                }
                if visited[idx] {
                    proof {
                        lemma_fill_skip(wg, g0, v0, st, (x, y), target, fill_type, s);
                    }
                } else {
                    visited.set(idx, true);
                    proof {
                        lemma_unmarked_mark(v0, idx as int, n as int);
                    }
                    if world.atoms[idx].atom_type == target {
                        let a = painted_atom(fill_type);
                        proof {
                            lemma_fill_visit_target(wg, g0, v0, st, (x, y), a, target, fill_type, s);
                        }
                        world.set_atom(x, y, a);
                        stack.push((x + 1, y));
                        stack.push((x - 1, y));
                        stack.push((x, y + 1));
                        stack.push((x, y - 1));
                    } else {
                        proof {
                            lemma_fill_visit_other(wg, g0, v0, st, (x, y), target, fill_type, s);
                        }
                    }
                }
            },
        }
    }
    proof {
        assert(stack@ =~= Seq::<(i32, i32)>::empty());
        lemma_fill_done(world@, g0, visited@, target, fill_type, s);
    }
}


/// One recorded cell: its position and the atom it holds.
pub type CellRecord<K> = (i32, i32, Atom<K>);

/// The grid after writing each recorded atom at its position, in order.
pub open spec fn apply_records<K>(g: Grid<K>, records: Seq<CellRecord<K>>) -> Grid<K>
    decreases records.len(),
{
    if records.len() == 0 {
        g
    } else {
        let last = records.last();
        apply_records(g, records.drop_last()).set(last.0, last.1, last.2)
    }
}

/// `current` records, for the positions of `changes` in the same order, what
/// `g` holds there (an empty atom for positions outside).
pub open spec fn records_current<K>(g: Grid<K>, changes: Seq<CellRecord<K>>, current: Seq<CellRecord<K>>) -> bool {
    &&& current.len() == changes.len()
    &&& forall|i: int|
        0 <= i < changes.len() ==> (#[trigger] current[i]).0 == changes[i].0 && current[i].1 == changes[i].1 && (if g.in_bounds(
            changes[i].0,
            changes[i].1,
        ) {
            current[i].2 == g.at(changes[i].0, changes[i].1)
        } else {
            current[i].2.atom_type == AtomType::Empty
        })
}

/// Record i lands on cell index j.
pub open spec fn lands<K>(g: Grid<K>, r: CellRecord<K>, j: int) -> bool {
    g.in_bounds(r.0, r.1) && cell_index(g.width, r.0, r.1) == j
}

proof fn lemma_apply_records_shape<K>(g: Grid<K>, records: Seq<CellRecord<K>>)
    requires
        g.wf(),
    ensures
        apply_records(g, records).wf(),
        apply_records(g, records).width == g.width,
        apply_records(g, records).height == g.height,
        apply_records(g, records).updated == g.updated,
    decreases records.len(),
{
    if records.len() > 0 {
        lemma_apply_records_shape(g, records.drop_last());
        let last = records.last();
        let h = apply_records(g, records.drop_last());
        if h.in_bounds(last.0, last.1) {
            lemma_index_in_range(h, last.0, last.1);
        }
    }
}

/// A cell no record lands on keeps its atom.
proof fn lemma_apply_records_untouched<K>(g: Grid<K>, records: Seq<CellRecord<K>>, j: int)
    requires
        g.wf(),
        0 <= j < g.atoms.len(),
        forall|i: int| 0 <= i < records.len() ==> !lands(g, #[trigger] records[i], j),
    ensures
        apply_records(g, records).atoms[j] == g.atoms[j],
    decreases records.len(),
{
    if records.len() > 0 {
        let q = records.drop_last();
        assert forall|i: int| 0 <= i < q.len() implies !lands(g, #[trigger] q[i], j) by {
            assert(q[i] == records[i]);
        }
        lemma_apply_records_untouched(g, q, j);
        lemma_apply_records_shape(g, q);
        let last = records.last();
        assert(!lands(g, records[records.len() - 1], j));
        if g.in_bounds(last.0, last.1) {
            lemma_index_in_range(g, last.0, last.1);
        }
    }
}

/// A cell that some record lands on, where every record landing there holds
/// the atom a, ends up holding a.
proof fn lemma_apply_records_landed<K>(g: Grid<K>, records: Seq<CellRecord<K>>, j: int, a: Atom<K>)
    requires
        g.wf(),
        0 <= j < g.atoms.len(),
        exists|i: int| 0 <= i < records.len() && lands(g, #[trigger] records[i], j),
        forall|i: int| 0 <= i < records.len() && lands(g, #[trigger] records[i], j) ==> records[i].2 == a,
    ensures
        apply_records(g, records).atoms[j] == a,
    decreases records.len(),
{
    let q = records.drop_last();
    let last = records.last();
    lemma_apply_records_shape(g, q);
    if g.in_bounds(last.0, last.1) {
        lemma_index_in_range(g, last.0, last.1);
    }
    if lands(g, records[records.len() - 1], j) {
        assert(records[records.len() - 1].2 == a);
    } else {
        let i0 = choose|i: int| 0 <= i < records.len() && lands(g, #[trigger] records[i], j);
        assert(i0 < q.len());
        assert(q[i0] == records[i0]);
        assert forall|i: int| 0 <= i < q.len() && lands(g, #[trigger] q[i], j) implies q[i].2 == a by {
            assert(q[i] == records[i]);
        }
        lemma_apply_records_landed(g, q, j, a);
    }
}

/// Putting back what the cells held before a batch of changes restores the
/// world exactly: undoing and then redoing (or redoing and then undoing) an
/// edit gives back the world as it was.
pub proof fn lemma_restore_after_changes<K>(
    g: Grid<K>,
    changes: Seq<CellRecord<K>>,
    current: Seq<CellRecord<K>>,
)
    requires
        g.wf(),
        records_current(g, changes, current),
    ensures
        apply_records(apply_records(g, changes), current) == g,
{
    let h = apply_records(g, changes);
    let f = apply_records(h, current);
    lemma_apply_records_shape(g, changes);
    lemma_apply_records_shape(h, current);
    assert forall|j: int| 0 <= j < g.atoms.len() implies #[trigger] f.atoms[j] == g.atoms[j] by {
        if exists|i: int| 0 <= i < current.len() && lands(h, #[trigger] current[i], j) {
            let i0 = choose|i: int| 0 <= i < current.len() && lands(h, #[trigger] current[i], j);
            let p = (current[i0].0, current[i0].1);
            assert forall|i: int| 0 <= i < current.len() && lands(h, #[trigger] current[i], j) implies current[i].2
                == g.atoms[j] by {
                assert(current[i].0 == changes[i].0 && current[i].1 == changes[i].1);
                lemma_index_in_range(g, changes[i].0, changes[i].1);
            }
            lemma_apply_records_landed(h, current, j, g.atoms[j]);
        } else {
            lemma_apply_records_untouched(h, current, j);
            assert forall|i: int| 0 <= i < changes.len() implies !lands(g, #[trigger] changes[i], j) by {
                assert(current[i].0 == changes[i].0 && current[i].1 == changes[i].1);
                assert(!lands(h, current[i], j));
            }
            lemma_apply_records_untouched(g, changes, j);
        }
    }
    assert(f.atoms =~= g.atoms);
}


/// Some record names position (x, y).
pub open spec fn recorded_at<K>(records: Seq<CellRecord<K>>, x: i32, y: i32) -> bool {
    exists|i: int| 0 <= i < records.len() && (#[trigger] records[i]).0 == x && records[i].1 == y
}

/// `records` saves an edit from `before` to `after`: each record inside the
/// grid holds what `before` had at its position, and every cell that no
/// record names is the same in both.
pub open spec fn edit_recorded<K>(before: Grid<K>, after: Grid<K>, records: Seq<CellRecord<K>>) -> bool {
    &&& after.wf()
    &&& after.width == before.width
    &&& after.height == before.height
    &&& after.updated == before.updated
    &&& forall|i: int|
        0 <= i < records.len() && before.in_bounds((#[trigger] records[i]).0, records[i].1) ==> records[i].2
            == before.at(records[i].0, records[i].1)
    &&& forall|x: i32, y: i32|
        before.in_bounds(x, y) && !recorded_at(records, x, y) ==> #[trigger] after.at(x, y) == before.at(x, y)
}

/// Writing back the records that saved an edit gives back the world from
/// before the edit: undoing right after an edit restores the world.
pub proof fn lemma_undo_restores_edit<K>(before: Grid<K>, after: Grid<K>, records: Seq<CellRecord<K>>)
    requires
        before.wf(),
        before.addressable(),
        edit_recorded(before, after, records),
    ensures
        apply_records(after, records) == before,
{
    let f = apply_records(after, records);
    lemma_apply_records_shape(after, records);
    let w = before.width as int;
    let h = before.height as int;
    assert forall|j: int| 0 <= j < before.atoms.len() implies #[trigger] f.atoms[j] == before.atoms[j] by {
        assert(w > 0) by (nonlinear_arith)
            requires
                0 <= j < w * h,
                w >= 0,
                h >= 0,
        ;
        let xi = j % w;
        let yi = j / w;
        vstd::arithmetic::div_mod::lemma_fundamental_div_mod(j, w);
        assert(0 <= xi < w);
        assert(0 <= yi < h) by (nonlinear_arith)
            requires
                0 <= j < w * h,
                w > 0,
                yi == j / w,
                j == w * yi + xi,
                0 <= xi < w,
        ;
        let x = xi as i32;
        let y = yi as i32;
        assert(before.in_bounds(x, y));
        assert(cell_index(before.width, x, y) == j) by (nonlinear_arith)
            requires
                j == w * yi + xi,
                x == xi,
                y == yi,
                w == before.width,
        ;
        if exists|i: int| 0 <= i < records.len() && lands(after, #[trigger] records[i], j) {
            assert forall|i: int| 0 <= i < records.len() && lands(after, #[trigger] records[i], j) implies records[i].2
                == before.atoms[j] by {
                assert(before.in_bounds(records[i].0, records[i].1));
            }
            lemma_apply_records_landed(after, records, j, before.atoms[j]);
        } else {
            lemma_apply_records_untouched(after, records, j);
            if recorded_at(records, x, y) {
                let i = choose|i: int| 0 <= i < records.len() && (#[trigger] records[i]).0 == x && records[i].1 == y;
                assert(lands(after, records[i], j));
            }
            assert(after.at(x, y) == before.at(x, y));
        }
    }
    assert(f.atoms =~= before.atoms);
}

/// Writing back records whose positions are distinct leaves, at the position
/// of each record inside the grid, that record's atom: right after an undo,
/// every cell of the undone batch holds what the batch saved.
pub proof fn lemma_apply_distinct_records<K>(g: Grid<K>, records: Seq<CellRecord<K>>, i: int)
    requires
        g.wf(),
        0 <= i < records.len(),
        g.in_bounds(records[i].0, records[i].1),
        forall|a: int, b: int|
            0 <= a < b < records.len() ==> (#[trigger] records[a].0, records[a].1) != (#[trigger] records[b].0, records[b].1),
    ensures
        apply_records(g, records).at(records[i].0, records[i].1) == records[i].2,
{
    let j = cell_index(g.width, records[i].0, records[i].1);
    lemma_index_in_range(g, records[i].0, records[i].1);
    assert(lands(g, records[i], j));
    assert forall|k: int| 0 <= k < records.len() && lands(g, #[trigger] records[k], j) implies records[k].2
        == records[i].2 by {
        lemma_index_injective(g, records[k].0, records[k].1, records[i].0, records[i].1);
        if k < i {
            assert((records[k].0, records[k].1) != (records[i].0, records[i].1));
        } else if k > i {
            assert((records[i].0, records[i].1) != (records[k].0, records[k].1));
        }
    }
    lemma_apply_records_landed(g, records, j, records[i].2);
    lemma_apply_records_shape(g, records);
}

/// What `world` holds at each recorded position, in order; an empty atom for
/// positions outside.
fn record_current<K: Kinetics>(world: &AtomWorld<K>, changes: &Vec<CellRecord<K>>) -> (current: Vec<CellRecord<K>>)
    requires
        world.wf(),
    ensures
        records_current(world@, changes@, current@),
{
    let mut current: Vec<CellRecord<K>> = Vec::new();
    let mut i: usize = 0;
    while i < changes.len()
        invariant
            world.wf(),
            i <= changes.len(),
            current.len() == i,
            forall|k: int|
                0 <= k < i ==> (#[trigger] current@[k]).0 == changes@[k].0 && current@[k].1 == changes@[k].1 && (if world@.in_bounds(
                    changes@[k].0,
                    changes@[k].1,
                ) {
                    current@[k].2 == world@.at(changes@[k].0, changes@[k].1)
                } else {
                    current@[k].2.atom_type == AtomType::Empty
                }),
        decreases changes.len() - i,
    {
        let (x, y, _) = changes[i];
        let atom = match world.get_atom(x, y) {
            Some(a) => *a,
            None => Atom::default(),
        };
        current.push((x, y, atom));
        i = i + 1;
    }
    current
}

/// Writes each recorded atom at its position, in order.
fn apply_changes<K: Kinetics>(world: &mut AtomWorld<K>, changes: &Vec<CellRecord<K>>)
    requires
        old(world).wf(),
    ensures
        final(world).wf(),
        final(world)@ == apply_records(old(world)@, changes@),
{
    let mut i: usize = 0;
    while i < changes.len()
        invariant
            world.wf(),
            i <= changes.len(),
            world@ == apply_records(old(world)@, changes@.take(i as int)),
        decreases changes.len() - i,
    {
        let (x, y, a) = changes[i];
        assert(changes@.take(i + 1).drop_last() =~= changes@.take(i as int));
        world.set_atom(x, y, a);
        i = i + 1;
    }
    assert(changes@.take(i as int) =~= changes@);
}

/// Batches of cell changes that can be undone and redone.
pub struct EditorHistory<K> {
    pub undo_stack: Vec<Vec<CellRecord<K>>>,
    pub redo_stack: Vec<Vec<CellRecord<K>>>,
    pub max_history: usize,
}

impl<K: Kinetics> Default for EditorHistory<K> {
    fn default() -> (r: Self)
        ensures
            r.undo_stack@.len() == 0,
            r.redo_stack@.len() == 0,
            r.max_history == 50,
    {
        EditorHistory { undo_stack: Vec::new(), redo_stack: Vec::new(), max_history: 50 }
    }
}

impl<K: Kinetics> EditorHistory<K> {
    /// Takes the latest batch off `from`, records what the world holds at its
    /// positions onto `to`, then writes the batch into the world.
    fn replay(from: &mut Vec<Vec<CellRecord<K>>>, to: &mut Vec<Vec<CellRecord<K>>>, world: &mut AtomWorld<K>)
        requires
            old(world).wf(),
        ensures
            final(world).wf(),
            old(from)@.len() == 0 ==> final(from)@ == old(from)@ && final(to)@ == old(to)@ && final(world)@ == old(
                world,
            )@,
            old(from)@.len() > 0 ==> {
                &&& final(from)@ == old(from)@.drop_last()
                &&& final(to)@.len() == old(to)@.len() + 1
                &&& final(to)@.drop_last() == old(to)@
                &&& records_current(old(world)@, old(from)@.last()@, final(to)@.last()@)
                &&& final(world)@ == apply_records(old(world)@, old(from)@.last()@)
            },
    {
        if let Some(changes) = from.pop() {
            let current = record_current(world, &changes);
            to.push(current);
            apply_changes(world, &changes);
            assert(final(to)@.drop_last() =~= old(to)@);
        }
    }

    /// Puts back the latest undone batch, saving what it overwrites for redo.
    pub fn undo(&mut self, world: &mut AtomWorld<K>)
        requires
            old(world).wf(),
        ensures
            final(world).wf(),
            final(self).max_history == old(self).max_history,
            old(self).undo_stack@.len() == 0 ==> final(self).undo_stack@ == old(self).undo_stack@
                && final(self).redo_stack@ == old(self).redo_stack@ && final(world)@ == old(world)@,
            old(self).undo_stack@.len() > 0 ==> {
                &&& final(self).undo_stack@ == old(self).undo_stack@.drop_last()
                &&& final(self).redo_stack@.len() == old(self).redo_stack@.len() + 1
                &&& final(self).redo_stack@.drop_last() == old(self).redo_stack@
                &&& records_current(old(world)@, old(self).undo_stack@.last()@, final(self).redo_stack@.last()@)
                &&& final(world)@ == apply_records(old(world)@, old(self).undo_stack@.last()@)
            },
    {
        Self::replay(&mut self.undo_stack, &mut self.redo_stack, world);
    }

    /// Applies the latest redo batch again, saving what it overwrites for undo.
    pub fn redo(&mut self, world: &mut AtomWorld<K>)
        requires
            old(world).wf(),
        ensures
            final(world).wf(),
            final(self).max_history == old(self).max_history,
            old(self).redo_stack@.len() == 0 ==> final(self).undo_stack@ == old(self).undo_stack@
                && final(self).redo_stack@ == old(self).redo_stack@ && final(world)@ == old(world)@,
            old(self).redo_stack@.len() > 0 ==> {
                &&& final(self).redo_stack@ == old(self).redo_stack@.drop_last()
                &&& final(self).undo_stack@.len() == old(self).undo_stack@.len() + 1
                &&& final(self).undo_stack@.drop_last() == old(self).undo_stack@
                &&& records_current(old(world)@, old(self).redo_stack@.last()@, final(self).undo_stack@.last()@)
                &&& final(world)@ == apply_records(old(world)@, old(self).redo_stack@.last()@)
            },
    {
        Self::replay(&mut self.redo_stack, &mut self.undo_stack, world);
    }
}

/// The undo stack before a new batch goes on top: the oldest batch is
/// dropped when the new one would take it past `max_history`.
pub open spec fn kept_history<T>(stack: Seq<T>, max_history: usize) -> Seq<T> {
    if stack.len() + 1 > max_history && stack.len() > 0 {
        stack.drop_first()
    } else {
        stack
    }
}

/// What `world` holds at each of `cells`, in order; an empty atom for cells
/// outside.
fn record_cells<K: Kinetics>(world: &AtomWorld<K>, cells: &Vec<(i32, i32)>) -> (records: Vec<CellRecord<K>>)
    requires
        world.wf(),
    ensures
        records@.len() == cells@.len(),
        forall|i: int|
            0 <= i < cells@.len() ==> (#[trigger] records@[i]).0 == cells@[i].0 && records@[i].1 == cells@[i].1 && (
            world@.in_bounds(cells@[i].0, cells@[i].1) ==> records@[i].2 == world@.at(cells@[i].0, cells@[i].1)),
{
    let mut records: Vec<CellRecord<K>> = Vec::new();
    let mut i: usize = 0;
    while i < cells.len()
        invariant
            world.wf(),
            i <= cells.len(),
            records.len() == i,
            forall|k: int|
                0 <= k < i ==> (#[trigger] records@[k]).0 == cells@[k].0 && records@[k].1 == cells@[k].1 && (
                world@.in_bounds(cells@[k].0, cells@[k].1) ==> records@[k].2 == world@.at(cells@[k].0, cells@[k].1)),
        decreases cells.len() - i,
    {
        let (x, y) = cells[i];
        let atom = match world.get_atom(x, y) {
            Some(a) => *a,
            None => Atom::default(),
        };
        records.push((x, y, atom));
        i = i + 1;
    }
    records
}

impl<K: Kinetics> EditorHistory<K> {
    /// Puts a new batch on the undo stack, dropping the oldest beyond
    /// `max_history`, and empties the redo stack.
    fn push_batch(&mut self, batch: Vec<CellRecord<K>>)
        ensures
            final(self).max_history == old(self).max_history,
            final(self).redo_stack@.len() == 0,
            final(self).undo_stack@ == kept_history(old(self).undo_stack@, old(self).max_history).push(batch),
    {
        if self.undo_stack.len() >= self.max_history && self.undo_stack.len() > 0 {
            self.undo_stack.remove(0);
        }
        self.undo_stack.push(batch);
        self.redo_stack = Vec::new();
    }

    /// Paints `cells` as `draw_cells` does, as one edit that can be undone:
    /// what the cells held before goes on the undo stack (see `push_batch`).
    /// With no cells listed nothing changes.
    pub fn paint(&mut self, world: &mut AtomWorld<K>, cells: &Vec<(i32, i32)>, atom_type: AtomType)
        requires
            old(world).wf(),
        ensures
            painted(old(world)@, final(world)@, |a: Atom<K>| is_painted(a, atom_type), |x: i32, y: i32| cells@.contains((x, y))),
            final(self).max_history == old(self).max_history,
            cells@.len() == 0 ==> final(world)@ == old(world)@ && final(self).undo_stack@ == old(self).undo_stack@
                && final(self).redo_stack@ == old(self).redo_stack@,
            cells@.len() > 0 ==> {
                &&& final(self).redo_stack@.len() == 0
                &&& final(self).undo_stack@.len() > 0
                &&& final(self).undo_stack@.drop_last() == kept_history(old(self).undo_stack@, old(self).max_history)
                &&& edit_recorded(old(world)@, final(world)@, final(self).undo_stack@.last()@)
            },
    {
        let ghost g0 = world@;
        if cells.len() == 0 {
            proof {
                assert forall|x: i32, y: i32| !#[trigger] cells@.contains((x, y)) by {}
                assert(world@.atoms =~= g0.atoms);
            }
            assert(painted(g0, world@, |a: Atom<K>| is_painted(a, atom_type), |x: i32, y: i32| cells@.contains((x, y))));
            return ;
        }
        let batch = record_cells(world, cells);
        draw_cells(world, cells, atom_type);
        proof {
            let g1 = world@;
            assert forall|x: i32, y: i32| g0.in_bounds(x, y) && !recorded_at(batch@, x, y) implies #[trigger] g1.at(x, y)
                == g0.at(x, y) by {
                if cells@.contains((x, y)) {
                    let i = choose|i: int| 0 <= i < cells@.len() && cells@[i] == (x, y);
                    assert(batch@[i].0 == x && batch@[i].1 == y);
                }
            }
        }
        self.push_batch(batch);
        assert(final(self).undo_stack@.drop_last() =~= kept_history(old(self).undo_stack@, old(self).max_history));
    }

    /// Fills as `flood_fill_area` does, as one edit that can be undone: when
    /// the fill changes the world, what each filled cell held before goes on
    /// the undo stack (see `push_batch`); otherwise the history is unchanged.
    pub fn fill(&mut self, world: &mut AtomWorld<K>, start_x: i32, start_y: i32, fill_type: AtomType)
        requires
            old(world).wf(),
            old(world)@.addressable(),
        ensures
            final(world).wf(),
            final(world).width == old(world).width,
            final(world).height == old(world).height,
            final(world)@.updated == old(world)@.updated,
            !old(world)@.in_bounds(start_x, start_y) || old(world)@.kind(start_x, start_y) == fill_type
                ==> final(world)@ == old(world)@ && final(self).undo_stack@ == old(self).undo_stack@
                && final(self).redo_stack@ == old(self).redo_stack@ && final(self).max_history == old(self).max_history,
            old(world)@.in_bounds(start_x, start_y) && old(world)@.kind(start_x, start_y) != fill_type ==> {
                &&& forall|x: i32, y: i32|
                    old(world)@.in_bounds(x, y) ==> if fill_region(old(world)@, (start_x, start_y), (x, y)) {
                        is_painted(#[trigger] final(world)@.at(x, y), fill_type)
                    } else {
                        final(world)@.at(x, y) == old(world)@.at(x, y)
                    }
                &&& final(self).max_history == old(self).max_history
                &&& final(self).redo_stack@.len() == 0
                &&& final(self).undo_stack@.len() > 0
                &&& final(self).undo_stack@.drop_last() == kept_history(old(self).undo_stack@, old(self).max_history)
                &&& edit_recorded(old(world)@, final(world)@, final(self).undo_stack@.last()@)
            },
    {
        let target = match world.get_atom(start_x, start_y) {
            Some(atom) => atom.atom_type,
            None => return ,
        };
        if target == fill_type {
            return ;
        }
        let ghost g0 = world@;
        let n = world.atoms.len();
        let mut before: Vec<Atom<K>> = Vec::new();
        let mut k: usize = 0;
        while k < n
            invariant
                k <= n,
                n == world.atoms@.len(),
                before@ == world.atoms@.take(k as int),
            decreases n - k,
        {
            before.push(world.atoms[k]);
            assert(before@ =~= world.atoms@.take(k + 1));
            k = k + 1;
        }
        assert(before@ =~= g0.atoms);
        flood_fill_area(world, start_x, start_y, fill_type);
        let ghost g1 = world@;
        let w = world.width;
        let h = world.height;
        proof {
            crate::atoms::lemma_size_cast(w);
            crate::atoms::lemma_size_cast(h);
        }
        let mut batch: Vec<CellRecord<K>> = Vec::new();
        let mut y: usize = 0;
        while y < h
            invariant
                g1 == world@,
                g0.wf(),
                g0.addressable(),
                g1.wf(),
                w == g0.width,
                h == g0.height,
                g1.width == w,
                g1.height == h,
                before@ == g0.atoms,
                y <= h,
                forall|i: int|
                    0 <= i < batch@.len() ==> g0.in_bounds((#[trigger] batch@[i]).0, batch@[i].1) && batch@[i].2 == g0.at(
                        batch@[i].0,
                        batch@[i].1,
                    ),
                forall|cx: i32, cy: i32|
                    g0.in_bounds(cx, cy) && cy < y && g1.kind(cx, cy) != g0.kind(cx, cy) ==> #[trigger] recorded_at(
                        batch@,
                        cx,
                        cy,
                    ),
            decreases h - y,
        {
            let mut x: usize = 0;
            while x < w
                invariant
                    g1 == world@,
                    g0.wf(),
                    g0.addressable(),
                    g1.wf(),
                    w == g0.width,
                    h == g0.height,
                    g1.width == w,
                    g1.height == h,
                    before@ == g0.atoms,
                    y < h,
                    x <= w,
                    forall|i: int|
                        0 <= i < batch@.len() ==> g0.in_bounds((#[trigger] batch@[i]).0, batch@[i].1) && batch@[i].2
                            == g0.at(batch@[i].0, batch@[i].1),
                    forall|cx: i32, cy: i32|
                        g0.in_bounds(cx, cy) && (cy < y || (cy == y && cx < x)) && g1.kind(cx, cy) != g0.kind(cx, cy)
                            ==> #[trigger] recorded_at(batch@, cx, cy),
                decreases w - x,
            {
                let xi = x as i32;
                let yi = y as i32;
                proof {
                    assert(g0.in_bounds(xi, yi));
                    lemma_index_in_range(g0, xi, yi);
                }
                let idx = world.get_index(xi, yi).unwrap();
                let ghost old_batch = batch@;
                if world.atoms[idx].atom_type != before[idx].atom_type {
                    batch.push((xi, yi, before[idx]));
                    proof {
                        assert(batch@[old_batch.len() as int] == (xi, yi, before@[idx as int]));
                        assert(recorded_at(batch@, xi, yi));
                    }
                }
                proof {
                    assert forall|cx: i32, cy: i32|
                        g0.in_bounds(cx, cy) && (cy < y || (cy == y && cx < x + 1)) && g1.kind(cx, cy) != g0.kind(cx, cy)
                            implies #[trigger] recorded_at(batch@, cx, cy) by {
                        if recorded_at(old_batch, cx, cy) {
                            let i = choose|i: int| 0 <= i < old_batch.len() && (#[trigger] old_batch[i]).0 == cx && old_batch[i].1 == cy;
                            assert(batch@[i] == old_batch[i]);
                        }
                    }
                    assert forall|i: int| 0 <= i < batch@.len() implies g0.in_bounds((#[trigger] batch@[i]).0, batch@[i].1)
                        && batch@[i].2 == g0.at(batch@[i].0, batch@[i].1) by {
                        if i < old_batch.len() {
                            assert(batch@[i] == old_batch[i]);
                        }
                    }
                }
                x = x + 1;
            }
            y = y + 1;
        }
        proof {
            assert forall|x: i32, y: i32| g0.in_bounds(x, y) && !recorded_at(batch@, x, y) implies #[trigger] g1.at(x, y)
                == g0.at(x, y) by {
                if fill_region(g0, (start_x, start_y), (x, y)) {
                    lemma_connected_member(g0, kind_is(target), false, (start_x, start_y), (x, y));
                    assert(g1.kind(x, y) == fill_type);
                }
            }
        }
        self.push_batch(batch);
        assert(final(self).undo_stack@.drop_last() =~= kept_history(old(self).undo_stack@, old(self).max_history));
    }
}

/// Undoing the latest edit and then redoing it gives back the world as it
/// was, and leaves the redo stack as it was.
pub proof fn lemma_undo_then_redo<K>(
    g: Grid<K>,
    undo_stack: Seq<Vec<CellRecord<K>>>,
    redo_stack: Seq<Vec<CellRecord<K>>>,
    saved: Vec<CellRecord<K>>,
)
    requires
        g.wf(),
        undo_stack.len() > 0,
        records_current(g, undo_stack.last()@, saved@),
    ensures
        apply_records(apply_records(g, undo_stack.last()@), redo_stack.push(saved).last()@) == g,
        redo_stack.push(saved).drop_last() == redo_stack,
{
    lemma_restore_after_changes(g, undo_stack.last()@, saved@);
    assert(redo_stack.push(saved).drop_last() =~= redo_stack);
}


/// What a click does in the level editor.
#[derive(Debug, Clone, Copy, PartialEq, Eq, Structural)]
pub enum EditorMode {
    /// Draw atoms.
    Draw,
    /// Erase atoms.
    Erase,
    /// Fill an area.
    Fill,
    /// Draw rectangles.
    Rectangle,
    /// Draw circles.
    Circle,
    /// Draw lines.
    Line,
    /// Place entities (enemies, hazards and so on).
    Entity,
}

/// What can be placed in a level besides atoms.
#[derive(Debug, Clone, Copy, PartialEq, Eq, Structural)]
pub enum EntityType {
    Enemy,
    Hazard,
    Collectible,
    SpawnPoint,
    Exit,
}

/// The level editor's state.
pub struct LevelEditor {
    pub is_active: bool,
    pub selected_atom_type: AtomType,
    pub brush_size: i32,
    pub mode: EditorMode,
    pub current_level_data: Vec<(i32, i32, AtomType)>,
}

/// The keys the editor reacts to that were pressed this frame.
#[derive(Debug, Clone, Copy)]
pub struct EditorKeys {
    /// `=`: a larger brush.
    pub grow: bool,
    /// `-`: a smaller brush.
    pub shrink: bool,
    /// `1` to `5`: sand, water, stone, acid, fire.
    pub digits: [bool; 5],
    /// `D`: draw mode.
    pub draw: bool,
    /// `E`: erase mode.
    pub erase: bool,
    /// `F`: fill mode.
    pub fill: bool,
    /// The mouse wheel turned up: a larger brush.
    pub wheel_up: bool,
    /// The mouse wheel turned down: a smaller brush.
    pub wheel_down: bool,
}

/// One size up, at most 20.
pub open spec fn grown_brush(size: int) -> int {
    if size + 1 < 20 {
        size + 1
    } else {
        20
    }
}

/// One size down, at least 1.
pub open spec fn shrunk_brush(size: int) -> int {
    if size - 1 > 1 {
        size - 1
    } else {
        1
    }
}

/// The brush size after growing when `up` and then shrinking when `down`.
pub open spec fn resized_brush(size: int, up: bool, down: bool) -> int {
    let g = if up {
        grown_brush(size)
    } else {
        size
    };
    if down {
        shrunk_brush(g)
    } else {
        g
    }
}

/// `resized_brush` on an `i32` size.
fn resize_brush(size: i32, up: bool, down: bool) -> (r: i32)
    ensures
        r == resized_brush(size as int, up, down),
{
    let mut s = size;
    if up {
        s = if s < 19 { s + 1 } else { 20 };
    }
    if down {
        s = if s > 2 { s - 1 } else { 1 };
    }
    s
}

/// The atom types selected by the keys `1` to `5`.
pub open spec fn digit_atom(i: int) -> AtomType {
    if i == 0 {
        AtomType::Sand
    } else if i == 1 {
        AtomType::Water
    } else if i == 2 {
        AtomType::Stone
    } else if i == 3 {
        AtomType::Acid
    } else {
        AtomType::Fire
    }
}

/// The atom type selected after the digit keys: the last digit pressed wins.
pub open spec fn selected_after(current: AtomType, digits: Seq<bool>) -> AtomType
    decreases digits.len(),
{
    if digits.len() == 0 {
        current
    } else if digits.last() {
        digit_atom(digits.len() - 1)
    } else {
        selected_after(current, digits.drop_last())
    }
}

impl Default for LevelEditor {
    fn default() -> (r: Self)
        ensures
            !r.is_active,
            r.selected_atom_type == AtomType::Stone,
            r.brush_size == 3,
            r.mode == EditorMode::Draw,
            r.current_level_data@.len() == 0,
    {
        LevelEditor {
            is_active: false,
            selected_atom_type: AtomType::Stone,
            brush_size: 3,
            mode: EditorMode::Draw,
            current_level_data: Vec::new(),
        }
    }
}

impl LevelEditor {
    /// Shows or hides the editor.
    pub fn toggle(&mut self)
        ensures
            final(self).is_active == !old(self).is_active,
            final(self).selected_atom_type == old(self).selected_atom_type,
            final(self).brush_size == old(self).brush_size,
            final(self).mode == old(self).mode,
            final(self).current_level_data@ == old(self).current_level_data@,
    {
        self.is_active = !self.is_active;
    }

    /// Reacts to the keys and the mouse wheel of one frame while the editor is
    /// active: the brush grows up to 20 and shrinks down to 1 by the keys, and
    /// then once more by the wheel; the digits pick the atom type and `D`,
    /// `E`, `F` the mode (the last of them pressed wins).
    pub fn apply_keys(&mut self, keys: EditorKeys)
        ensures
            final(self).is_active == old(self).is_active,
            final(self).current_level_data@ == old(self).current_level_data@,
            !old(self).is_active ==> final(self).brush_size == old(self).brush_size && final(self).selected_atom_type
                == old(self).selected_atom_type && final(self).mode == old(self).mode,
            1 <= old(self).brush_size <= 20 ==> 1 <= final(self).brush_size <= 20,
            old(self).is_active ==> {
                &&& final(self).brush_size == resized_brush(
                    resized_brush(old(self).brush_size as int, keys.grow, keys.shrink),
                    keys.wheel_up,
                    keys.wheel_down,
                )
                &&& final(self).selected_atom_type == selected_after(old(self).selected_atom_type, keys.digits@)
                &&& final(self).mode == if keys.fill {
                    EditorMode::Fill
                } else if keys.erase {
                    EditorMode::Erase
                } else if keys.draw {
                    EditorMode::Draw
                } else {
                    old(self).mode
                }
            },
    {
        if !self.is_active {
            return ;
        }
        let by_keys = resize_brush(self.brush_size, keys.grow, keys.shrink);
        self.brush_size = resize_brush(by_keys, keys.wheel_up, keys.wheel_down);
        let ghost start = self.selected_atom_type;
        let ghost size = self.brush_size;
        let mut i: usize = 0;
        while i < 5
            invariant
                0 <= i <= 5,
                self.is_active == old(self).is_active,
                self.current_level_data@ == old(self).current_level_data@,
                self.brush_size == size,
                self.mode == old(self).mode,
                keys.digits@.len() == 5,
                self.selected_atom_type == selected_after(start, keys.digits@.take(i as int)),
            decreases 5 - i,
        {
            if keys.digits[i] {
                self.selected_atom_type = match i {
                    0 => AtomType::Sand,
                    1 => AtomType::Water,
                    2 => AtomType::Stone,
                    3 => AtomType::Acid,
                    _ => AtomType::Fire,
                };
            }
            assert(keys.digits@.take(i + 1).drop_last() =~= keys.digits@.take(i as int));
            i = i + 1;
        }
        assert(keys.digits@.take(5) =~= keys.digits@);
        if keys.draw {
            self.mode = EditorMode::Draw;
        }
        if keys.erase {
            self.mode = EditorMode::Erase;
        }
        if keys.fill {
            self.mode = EditorMode::Fill;
        }
    }
}

/// The number of non-empty cells, which level validation reports.
pub fn count_atoms<K: Kinetics>(world: &AtomWorld<K>) -> (r: usize)
    requires
        world.wf(),
    ensures
        r == world@.count(),
{
    let n = world.atoms.len();
    let mut count: usize = 0;
    let mut i: usize = 0;
    while i < n
        invariant
            world.wf(),
            n == world.atoms@.len(),
            i <= n,
            count == world@.count_prefix(i as int),
            count <= i,
        decreases n - i,
    {
        if world.atoms[i].atom_type != AtomType::Empty {
            count = count + 1;
        }
        i = i + 1;
    }
    count
}

/// What pressing the mouse does in the editor's current mode.
#[derive(Debug, Clone, Copy, PartialEq, Eq, Structural)]
pub enum EditorStroke {
    /// Paint the cells under the brush with this type.
    Paint(AtomType),
    /// Fill the area under the cursor with this type.
    Fill(AtomType),
    /// Nothing.
    Nothing,
}

impl LevelEditor {
    /// Draw paints the selected type, erase paints empty cells, fill fills
    /// with the selected type; the other modes do nothing yet.
    pub fn stroke(&self) -> (r: EditorStroke)
        ensures
            r == match self.mode {
                EditorMode::Draw => EditorStroke::Paint(self.selected_atom_type),
                EditorMode::Erase => EditorStroke::Paint(AtomType::Empty),
                EditorMode::Fill => EditorStroke::Fill(self.selected_atom_type),
                _ => EditorStroke::Nothing,
            },
    {
        match self.mode {
            EditorMode::Draw => EditorStroke::Paint(self.selected_atom_type),
            EditorMode::Erase => EditorStroke::Paint(AtomType::Empty),
            EditorMode::Fill => EditorStroke::Fill(self.selected_atom_type),
            _ => EditorStroke::Nothing,
        }
    }
}

/// Puts a freshly painted atom of `atom_type` (see `painted_atom`) in each
/// listed cell; cells outside the world are skipped.
pub fn draw_cells<K: Kinetics>(world: &mut AtomWorld<K>, cells: &Vec<(i32, i32)>, atom_type: AtomType)
    requires
        old(world).wf(),
    ensures
        painted(old(world)@, final(world)@, |a: Atom<K>| is_painted(a, atom_type), |x: i32, y: i32| cells@.contains((x, y))),
{
    let ghost start = world@;
    let mut i: usize = 0;
    assert(painted(start, world@, |a: Atom<K>| is_painted(a, atom_type), |x: i32, y: i32| cells@.take(0).contains((x, y))));
    while i < cells.len()
        invariant
            0 <= i <= cells@.len(),
            world.wf(),
            painted(start, world@, |a: Atom<K>| is_painted(a, atom_type), |x: i32, y: i32| cells@.take(i as int).contains((x, y))),
        decreases cells@.len() - i,
    {
        let (x, y) = cells[i];
        let atom = painted_atom(atom_type);
        proof {
            let p = |cx: i32, cy: i32| cells@.take(i as int).contains((cx, cy));
            let q = |cx: i32, cy: i32| cells@.take(i + 1).contains((cx, cy));
            assert forall|cx: i32, cy: i32| #[trigger] q(cx, cy) == (p(cx, cy) || (cx == x && cy == y)) by {
                let t0 = cells@.take(i as int);
                let t1 = cells@.take(i + 1);
                assert(t1 =~= t0.push((x, y)));
                if t1.contains((cx, cy)) && (cx, cy) != (x, y) {
                    let k = choose|k: int| 0 <= k < t1.len() && t1[k] == (cx, cy);
                    assert(t0[k] == (cx, cy));
                }
                if t0.contains((cx, cy)) {
                    let k = choose|k: int| 0 <= k < t0.len() && t0[k] == (cx, cy);
                    assert(t1[k] == (cx, cy));
                }
                if cx == x && cy == y {
                    assert(t1[i as int] == (cx, cy));
                }
            }
            lemma_paint_step(start, world@, |a: Atom<K>| is_painted(a, atom_type), p, q, x, y, atom);
        }
        world.set_atom(x, y, atom);
        i = i + 1;
    }
    assert(cells@.take(cells@.len() as int) =~= cells@);
}

/// What level validation reports: how many cells are filled, and whether
/// that is fewer than a playable level needs (100).
#[derive(Debug, Clone, Copy, PartialEq, Eq, Structural)]
pub struct LevelReport {
    pub atom_count: usize,
    pub too_empty: bool,
}

/// Counts the filled cells of a level and flags a level under 100 of them.
pub fn validate_level<K: Kinetics>(world: &AtomWorld<K>) -> (r: LevelReport)
    requires
        world.wf(),
    ensures
        r.atom_count == world@.count(),
        r.too_empty == (world@.count() < 100),
{
    let atom_count = count_atoms(world);
    LevelReport { atom_count, too_empty: atom_count < 100 }
}

} // verus!
