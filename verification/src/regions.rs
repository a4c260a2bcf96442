use vstd::prelude::*;
use crate::atoms::{cell_index, lemma_index_in_range, lemma_index_injective, lemma_size_cast, spec_is_fluid, spec_is_gas, AtomType, AtomWorld, Grid, Kinetics};
use crate::editor::{lemma_unmarked_mark, seen, unmarked};
use crate::paths::{connected, lemma_closed_holds, lemma_connected_member, lemma_connected_self, lemma_connected_step, lemma_connected_symmetric, lemma_connected_transitive, member, touches};

verus! {

/// Terrain that becomes collision shapes: stone and sand.
pub open spec fn spec_is_solid(t: AtomType) -> bool {
    t == AtomType::Stone || t == AtomType::Sand
}

pub open spec fn solid() -> spec_fn(AtomType) -> bool {
    |t: AtomType| spec_is_solid(t)
}

/// Whether atoms of this type are solid terrain (see `spec_is_solid`).
pub fn is_solid(atom_type: AtomType) -> (r: bool)
    ensures
        r == spec_is_solid(atom_type),
        r <==> atom_type != AtomType::Empty && !spec_is_fluid(atom_type) && !spec_is_gas(atom_type),
{
    proof {
        lemma_solid_is_terrain(atom_type);
    }
    match atom_type {
        AtomType::Stone | AtomType::Sand => true,
        _ => false,
    }
}

/// Solid terrain is exactly what is neither empty, nor a liquid (water, acid,
/// poison, steam), nor a gas (smoke, steam, fire): that is, stone and sand.
pub proof fn lemma_solid_is_terrain(t: AtomType)
    ensures
        spec_is_solid(t) <==> t != AtomType::Empty && !spec_is_fluid(t) && !spec_is_gas(t),
        spec_is_solid(AtomType::Stone) && spec_is_solid(AtomType::Sand),
{
}

/// b is reached from a through solid cells touching at sides or corners.
pub open spec fn solid_linked<K>(g: Grid<K>, a: (i32, i32), b: (i32, i32)) -> bool {
    connected(g, solid(), true, a, b)
}

/// The pending cells all lie inside the grid; the solid ones are linked to s.
pub open spec fn collect_pending<K>(g: Grid<K>, stack: Seq<(i32, i32)>, s: (i32, i32)) -> bool {
    forall|j: int|
        0 <= j < stack.len() ==> g.in_bounds((#[trigger] stack[j]).0, stack[j].1) && (member(g, solid(), stack[j])
            ==> solid_linked(g, s, stack[j]))
}

/// The region is exactly the solid cells visited since the start of the fill,
/// each once.
pub open spec fn collect_region<K>(g: Grid<K>, v0: Seq<bool>, v: Seq<bool>, region: Seq<(i32, i32)>) -> bool {
    &&& forall|k: int|
        0 <= k < region.len() ==> member(g, solid(), #[trigger] region[k]) && seen(v, g.width, region[k]) && !seen(
            v0,
            g.width,
            region[k],
        )
    &&& forall|k: int, l: int| 0 <= k < l < region.len() ==> #[trigger] region[k] != #[trigger] region[l]
    &&& forall|c: (i32, i32)|
        member(g, solid(), c) && #[trigger] seen(v, g.width, c) && !seen(v0, g.width, c) ==> region.contains(c)
}

pub open spec fn collect_state<K>(
    g: Grid<K>,
    v0: Seq<bool>,
    v: Seq<bool>,
    stack: Seq<(i32, i32)>,
    region: Seq<(i32, i32)>,
    s: (i32, i32),
) -> bool {
    &&& g.wf()
    &&& g.addressable()
    &&& v0.len() == g.atoms.len()
    &&& v.len() == g.atoms.len()
    &&& member(g, solid(), s)
    &&& forall|c: (i32, i32)| #[trigger] solid_linked(g, s, c) ==> !seen(v0, g.width, c)
    &&& forall|i: int| 0 <= i < v.len() && v0[i] ==> #[trigger] v[i]
    &&& forall|c: (i32, i32)|
        member(g, solid(), c) && #[trigger] seen(v, g.width, c) ==> seen(v0, g.width, c) || solid_linked(g, s, c)
    &&& collect_region(g, v0, v, region)
    &&& region.len() > 0 ==> region[0] == s
    &&& region.len() == 0 ==> stack == seq![s] && v == v0
    &&& collect_pending(g, stack, s)
    &&& forall|c: (i32, i32), d: (i32, i32)|
        #![trigger seen(v, g.width, c), seen(v, g.width, d)]
        member(g, solid(), c) && seen(v, g.width, c) && !seen(v0, g.width, c) && member(g, solid(), d) && touches(
            true,
            c,
            d,
        ) ==> seen(v, g.width, d) || stack.contains(d)
    &&& seen(v, g.width, s) || stack.contains(s)
}


proof fn lemma_pop_contains(st: Seq<(i32, i32)>, p: (i32, i32), d: (i32, i32))
    requires
        st.push(p).contains(d),
        d != p,
    ensures
        st.contains(d),
{
    let j = choose|j: int| 0 <= j < st.push(p).len() && st.push(p)[j] == d;
    assert(st[j] == d);
}

proof fn lemma_prefix_contains(st: Seq<(i32, i32)>, st2: Seq<(i32, i32)>, d: (i32, i32))
    requires
        st2.len() >= st.len(),
        st2.take(st.len() as int) == st,
        st.contains(d),
    ensures
        st2.contains(d),
{
    let j = choose|j: int| 0 <= j < st.len() && st[j] == d;
    assert(st2.take(st.len() as int)[j] == st2[j]);
}

/// Marking p visited visits p and nothing else.
proof fn lemma_seen_mark<K>(g: Grid<K>, v: Seq<bool>, p: (i32, i32), c: (i32, i32))
    requires
        g.in_bounds(p.0, p.1),
        g.in_bounds(c.0, c.1),
        v.len() == g.width * g.height,
    ensures
        seen(v.update(cell_index(g.width, p.0, p.1), true), g.width, c) == (c == p || seen(v, g.width, c)),
{
    lemma_index_in_range(g, p.0, p.1);
    lemma_index_in_range(g, c.0, c.1);
    if cell_index(g.width, p.0, p.1) == cell_index(g.width, c.0, c.1) {
        lemma_index_injective(g, p.0, p.1, c.0, c.1);
    }
}

/// Dropping a pending cell already visited keeps the state.
proof fn lemma_collect_skip<K>(
    g: Grid<K>,
    v0: Seq<bool>,
    v: Seq<bool>,
    st: Seq<(i32, i32)>,
    p: (i32, i32),
    region: Seq<(i32, i32)>,
    s: (i32, i32),
)
    requires
        collect_state(g, v0, v, st.push(p), region, s),
        seen(v, g.width, p),
    ensures
        collect_state(g, v0, v, st, region, s),
{
    let old_stack = st.push(p);
    assert(old_stack[old_stack.len() - 1] == p);
    if region.len() == 0 {
        assert(old_stack == seq![s]);
        assert(p == s);
        lemma_connected_self(g, solid(), true, s);
        assert(solid_linked(g, s, s));
        assert(false);
    }
    assert forall|c: (i32, i32), d: (i32, i32)|
        #![trigger seen(v, g.width, c), seen(v, g.width, d)]
        member(g, solid(), c) && seen(v, g.width, c) && !seen(v0, g.width, c) && member(g, solid(), d) && touches(true, c, d)
            implies seen(v, g.width, d) || st.contains(d) by {
        if !seen(v, g.width, d) {
            lemma_pop_contains(st, p, d);
        }
    }
    if !seen(v, g.width, s) {
        lemma_pop_contains(st, p, s);
    }
    assert forall|j: int| 0 <= j < st.len() implies g.in_bounds((#[trigger] st[j]).0, st[j].1) && (member(g, solid(), st[j])
        ==> solid_linked(g, s, st[j])) by {
        assert(st[j] == old_stack[j]);
    }
}

/// Visiting a pending cell that is not solid only marks it.
proof fn lemma_collect_visit_other<K>(
    g: Grid<K>,
    v0: Seq<bool>,
    v: Seq<bool>,
    st: Seq<(i32, i32)>,
    p: (i32, i32),
    region: Seq<(i32, i32)>,
    s: (i32, i32),
)
    requires
        collect_state(g, v0, v, st.push(p), region, s),
        g.in_bounds(p.0, p.1),
        !seen(v, g.width, p),
        !member(g, solid(), p),
    ensures
        collect_state(g, v0, v.update(cell_index(g.width, p.0, p.1), true), st, region, s),
{
    let i = cell_index(g.width, p.0, p.1);
    let v2 = v.update(i, true);
    let old_stack = st.push(p);
    lemma_index_in_range(g, p.0, p.1);
    assert(old_stack[old_stack.len() - 1] == p);
    if region.len() == 0 {
        assert(old_stack == seq![s]);
        assert(p == s);
    }
    assert forall|c: (i32, i32)| member(g, solid(), c) && #[trigger] seen(v2, g.width, c) implies seen(v0, g.width, c)
        || solid_linked(g, s, c) by {
        lemma_seen_mark(g, v, p, c);
    }
    assert forall|k: int| 0 <= k < region.len() implies member(g, solid(), #[trigger] region[k]) && seen(v2, g.width, region[k])
        && !seen(v0, g.width, region[k]) by {
        lemma_seen_mark(g, v, p, region[k]);
    }
    assert forall|c: (i32, i32)| member(g, solid(), c) && #[trigger] seen(v2, g.width, c) && !seen(v0, g.width, c) implies region.contains(c) by {
        lemma_seen_mark(g, v, p, c);
    }
    assert forall|c: (i32, i32), d: (i32, i32)|
        #![trigger seen(v2, g.width, c), seen(v2, g.width, d)]
        member(g, solid(), c) && seen(v2, g.width, c) && !seen(v0, g.width, c) && member(g, solid(), d) && touches(true, c, d)
            implies seen(v2, g.width, d) || st.contains(d) by {
        lemma_seen_mark(g, v, p, c);
        lemma_seen_mark(g, v, p, d);
        assert(seen(v, g.width, c));
        if !seen(v, g.width, d) && d != p {
            lemma_pop_contains(st, p, d);
        }
    }
    if !seen(v2, g.width, s) {
        lemma_seen_mark(g, v, p, s);
        lemma_pop_contains(st, p, s);
    }
    assert forall|j: int| 0 <= j < st.len() implies g.in_bounds((#[trigger] st[j]).0, st[j].1) && (member(g, solid(), st[j])
        ==> solid_linked(g, s, st[j])) by {
        assert(st[j] == old_stack[j]);
    }
}

/// Visiting a pending solid cell adds it to the region; its unvisited
/// neighbours become pending.
proof fn lemma_collect_visit_solid<K>(
    g: Grid<K>,
    v0: Seq<bool>,
    v: Seq<bool>,
    st: Seq<(i32, i32)>,
    p: (i32, i32),
    region: Seq<(i32, i32)>,
    s: (i32, i32),
    st2: Seq<(i32, i32)>,
)
    requires
        collect_state(g, v0, v, st.push(p), region, s),
        g.in_bounds(p.0, p.1),
        !seen(v, g.width, p),
        member(g, solid(), p),
        st2.len() >= st.len(),
        st2.take(st.len() as int) == st,
        forall|j: int| st.len() <= j < st2.len() ==> g.in_bounds((#[trigger] st2[j]).0, st2[j].1) && touches(true, p, st2[j]),
        forall|d: (i32, i32)|
            member(g, solid(), d) && touches(true, p, d) ==> #[trigger] seen(v.update(cell_index(g.width, p.0, p.1), true), g.width, d)
                || st2.contains(d),
    ensures
        collect_state(g, v0, v.update(cell_index(g.width, p.0, p.1), true), st2, region.push(p), s),
{
    let i = cell_index(g.width, p.0, p.1);
    let v2 = v.update(i, true);
    let r2 = region.push(p);
    let old_stack = st.push(p);
    lemma_index_in_range(g, p.0, p.1);
    assert(old_stack[old_stack.len() - 1] == p);
    assert(solid_linked(g, s, p));
    assert(!seen(v0, g.width, p));
    if region.len() == 0 {
        assert(old_stack == seq![s]);
        assert(p == s);
    }
    assert forall|c: (i32, i32)| member(g, solid(), c) && #[trigger] seen(v2, g.width, c) implies seen(v0, g.width, c)
        || solid_linked(g, s, c) by {
        lemma_seen_mark(g, v, p, c);
    }
    assert forall|k: int| 0 <= k < r2.len() implies member(g, solid(), #[trigger] r2[k]) && seen(v2, g.width, r2[k])
        && !seen(v0, g.width, r2[k]) by {
        lemma_seen_mark(g, v, p, r2[k]);
        if k < region.len() {
            assert(r2[k] == region[k]);
        }
    }
    assert forall|k: int, l: int| 0 <= k < l < r2.len() implies #[trigger] r2[k] != #[trigger] r2[l] by {
        if l == region.len() {
            assert(r2[k] == region[k]);
            assert(seen(v, g.width, region[k]));
        } else {
            assert(r2[k] == region[k] && r2[l] == region[l]);
        }
    }
    assert forall|c: (i32, i32)| member(g, solid(), c) && #[trigger] seen(v2, g.width, c) && !seen(v0, g.width, c) implies r2.contains(c) by {
        lemma_seen_mark(g, v, p, c);
        if c == p {
            assert(r2[region.len() as int] == p);
        } else {
            assert(region.contains(c));
            let k = choose|k: int| 0 <= k < region.len() && region[k] == c;
            assert(r2[k] == c);
        }
    }
    assert forall|j: int| 0 <= j < st2.len() implies g.in_bounds((#[trigger] st2[j]).0, st2[j].1) && (member(g, solid(), st2[j])
        ==> solid_linked(g, s, st2[j])) by {
        if j < st.len() {
            assert(st2.take(st.len() as int)[j] == st2[j]);
            assert(st2[j] == old_stack[j]);
        } else {
            if member(g, solid(), st2[j]) {
                lemma_connected_step(g, solid(), true, s, p, st2[j]);
            }
        }
    }
    assert forall|c: (i32, i32), d: (i32, i32)|
        #![trigger seen(v2, g.width, c), seen(v2, g.width, d)]
        member(g, solid(), c) && seen(v2, g.width, c) && !seen(v0, g.width, c) && member(g, solid(), d) && touches(true, c, d)
            implies seen(v2, g.width, d) || st2.contains(d) by {
        lemma_seen_mark(g, v, p, c);
        lemma_seen_mark(g, v, p, d);
        if c != p {
            assert(seen(v, g.width, c));
            if !seen(v, g.width, d) && d != p {
                lemma_pop_contains(st, p, d);
                lemma_prefix_contains(st, st2, d);
            }
        }
    }
    if !seen(v2, g.width, s) {
        lemma_seen_mark(g, v, p, s);
        lemma_pop_contains(st, p, s);
        lemma_prefix_contains(st, st2, s);
    }
    assert(r2[0] == s);
}


/// The k-th cell around (x, y): columns x - 1, x, x + 1 in turn, each from
/// row y - 1 to row y + 1; the 4th is (x, y) itself.
pub open spec fn around_cell(x: i32, y: i32, k: int) -> (i32, i32) {
    ((x + k / 3 - 1) as i32, (y + k % 3 - 1) as i32)
}

/// The cells inside the grid and not yet visited among the first `n` around
/// (x, y) (see `around_cell`), in that order.
pub open spec fn unvisited_around<K>(g: Grid<K>, v: Seq<bool>, x: i32, y: i32, n: int) -> Seq<(i32, i32)>
    decreases n,
{
    if n <= 0 {
        Seq::empty()
    } else {
        let prev = unvisited_around(g, v, x, y, n - 1);
        let c = around_cell(x, y, n - 1);
        if g.in_bounds(c.0, c.1) && !seen(v, g.width, c) {
            prev.push(c)
        } else {
            prev
        }
    }
}

/// Pushes every unvisited cell among the (up to nine) cells around (x, y),
/// columns left to right, each from top to bottom.
fn push_unvisited_neighbours<K: Kinetics>(
    world: &AtomWorld<K>,
    visited: &Vec<bool>,
    x: i32,
    y: i32,
    stack: &mut Vec<(i32, i32)>,
)
    requires
        world.wf(),
        world@.addressable(),
        world@.in_bounds(x, y),
        visited@.len() == world.atoms@.len(),
        seen(visited@, world.width, (x, y)),
    ensures
        final(stack)@ == old(stack)@ + unvisited_around(world@, visited@, x, y, 9),
        final(stack)@.len() >= old(stack)@.len(),
        final(stack)@.len() <= old(stack)@.len() + 9,
        final(stack)@.take(old(stack)@.len() as int) == old(stack)@,
        forall|j: int|
            old(stack)@.len() <= j < final(stack)@.len() ==> world@.in_bounds((#[trigger] final(stack)@[j]).0, final(stack)@[j].1)
                && touches(true, (x, y), final(stack)@[j]),
        forall|d: (i32, i32)|
            world@.in_bounds(d.0, d.1) && touches(true, (x, y), d) ==> #[trigger] seen(visited@, world.width, d)
                || final(stack)@.contains(d),
{
    let ghost st0 = stack@;
    let ghost g = world@;
    proof {
        lemma_index_in_range(g, x, y);
    }
    let mut dx: i32 = -1;
    while dx <= 1
        invariant
            world.wf(),
            world@.addressable(),
            g == world@,
            g.in_bounds(x, y),
            visited@.len() == world.atoms@.len(),
            seen(visited@, g.width, (x, y)),
            -1 <= dx <= 2,
            stack@ == st0 + unvisited_around(g, visited@, x, y, 3 * (dx + 1)),
            stack@.len() >= st0.len(),
            stack@.len() <= st0.len() + 3 * (dx + 1),
            stack@.take(st0.len() as int) == st0,
            forall|j: int|
                st0.len() <= j < stack@.len() ==> g.in_bounds((#[trigger] stack@[j]).0, stack@[j].1) && touches(true, (x, y), stack@[j]),
            forall|d: (i32, i32)|
                g.in_bounds(d.0, d.1) && touches(true, (x, y), d) && d.0 - x < dx ==> #[trigger] seen(visited@, g.width, d)
                    || stack@.contains(d),
        decreases 2 - dx,
    {
        let mut dy: i32 = -1;
        while dy <= 1
            invariant
                world.wf(),
                world@.addressable(),
                g == world@,
                g.in_bounds(x, y),
                visited@.len() == world.atoms@.len(),
                seen(visited@, g.width, (x, y)),
                -1 <= dx <= 1,
                -1 <= dy <= 2,
                stack@ == st0 + unvisited_around(g, visited@, x, y, 3 * (dx + 1) + (dy + 1)),
                stack@.len() >= st0.len(),
                stack@.len() <= st0.len() + 3 * (dx + 1) + (dy + 1),
                stack@.take(st0.len() as int) == st0,
                forall|j: int|
                    st0.len() <= j < stack@.len() ==> g.in_bounds((#[trigger] stack@[j]).0, stack@[j].1) && touches(true, (x, y), stack@[j]),
                forall|d: (i32, i32)|
                    g.in_bounds(d.0, d.1) && touches(true, (x, y), d) && (d.0 - x < dx || (d.0 - x == dx && d.1 - y < dy))
                        ==> #[trigger] seen(visited@, g.width, d) || stack@.contains(d),
            decreases 2 - dy,
        {
            let nx = x + dx;
            let ny = y + dy;
            let ghost before = stack@;
            proof {
                let k = 3 * (dx + 1) + (dy + 1);
                assert(k / 3 == dx + 1 && k % 3 == dy + 1) by {
                    vstd::arithmetic::div_mod::lemma_fundamental_div_mod_converse(k, 3, dx + 1, dy + 1);
                }
                assert(around_cell(x, y, k) == (nx, ny));
                lemma_size_cast(g.width);
                lemma_size_cast(g.height);
            }
            if nx >= 0 && nx < world.width as i32 && ny >= 0 && ny < world.height as i32 {
                let nidx = world.get_index(nx, ny).unwrap();
                if !visited[nidx] {
                    stack.push((nx, ny));
                    proof {
                        if nx == x && ny == y {
                            assert(seen(visited@, g.width, (x, y)));
                        }
                        assert(stack@.take(st0.len() as int) =~= before.take(st0.len() as int));
                        assert forall|d: (i32, i32)| before.contains(d) implies stack@.contains(d) by {
                            let j = choose|j: int| 0 <= j < before.len() && before[j] == d;
                            assert(stack@[j] == d);
                        }
                        assert(stack@[stack@.len() - 1] == (nx, ny));
                        assert(stack@ =~= st0 + unvisited_around(g, visited@, x, y, 3 * (dx + 1) + (dy + 2)));
                    }
                } else {
                    proof {
                        assert(seen(visited@, g.width, (nx, ny)));
                    }
                }
            }
            dy = dy + 1;
        }
        dx = dx + 1;
    }
}


/// A fresh fill: nothing visited yet, the start cell pending.
proof fn lemma_collect_start<K>(g: Grid<K>, v0: Seq<bool>, s: (i32, i32))
    requires
        g.wf(),
        g.addressable(),
        v0.len() == g.atoms.len(),
        member(g, solid(), s),
        forall|c: (i32, i32)| #[trigger] solid_linked(g, s, c) ==> !seen(v0, g.width, c),
    ensures
        collect_state(g, v0, v0, seq![s], Seq::empty(), s),
{
    let st = seq![s];
    let r = Seq::<(i32, i32)>::empty();
    lemma_connected_self(g, solid(), true, s);
    assert(solid_linked(g, s, s));
    assert(st[0] == s);
    assert(st.contains(s));
    assert(collect_pending(g, st, s));
    assert(collect_region(g, v0, v0, r));
}

proof fn lemma_collect_done<K>(g: Grid<K>, v0: Seq<bool>, v: Seq<bool>, region: Seq<(i32, i32)>, s: (i32, i32))
    requires
        collect_state(g, v0, v, Seq::empty(), region, s),
    ensures
        forall|c: (i32, i32)| member(g, solid(), c) ==> (#[trigger] seen(v, g.width, c) == (seen(v0, g.width, c) || solid_linked(g, s, c))),
        forall|c: (i32, i32)| #[trigger] region.contains(c) == solid_linked(g, s, c),
        region.len() > 0,
        region[0] == s,
{
    let empty = Seq::<(i32, i32)>::empty();
    if region.len() == 0 {
        assert(empty == seq![s]);
        assert(seq![s].len() == 1);
        assert(false);
    }
    assert(region[0] == s);
    assert(member(g, solid(), region[0]) && seen(v, g.width, region[0]) && !seen(v0, g.width, region[0]));
    let holds = |c: (i32, i32)| seen(v, g.width, c) && !seen(v0, g.width, c);
    lemma_connected_self(g, solid(), true, s);
    assert(holds(s));
    assert forall|a: (i32, i32), b: (i32, i32)|
        #![trigger holds(a), holds(b)]
        holds(a) && member(g, solid(), a) && member(g, solid(), b) && touches(true, a, b) implies holds(b) by {
        assert(!empty.contains(b));
        assert(seen(v, g.width, a));
        assert(seen(v, g.width, b));
        assert(seen(v0, g.width, a) || solid_linked(g, s, a));
        lemma_connected_step(g, solid(), true, s, a, b);
        assert(solid_linked(g, s, b));
        assert(!seen(v0, g.width, b));
    }
    assert forall|c: (i32, i32)| member(g, solid(), c) implies (#[trigger] seen(v, g.width, c) == (seen(v0, g.width, c)
        || solid_linked(g, s, c))) by {
        if solid_linked(g, s, c) {
            lemma_closed_holds(g, solid(), true, holds, s, c);
            assert(holds(c));
        }
        if seen(v0, g.width, c) {
            lemma_index_in_range(g, c.0, c.1);
            assert(v[cell_index(g.width, c.0, c.1)]);
        }
    }
    assert forall|c: (i32, i32)| #[trigger] region.contains(c) == solid_linked(g, s, c) by {
        if region.contains(c) {
            let k = choose|k: int| 0 <= k < region.len() && region[k] == c;
            assert(member(g, solid(), region[k]) && seen(v, g.width, region[k]) && !seen(v0, g.width, region[k]));
            assert(seen(v0, g.width, c) || solid_linked(g, s, c));
        }
        if solid_linked(g, s, c) {
            lemma_connected_member(g, solid(), true, s, c);
            lemma_closed_holds(g, solid(), true, holds, s, c);
            assert(holds(c));
        }
    }
}

/// The state of the depth-first search for one region: the visited marks,
/// the cells still to visit (the last one on top), and the region so far.
pub struct DfsState {
    pub visited: Seq<bool>,
    pub stack: Seq<(i32, i32)>,
    pub region: Seq<(i32, i32)>,
}

/// One step of the search: the top cell is taken off; unless already
/// visited it is marked, and when solid it joins the region and its
/// unvisited surrounding cells are pushed (see `unvisited_around`).
pub open spec fn dfs_step<K>(g: Grid<K>, s: DfsState) -> DfsState {
    let p = s.stack.last();
    let rest = s.stack.drop_last();
    if seen(s.visited, g.width, p) {
        DfsState { visited: s.visited, stack: rest, region: s.region }
    } else {
        let v = s.visited.update(cell_index(g.width, p.0, p.1), true);
        if member(g, solid(), p) {
            DfsState { visited: v, stack: rest + unvisited_around(g, v, p.0, p.1, 9), region: s.region.push(p) }
        } else {
            DfsState { visited: v, stack: rest, region: s.region }
        }
    }
}

/// Each state of `trace` has a cell left to visit and is followed by its
/// step (the last state excepted).
pub open spec fn dfs_trace<K>(g: Grid<K>, trace: Seq<DfsState>) -> bool {
    forall|k: int|
        0 <= k < trace.len() - 1 ==> (#[trigger] trace[k]).stack.len() > 0 && trace[k + 1] == dfs_step(g, trace[k])
}

/// The search from `start` steps until no cell is left to visit, ending in
/// `end`. The steps are determined, so `end` is too.
pub open spec fn dfs_run<K>(g: Grid<K>, start: DfsState, end: DfsState) -> bool {
    &&& end.stack.len() == 0
    &&& exists|trace: Seq<DfsState>|
        trace.len() > 0 && trace[0] == start && trace.last() == end && #[trigger] dfs_trace(g, trace)
}

/// Collects the region of solid cells touching (side or corner) the solid,
/// unvisited cell (start_x, start_y), marking what it visits; the cells come
/// in the order of the depth-first search `dfs_run`.
fn flood_fill<K: Kinetics>(
    world: &AtomWorld<K>,
    start_x: i32,
    start_y: i32,
    visited: &mut Vec<bool>,
    region: &mut Vec<(i32, i32)>,
)
    requires
        world.wf(),
        world@.addressable(),
        member(world@, solid(), (start_x, start_y)),
        old(visited)@.len() == world.atoms@.len(),
        forall|c: (i32, i32)| #[trigger] solid_linked(world@, (start_x, start_y), c) ==> !seen(old(visited)@, world.width, c),
        old(region)@.len() == 0,
    ensures
        final(visited)@.len() == old(visited)@.len(),
        forall|i: int| 0 <= i < old(visited)@.len() && old(visited)@[i] ==> #[trigger] final(visited)@[i],
        forall|c: (i32, i32)|
            member(world@, solid(), c) ==> (#[trigger] seen(final(visited)@, world.width, c) == (seen(
                old(visited)@,
                world.width,
                c,
            ) || solid_linked(world@, (start_x, start_y), c))),
        forall|c: (i32, i32)| #[trigger] final(region)@.contains(c) == solid_linked(world@, (start_x, start_y), c),
        forall|k: int, l: int| 0 <= k < l < final(region)@.len() ==> #[trigger] final(region)@[k] != #[trigger] final(region)@[l],
        final(region)@.len() > 0,
        final(region)@[0] == (start_x, start_y),
        dfs_run(
            world@,
            DfsState { visited: old(visited)@, stack: seq![(start_x, start_y)], region: Seq::empty() },
            DfsState { visited: final(visited)@, stack: Seq::empty(), region: final(region)@ },
        ),
{
    let ghost g = world@;
    let ghost v0 = visited@;
    let ghost s = (start_x, start_y);
    let n = world.atoms.len();
    let mut stack: Vec<(i32, i32)> = Vec::new();
    stack.push((start_x, start_y));
    proof {
        assert(stack@ =~= seq![s]);
        assert(region@ =~= Seq::<(i32, i32)>::empty());
        lemma_collect_start(g, v0, s);
    }
    let ghost init = DfsState { visited: v0, stack: seq![s], region: Seq::empty() };
    let ghost mut trace: Seq<DfsState> = seq![init];
    while stack.len() > 0
        invariant
            collect_state(g, v0, visited@, stack@, region@, s),
            trace.len() > 0,
            trace[0] == init,
            trace.last() == (DfsState { visited: visited@, stack: stack@, region: region@ }),
            dfs_trace(g, trace),
            g == world@,
            n == g.atoms.len(),
        decreases 9 * unmarked(visited@, n as int) + stack.len(),
    {
        let ghost pre = stack@;
        let ghost prev = DfsState { visited: visited@, stack: stack@, region: region@ };
        let (x, y) = stack.pop().unwrap();
        let ghost st = stack@;
        let ghost v = visited@;
        assert(pre =~= st.push((x, y)));
        assert(pre[pre.len() - 1] == (x, y));
        let idx = world.get_index(x, y).unwrap();
        proof {
            lemma_index_in_range(g, x, y);
        }
        if visited[idx] {
            proof {
                lemma_collect_skip(g, v0, v, st, (x, y), region@, s);
            }
        } else {
            visited.set(idx, true);
            proof {
                lemma_unmarked_mark(v, idx as int, n as int);
            }
            if is_solid(world.atoms[idx].atom_type) {
                let ghost r0 = region@;
                region.push((x, y));
                push_unvisited_neighbours(world, &visited, x, y, &mut stack);
                proof {
                    assert forall|d: (i32, i32)| member(g, solid(), d) && touches(true, (x, y), d) implies #[trigger] seen(
                        v.update(cell_index(g.width, x, y), true),
                        g.width,
                        d,
                    ) || stack@.contains(d) by {}
                    assert(region@ == r0.push((x, y)));
                    lemma_collect_visit_solid(g, v0, v, st, (x, y), r0, s, stack@);
                }
            } else {
                proof {
                    lemma_collect_visit_other(g, v0, v, st, (x, y), region@, s);
                }
            }
        }
        proof {
            let next = DfsState { visited: visited@, stack: stack@, region: region@ };
            assert(prev.stack.last() == (x, y));
            assert(prev.stack.drop_last() == st);
            assert(cell_index(g.width, x, y) == idx);
            assert(next == dfs_step(g, prev));
            let t2 = trace.push(next);
            assert forall|k: int| 0 <= k < t2.len() - 1 implies (#[trigger] t2[k]).stack.len() > 0 && t2[k + 1]
                == dfs_step(g, t2[k]) by {
                if k < trace.len() - 1 {
                    assert(t2[k] == trace[k] && t2[k + 1] == trace[k + 1]);
                } else {
                    assert(t2[k] == prev);
                }
            }
            trace = t2;
        }
    }
    proof {
        assert(stack@ =~= Seq::<(i32, i32)>::empty());
        lemma_collect_done(g, v0, visited@, region@, s);
        assert(dfs_trace(g, trace));
    }
}

/// The row-major position of a cell.
pub open spec fn position<K>(g: Grid<K>, c: (i32, i32)) -> int {
    cell_index(g.width, c.0, c.1)
}

/// The regions, each read as a sequence of cells.
pub open spec fn region_views(rs: Seq<Vec<(i32, i32)>>) -> Seq<Seq<(i32, i32)>> {
    rs.map_values(|r: Vec<(i32, i32)>| r@)
}

/// c lies in one of the regions.
pub open spec fn in_some_region(rs: Seq<Seq<(i32, i32)>>, c: (i32, i32)) -> bool {
    exists|k: int| 0 <= k < rs.len() && #[trigger] rs[k].contains(c)
}

/// Fewer than three solid cells are linked to c.
pub open spec fn small_region<K>(g: Grid<K>, c: (i32, i32)) -> bool {
    forall|a: (i32, i32), b: (i32, i32), d: (i32, i32)|
        #![trigger solid_linked(g, c, a), solid_linked(g, c, b), solid_linked(g, c, d)]
        solid_linked(g, c, a) && solid_linked(g, c, b) && solid_linked(g, c, d) ==> a == b || b == d || a == d
}

/// Each region is a whole solid component of at least three cells, each
/// cell once, led by its first cell in row-major order; the regions come in
/// the order of those first cells, and no two of them are linked.
pub open spec fn regions_found<K>(g: Grid<K>, rs: Seq<Seq<(i32, i32)>>) -> bool {
    &&& forall|k: int| 0 <= k < rs.len() ==> (#[trigger] rs[k]).len() >= 3
    &&& forall|k: int, i: int, j: int|
        0 <= k < rs.len() && 0 <= i < j < rs[k].len() ==> #[trigger] rs[k][i] != #[trigger] rs[k][j]
    &&& forall|k: int, c: (i32, i32)|
        #![trigger rs[k].contains(c)]
        #![trigger solid_linked(g, rs[k][0], c)]
        0 <= k < rs.len() ==> (rs[k].contains(c) == solid_linked(g, rs[k][0], c))
    &&& forall|k: int, c: (i32, i32)|
        0 <= k < rs.len() && #[trigger] rs[k].contains(c) ==> position(g, rs[k][0]) <= position(g, c)
    &&& forall|k: int, l: int|
        0 <= k < l < rs.len() ==> position(g, #[trigger] rs[k][0]) < position(g, #[trigger] rs[l][0])
            && !solid_linked(g, rs[k][0], rs[l][0])
}

/// The scan has looked at every cell before position p: solid cells there
/// are visited; what is visited is closed under links, and lies in a region
/// or in a component too small to keep.
pub open spec fn scan_state<K>(g: Grid<K>, v: Seq<bool>, rs: Seq<Seq<(i32, i32)>>, p: int) -> bool {
    &&& g.wf()
    &&& g.addressable()
    &&& v.len() == g.atoms.len()
    &&& 0 <= p <= g.atoms.len()
    &&& regions_found(g, rs)
    &&& forall|c: (i32, i32), d: (i32, i32)|
        #![trigger solid_linked(g, c, d), seen(v, g.width, c)]
        solid_linked(g, c, d) && seen(v, g.width, c) ==> seen(v, g.width, d)
    &&& forall|c: (i32, i32)| member(g, solid(), c) && position(g, c) < p ==> #[trigger] seen(v, g.width, c)
    &&& forall|c: (i32, i32)|
        member(g, solid(), c) && #[trigger] seen(v, g.width, c) ==> in_some_region(rs, c) || small_region(g, c)
    &&& forall|k: int, c: (i32, i32)| 0 <= k < rs.len() && #[trigger] rs[k].contains(c) ==> seen(v, g.width, c)
    &&& forall|k: int| 0 <= k < rs.len() ==> position(g, #[trigger] rs[k][0]) < p
}

/// A sequence of at most two cells holds no three distinct cells.
proof fn lemma_three_in_two(r: Seq<(i32, i32)>, a: (i32, i32), b: (i32, i32), d: (i32, i32))
    requires
        r.len() <= 2,
        r.contains(a),
        r.contains(b),
        r.contains(d),
    ensures
        a == b || b == d || a == d,
{
    let ia = choose|i: int| 0 <= i < r.len() && r[i] == a;
    let ib = choose|i: int| 0 <= i < r.len() && r[i] == b;
    let id = choose|i: int| 0 <= i < r.len() && r[i] == d;
}

/// No visited cell is linked to an unvisited solid one.
proof fn lemma_scan_unlinked<K>(g: Grid<K>, v: Seq<bool>, rs: Seq<Seq<(i32, i32)>>, p: int, s: (i32, i32))
    requires
        scan_state(g, v, rs, p),
        !seen(v, g.width, s),
    ensures
        forall|c: (i32, i32)| #[trigger] solid_linked(g, s, c) ==> !seen(v, g.width, c),
{
    assert forall|c: (i32, i32)| #[trigger] solid_linked(g, s, c) implies !seen(v, g.width, c) by {
        if seen(v, g.width, c) {
            lemma_connected_symmetric(g, solid(), true, s, c);
            assert(solid_linked(g, c, s));
        }
    }
}

/// Passing over a cell that is visited or not solid keeps the scan state.
proof fn lemma_scan_skip<K>(g: Grid<K>, v: Seq<bool>, rs: Seq<Seq<(i32, i32)>>, p: int, c: (i32, i32))
    requires
        scan_state(g, v, rs, p),
        p < g.atoms.len(),
        g.in_bounds(c.0, c.1),
        position(g, c) == p,
        seen(v, g.width, c) || !member(g, solid(), c),
    ensures
        scan_state(g, v, rs, p + 1),
{
    assert forall|d: (i32, i32)| member(g, solid(), d) && position(g, d) < p + 1 implies #[trigger] seen(v, g.width, d) by {
        if position(g, d) == p {
            lemma_index_injective(g, c.0, c.1, d.0, d.1);
        }
    }
}

/// What a fill from the unvisited solid cell s hands back: every solid cell
/// linked to s is now visited, nothing else changed among the solid cells,
/// and r lists exactly the linked cells, each once, starting with s.
pub open spec fn fill_result<K>(g: Grid<K>, v: Seq<bool>, v2: Seq<bool>, r: Seq<(i32, i32)>, s: (i32, i32)) -> bool {
    &&& v2.len() == v.len()
    &&& forall|c: (i32, i32)|
        member(g, solid(), c) ==> (#[trigger] seen(v2, g.width, c) == (seen(v, g.width, c) || solid_linked(g, s, c)))
    &&& forall|c: (i32, i32)| #[trigger] r.contains(c) == solid_linked(g, s, c)
    &&& forall|k: int, l: int| 0 <= k < l < r.len() ==> #[trigger] r[k] != #[trigger] r[l]
    &&& r.len() > 0
    &&& r[0] == s
}

/// The regions after a fill from s: r joins them when it has three cells or more.
pub open spec fn kept(rs: Seq<Seq<(i32, i32)>>, r: Seq<(i32, i32)>) -> Seq<Seq<(i32, i32)>> {
    if r.len() >= 3 {
        rs.push(r)
    } else {
        rs
    }
}

proof fn lemma_fill_regions<K>(
    g: Grid<K>,
    v: Seq<bool>,
    v2: Seq<bool>,
    rs: Seq<Seq<(i32, i32)>>,
    r: Seq<(i32, i32)>,
    s: (i32, i32),
    p: int,
)
    requires
        scan_state(g, v, rs, p),
        member(g, solid(), s),
        position(g, s) == p,
        !seen(v, g.width, s),
        fill_result(g, v, v2, r, s),
    ensures
        regions_found(g, kept(rs, r)),
{
    if r.len() >= 3 {
        let rs2 = rs.push(r);
        let n = rs.len() as int;
        lemma_scan_unlinked(g, v, rs, p, s);
        assert(rs2[n] == r);
        assert forall|k: int| 0 <= k < rs2.len() implies (#[trigger] rs2[k]).len() >= 3 by {
            if k < n {
                assert(rs2[k] == rs[k]);
            }
        }
        assert forall|k: int, i: int, j: int|
            0 <= k < rs2.len() && 0 <= i < j < rs2[k].len() implies #[trigger] rs2[k][i] != #[trigger] rs2[k][j] by {
            if k < n {
                assert(rs2[k] == rs[k]);
            }
        }
        assert forall|k: int, c: (i32, i32)|
            #![trigger rs2[k].contains(c)]
            #![trigger solid_linked(g, rs2[k][0], c)]
            0 <= k < rs2.len() implies (rs2[k].contains(c) == solid_linked(g, rs2[k][0], c)) by {
            if k < n {
                assert(rs2[k] == rs[k]);
            }
        }
        assert forall|k: int, c: (i32, i32)|
            0 <= k < rs2.len() && #[trigger] rs2[k].contains(c) implies position(g, rs2[k][0]) <= position(g, c) by {
            if k < n {
                assert(rs2[k] == rs[k]);
            } else {
                assert(solid_linked(g, s, c));
                lemma_connected_member(g, solid(), true, s, c);
                assert(!seen(v, g.width, c));
            }
        }
        assert forall|k: int, l: int|
            0 <= k < l < rs2.len() implies position(g, #[trigger] rs2[k][0]) < position(g, #[trigger] rs2[l][0])
                && !solid_linked(g, rs2[k][0], rs2[l][0]) by {
            assert(rs2[k] == rs[k]);
            if l < n {
                assert(rs2[l] == rs[l]);
            } else {
                assert(rs2[l][0] == s);
                assert(position(g, rs[k][0]) < p);
                if solid_linked(g, rs[k][0], s) {
                    assert(rs[k].contains(s));
                }
            }
        }
    }
}

proof fn lemma_fill_scan<K>(
    g: Grid<K>,
    v: Seq<bool>,
    v2: Seq<bool>,
    rs: Seq<Seq<(i32, i32)>>,
    r: Seq<(i32, i32)>,
    s: (i32, i32),
    p: int,
)
    requires
        scan_state(g, v, rs, p),
        p < g.atoms.len(),
        member(g, solid(), s),
        position(g, s) == p,
        !seen(v, g.width, s),
        fill_result(g, v, v2, r, s),
    ensures
        scan_state(g, v2, kept(rs, r), p + 1),
{
    let rs2 = kept(rs, r);
    let n = rs.len() as int;
    lemma_fill_regions(g, v, v2, rs, r, s, p);
    lemma_connected_self(g, solid(), true, s);
    assert(solid_linked(g, s, s));
    assert forall|k: int| 0 <= k < n implies #[trigger] rs2[k] == rs[k] by {}
    assert forall|c: (i32, i32), d: (i32, i32)|
        #![trigger solid_linked(g, c, d), seen(v2, g.width, c)]
        solid_linked(g, c, d) && seen(v2, g.width, c) implies seen(v2, g.width, d) by {
        lemma_connected_member(g, solid(), true, c, d);
        if seen(v, g.width, c) {
            assert(seen(v, g.width, d));
        } else {
            lemma_connected_transitive(g, solid(), true, s, c, d);
            assert(solid_linked(g, s, d));
        }
    }
    assert forall|c: (i32, i32)| member(g, solid(), c) && position(g, c) < p + 1 implies #[trigger] seen(v2, g.width, c) by {
        if position(g, c) == p {
            lemma_index_injective(g, c.0, c.1, s.0, s.1);
        } else {
            assert(seen(v, g.width, c));
        }
    }
    assert forall|c: (i32, i32)|
        member(g, solid(), c) && #[trigger] seen(v2, g.width, c) implies in_some_region(rs2, c) || small_region(g, c) by {
        if seen(v, g.width, c) {
            if in_some_region(rs, c) {
                let k = choose|k: int| 0 <= k < rs.len() && #[trigger] rs[k].contains(c);
                assert(rs2[k] == rs[k]);
                assert(rs2[k].contains(c));
            }
        } else {
            assert(solid_linked(g, s, c));
            if r.len() >= 3 {
                assert(rs2[n] == r);
                assert(rs2[n].contains(c));
            } else {
                assert forall|a: (i32, i32), b: (i32, i32), d: (i32, i32)|
                    #![trigger solid_linked(g, c, a), solid_linked(g, c, b), solid_linked(g, c, d)]
                    solid_linked(g, c, a) && solid_linked(g, c, b) && solid_linked(g, c, d) implies a == b || b == d
                        || a == d by {
                    lemma_connected_transitive(g, solid(), true, s, c, a);
                    lemma_connected_transitive(g, solid(), true, s, c, b);
                    lemma_connected_transitive(g, solid(), true, s, c, d);
                    assert(r.contains(a));
                    assert(r.contains(b));
                    assert(r.contains(d));
                    lemma_three_in_two(r, a, b, d);
                }
            }
        }
    }
    assert forall|k: int, c: (i32, i32)| 0 <= k < rs2.len() && #[trigger] rs2[k].contains(c) implies seen(v2, g.width, c) by {
        if k < n {
            assert(rs[k].contains(c));
            assert(seen(v, g.width, c));
            assert(solid_linked(g, rs[k][0], c));
            lemma_connected_member(g, solid(), true, rs[k][0], c);
        } else {
            assert(rs2[k] == r);
            assert(solid_linked(g, s, c));
            lemma_connected_member(g, solid(), true, s, c);
        }
    }
    assert forall|k: int| 0 <= k < rs2.len() implies position(g, #[trigger] rs2[k][0]) < p + 1 by {
        if k < n {
            assert(position(g, rs[k][0]) < p);
        } else {
            assert(rs2[k] == r);
        }
    }
}

/// Before the scan: nothing visited, no regions.
proof fn lemma_scan_start<K>(g: Grid<K>, v: Seq<bool>)
    requires
        g.wf(),
        g.addressable(),
        v.len() == g.atoms.len(),
        forall|i: int| 0 <= i < v.len() ==> !#[trigger] v[i],
    ensures
        scan_state(g, v, Seq::empty(), 0),
{
    assert forall|c: (i32, i32), d: (i32, i32)|
        #![trigger solid_linked(g, c, d), seen(v, g.width, c)]
        solid_linked(g, c, d) && seen(v, g.width, c) implies seen(v, g.width, d) by {
        lemma_connected_member(g, solid(), true, c, d);
        lemma_index_in_range(g, c.0, c.1);
    }
    assert forall|c: (i32, i32)| member(g, solid(), c) && position(g, c) < 0 implies #[trigger] seen(v, g.width, c) by {
        lemma_index_in_range(g, c.0, c.1);
    }
    assert forall|c: (i32, i32)|
        member(g, solid(), c) && #[trigger] seen(v, g.width, c) implies in_some_region(Seq::empty(), c) || small_region(g, c) by {
        lemma_index_in_range(g, c.0, c.1);
    }
}

/// After the scan every solid cell lies in a region or in a small component.
proof fn lemma_scan_done<K>(g: Grid<K>, v: Seq<bool>, rs: Seq<Seq<(i32, i32)>>)
    requires
        scan_state(g, v, rs, g.atoms.len() as int),
    ensures
        forall|c: (i32, i32)| member(g, solid(), c) ==> #[trigger] in_some_region(rs, c) || small_region(g, c),
{
    assert forall|c: (i32, i32)| member(g, solid(), c) implies #[trigger] in_some_region(rs, c) || small_region(g, c) by {
        lemma_index_in_range(g, c.0, c.1);
        assert(seen(v, g.width, c));
    }
}

/// The state of the scan for regions: the visited marks and the regions
/// kept so far.
pub struct ScanState {
    pub visited: Seq<bool>,
    pub regions: Seq<Seq<(i32, i32)>>,
}

/// The k-th cell in row-major order of a grid `w` cells wide.
pub open spec fn scan_cell(w: int, k: int) -> (i32, i32) {
    ((k % w) as i32, (k / w) as i32)
}

/// One step of the scan, at cell c: a solid cell not yet visited starts a
/// depth-first search (see `dfs_run`) whose region is kept when it has at
/// least three cells; any other cell changes nothing.
pub open spec fn scan_step<K>(g: Grid<K>, st: ScanState, c: (i32, i32), next: ScanState) -> bool {
    if seen(st.visited, g.width, c) || !member(g, solid(), c) {
        next == st
    } else {
        exists|r: Seq<(i32, i32)>|
            #[trigger] dfs_run(
                g,
                DfsState { visited: st.visited, stack: seq![c], region: Seq::empty() },
                DfsState { visited: next.visited, stack: Seq::empty(), region: r },
            ) && next.regions == if r.len() >= 3 {
                st.regions.push(r)
            } else {
                st.regions
            }
    }
}

/// Each state of `trace` is followed by the scan's step at the next cell.
pub open spec fn scan_trace<K>(g: Grid<K>, trace: Seq<ScanState>) -> bool {
    forall|k: int| 0 <= k < trace.len() - 1 ==> scan_step(g, #[trigger] trace[k], scan_cell(g.width as int, k), trace[k + 1])
}

/// `regions` is what the scan keeps, visiting every cell once in row-major
/// order from nothing visited. The steps are determined, so the regions and
/// the order of their cells are too.
pub open spec fn scanned<K>(g: Grid<K>, regions: Seq<Seq<(i32, i32)>>) -> bool {
    exists|trace: Seq<ScanState>|
        trace.len() == g.atoms.len() + 1 && trace[0] == (ScanState {
            visited: Seq::new(g.atoms.len(), |i: int| false),
            regions: Seq::empty(),
        }) && trace.last().regions == regions && #[trigger] scan_trace(g, trace)
}

/// Every cell of a region found is a cell of the grid holding stone or sand:
/// liquids, gases and empty cells never become part of a collider.
pub proof fn lemma_regions_hold_terrain<K>(g: Grid<K>, rs: Seq<Seq<(i32, i32)>>)
    requires
        regions_found(g, rs),
    ensures
        forall|k: int, c: (i32, i32)|
            0 <= k < rs.len() && #[trigger] rs[k].contains(c) ==> g.in_bounds(c.0, c.1) && (g.kind(c.0, c.1)
                == AtomType::Stone || g.kind(c.0, c.1) == AtomType::Sand),
{
    assert forall|k: int, c: (i32, i32)| 0 <= k < rs.len() && #[trigger] rs[k].contains(c) implies g.in_bounds(c.0, c.1)
        && (g.kind(c.0, c.1) == AtomType::Stone || g.kind(c.0, c.1) == AtomType::Sand) by {
        assert(solid_linked(g, rs[k][0], c));
        lemma_connected_member(g, solid(), true, rs[k][0], c);
    }
}

/// Groups the solid cells into regions of cells touching at sides or
/// corners, scanning rows top to bottom and each row left to right; a
/// region of fewer than three cells is left out. Each region lists its cells
/// in the order of its depth-first search (see `scanned`).
pub fn find_solid_regions<K: Kinetics>(world: &AtomWorld<K>) -> (regions: Vec<Vec<(i32, i32)>>)
    requires
        world.wf(),
        world@.addressable(),
    ensures
        regions_found(world@, region_views(regions@)),
        forall|c: (i32, i32)|
            member(world@, solid(), c) ==> #[trigger] in_some_region(region_views(regions@), c) || small_region(world@, c),
        scanned(world@, region_views(regions@)),
        forall|k: int, c: (i32, i32)|
            0 <= k < regions@.len() && #[trigger] regions@[k]@.contains(c) ==> world@.in_bounds(c.0, c.1) && (world@.kind(
                c.0,
                c.1,
            ) == AtomType::Stone || world@.kind(c.0, c.1) == AtomType::Sand),
{
    let ghost g = world@;
    let n = world.atoms.len();
    let mut visited: Vec<bool> = vec![false; n];
    let mut regions: Vec<Vec<(i32, i32)>> = Vec::new();
    proof {
        assert(region_views(regions@) =~= Seq::<Seq<(i32, i32)>>::empty());
        lemma_scan_start(g, visited@);
        assert(visited@ =~= Seq::new(n as nat, |i: int| false));
    }
    let ghost init = ScanState { visited: visited@, regions: region_views(regions@) };
    let ghost mut trace: Seq<ScanState> = seq![init];
    let mut y: usize = 0;
    while y < world.height
        invariant
            g == world@,
            world.wf(),
            n == world.atoms.len(),
            y <= world.height,
            scan_state(g, visited@, region_views(regions@), y * world.width),
            trace.len() == y * world.width + 1,
            trace[0] == init,
            trace.last() == (ScanState { visited: visited@, regions: region_views(regions@) }),
            scan_trace(g, trace),
        decreases world.height - y,
    {
        let mut x: usize = 0;
        while x < world.width
            invariant
                g == world@,
                world.wf(),
                n == world.atoms.len(),
                y < world.height,
                x <= world.width,
                scan_state(g, visited@, region_views(regions@), y * world.width + x),
                trace.len() == y * world.width + x + 1,
                trace[0] == init,
                trace.last() == (ScanState { visited: visited@, regions: region_views(regions@) }),
                scan_trace(g, trace),
            decreases world.width - x,
        {
            let ghost p = y * world.width + x;
            let ghost rs = region_views(regions@);
            let ghost prev = ScanState { visited: visited@, regions: rs };
            let xi = x as i32;
            let yi = y as i32;
            proof {
                lemma_size_cast(world.width);
                lemma_size_cast(world.height);
            }
            assert(g.in_bounds(xi, yi));
            let idx = world.get_index(xi, yi).unwrap();
            assert(position(g, (xi, yi)) == p);
            if visited[idx] {
                proof {
                    lemma_scan_skip(g, visited@, rs, p, (xi, yi));
                }
            } else if !is_solid(world.atoms[idx].atom_type) {
                proof {
                    lemma_scan_skip(g, visited@, rs, p, (xi, yi));
                }
            } else {
                let ghost v = visited@;
                let mut region: Vec<(i32, i32)> = Vec::new();
                proof {
                    lemma_scan_unlinked(g, v, rs, p, (xi, yi));
                }
                flood_fill(world, xi, yi, &mut visited, &mut region);
                proof {
                    lemma_fill_scan(g, v, visited@, rs, region@, (xi, yi), p);
                }
                let ghost r = region@;
                if region.len() >= 3 {
                    regions.push(region);
                    proof {
                        assert(region_views(regions@) =~= rs.push(r));
                    }
                }
                proof {
                    assert(dfs_run(
                        g,
                        DfsState { visited: v, stack: seq![(xi, yi)], region: Seq::empty() },
                        DfsState { visited: visited@, stack: Seq::empty(), region: r },
                    ));
                }
            }
            proof {
                let w = world.width as int;
                vstd::arithmetic::div_mod::lemma_fundamental_div_mod_converse(p, w, y as int, x as int);
                assert(scan_cell(g.width as int, p) == (xi, yi));
                let next = ScanState { visited: visited@, regions: region_views(regions@) };
                assert(scan_step(g, prev, (xi, yi), next));
                let t2 = trace.push(next);
                assert forall|k: int| 0 <= k < t2.len() - 1 implies scan_step(
                    g,
                    #[trigger] t2[k],
                    scan_cell(g.width as int, k),
                    t2[k + 1],
                ) by {
                    if k < trace.len() - 1 {
                        assert(t2[k] == trace[k] && t2[k + 1] == trace[k + 1]);
                    } else {
                        assert(t2[k] == prev);
                    }
                }
                trace = t2;
            }
            x = x + 1;
        }
        proof {
            let w = world.width as int;
            assert(y * w + w == (y + 1) * w) by (nonlinear_arith);
        }
        y = y + 1;
    }
    proof {
        let w = world.width as int;
        let h = world.height as int;
        assert(h * w == w * h) by (nonlinear_arith);
        lemma_scan_done(g, visited@, region_views(regions@));
        let rv = region_views(regions@);
        lemma_regions_hold_terrain(g, rv);
        assert forall|k: int, c: (i32, i32)| 0 <= k < regions@.len() && #[trigger] regions@[k]@.contains(c) implies g.in_bounds(
            c.0,
            c.1,
        ) && (g.kind(c.0, c.1) == AtomType::Stone || g.kind(c.0, c.1) == AtomType::Sand) by {
            assert(rv[k] == regions@[k]@);
        }
    }
    regions
}

} // verus!
