use vstd::prelude::*;
use crate::atoms::{cell_index, lemma_index_in_range, lemma_index_injective, spawned_as, Atom, AtomType, AtomWorld, Grid, Kinetics};
use crate::rules::is_neighbour;

verus! {

/// What a reaction leaves behind: the type of each new atom and its lifetime
/// in seconds, if it has one.
pub type Products = Seq<(AtomType, Option<u32>)>;

/// The reaction between two touching atoms, if any:
/// fire and water give steam that lasts 3 s, acid and water give poison,
/// fire and sand give smoke that lasts 2 s.
pub open spec fn spec_reaction(a: AtomType, b: AtomType) -> Option<Products> {
    if (a == AtomType::Fire && b == AtomType::Water) || (a == AtomType::Water && b == AtomType::Fire) {
        Some(seq![(AtomType::Steam, Some(3u32))])
    } else if (a == AtomType::Acid && b == AtomType::Water) || (a == AtomType::Water && b == AtomType::Acid) {
        Some(seq![(AtomType::Poison, None::<u32>)])
    } else if (a == AtomType::Fire && b == AtomType::Sand) || (a == AtomType::Sand && b == AtomType::Fire) {
        Some(seq![(AtomType::Smoke, Some(2u32))])
    } else {
        None
    }
}

/// Which atom comes first does not matter to a reaction.
pub proof fn lemma_reaction_symmetric(a: AtomType, b: AtomType)
    ensures
        spec_reaction(a, b) == spec_reaction(b, a),
{
}

/// Which atoms react: stone, empty cells and the reaction products (steam,
/// smoke, poison) react with nothing, and no type reacts with its own kind;
/// water reacts with fire and with acid alone, acid with water alone, sand
/// with fire alone, and fire with water and with sand alone. Fire and water
/// make steam lasting 3 s, acid and water poison, fire and sand smoke lasting
/// 2 s: one product each.
pub proof fn lemma_reacting_pairs(a: AtomType, b: AtomType)
    ensures
        a == AtomType::Stone || a == AtomType::Empty || a == AtomType::Steam || a == AtomType::Smoke || a
            == AtomType::Poison ==> spec_reaction(a, b) is None,
        spec_reaction(a, a) is None,
        a == AtomType::Water ==> (spec_reaction(a, b) is Some <==> (b == AtomType::Fire || b == AtomType::Acid)),
        a == AtomType::Acid ==> (spec_reaction(a, b) is Some <==> b == AtomType::Water),
        a == AtomType::Sand ==> (spec_reaction(a, b) is Some <==> b == AtomType::Fire),
        a == AtomType::Fire ==> (spec_reaction(a, b) is Some <==> (b == AtomType::Water || b == AtomType::Sand)),
        spec_reaction(a, b) == spec_reaction(b, a),
        spec_reaction(a, b) matches Some(ps) ==> ps.len() == 1 && ps[0] == (if a == AtomType::Sand || b == AtomType::Sand {
            (AtomType::Smoke, Some(2u32))
        } else if a == AtomType::Acid || b == AtomType::Acid {
            (AtomType::Poison, None)
        } else {
            (AtomType::Steam, Some(3u32))
        }),
{
}

/// The products, with their lifetimes, of a reaction between two touching
/// atoms (see `spec_reaction`), or `None` when they do not react.
pub fn check_reaction(atom1: AtomType, atom2: AtomType) -> (r: Option<Vec<(AtomType, Option<u32>)>>)
    ensures
        r is Some <==> spec_reaction(atom1, atom2) is Some,
        r matches Some(v) ==> v@ == spec_reaction(atom1, atom2)->0,
        atom1 == AtomType::Stone || atom2 == AtomType::Stone || atom1 == atom2 ==> r is None,
{
    proof {
        lemma_reacting_pairs(atom1, atom2);
        lemma_reacting_pairs(atom2, atom1);
    }
    match (atom1, atom2) {
        (AtomType::Fire, AtomType::Water) | (AtomType::Water, AtomType::Fire) => {
            let v = vec![(AtomType::Steam, Some(3u32))];
            assert(v@ =~= seq![(AtomType::Steam, Some(3u32))]);
            Some(v)
        },
        (AtomType::Acid, AtomType::Water) | (AtomType::Water, AtomType::Acid) => {
            let v = vec![(AtomType::Poison, None)];
            assert(v@ =~= seq![(AtomType::Poison, None::<u32>)]);
            Some(v)
        },
        (AtomType::Fire, AtomType::Sand) | (AtomType::Sand, AtomType::Fire) => {
            let v = vec![(AtomType::Smoke, Some(2u32))];
            assert(v@ =~= seq![(AtomType::Smoke, Some(2u32))]);
            Some(v)
        },
        _ => None,
    }
}


/// An atom with its type alone.
pub open spec fn bare(t: AtomType) -> Atom<()> {
    Atom { atom_type: t, kinetics: () }
}

/// The grid with every atom's kinetic state forgotten.
pub open spec fn shape<K>(g: Grid<K>) -> Grid<()> {
    Grid {
        width: g.width,
        height: g.height,
        atoms: g.atoms.map_values(|a: Atom<K>| bare(a.atom_type)),
        updated: g.updated,
    }
}

/// Writing an atom changes the shape by its type alone.
pub proof fn lemma_shape_set<K>(g: Grid<K>, x: i32, y: i32, a: Atom<K>)
    requires
        g.wf(),
    ensures
        shape(g.set(x, y, a)) == shape(g).set(x, y, bare(a.atom_type)),
{
    if g.in_bounds(x, y) {
        lemma_index_in_range(g, x, y);
        assert(shape(g.set(x, y, a)).atoms =~= shape(g).set(x, y, bare(a.atom_type)).atoms);
    }
}

/// The k-th place around (x, y): columns x - 1, x, x + 1 in turn, and in
/// each the rows y - 1, y, y + 1; the 4th is (x, y) itself.
pub open spec fn around(x: i32, y: i32, k: int) -> (i32, i32) {
    ((x + k / 3 - 1) as i32, (y + k % 3 - 1) as i32)
}

/// A reaction found between the atom at (x1, y1) and its neighbour at
/// (x2, y2), with what it produces.
pub struct ReactionSpec {
    pub x1: i32,
    pub y1: i32,
    pub x2: i32,
    pub y2: i32,
    pub products: Products,
}

/// The reactions of the atom at (x, y) with the first `n` of the places
/// around it (see `around`) that lie in the grid.
pub open spec fn neighbour_reactions(g: Grid<()>, x: i32, y: i32, n: int) -> Seq<ReactionSpec>
    decreases n,
{
    if n <= 0 {
        Seq::empty()
    } else {
        let prev = neighbour_reactions(g, x, y, n - 1);
        let p = around(x, y, n - 1);
        if n - 1 != 4 && g.in_bounds(p.0, p.1) && spec_reaction(g.kind(x, y), g.kind(p.0, p.1)) is Some {
            prev.push(
                ReactionSpec { x1: x, y1: y, x2: p.0, y2: p.1, products: spec_reaction(g.kind(x, y), g.kind(p.0, p.1))->0 },
            )
        } else {
            prev
        }
    }
}

/// The reactions found in the first `n` cells of row y.
pub open spec fn row_reactions(g: Grid<()>, y: i32, n: int) -> Seq<ReactionSpec>
    decreases n,
{
    if n <= 0 {
        Seq::empty()
    } else {
        row_reactions(g, y, n - 1) + neighbour_reactions(g, (n - 1) as i32, y, 9)
    }
}

/// The reactions found in the first `n` rows, in scan order: rows from the
/// top, cells from the left, each atom against its eight neighbours. A pair
/// that reacts is found from both of its atoms.
pub open spec fn found_reactions(g: Grid<()>, n: int) -> Seq<ReactionSpec>
    decreases n,
{
    if n <= 0 {
        Seq::empty()
    } else {
        found_reactions(g, n - 1) + row_reactions(g, (n - 1) as i32, g.width as int)
    }
}

/// A new atom of type t goes to the first empty cell of column x among rows
/// y - 1, y, y + 1; outside the grid counts as empty, and an atom placed
/// there is lost.
pub open spec fn place_in_column(g: Grid<()>, x: i32, y: i32, t: AtomType) -> Grid<()> {
    if g.empty_at(x, (y - 1) as i32) {
        g.set(x, (y - 1) as i32, bare(t))
    } else if g.empty_at(x, y) {
        g.set(x, y, bare(t))
    } else if g.empty_at(x, (y + 1) as i32) {
        g.set(x, (y + 1) as i32, bare(t))
    } else {
        g
    }
}

/// Each product is placed once in each of the columns x - 1, x, x + 1.
pub open spec fn place_product(g: Grid<()>, x: i32, y: i32, t: AtomType) -> Grid<()> {
    place_in_column(place_in_column(place_in_column(g, (x - 1) as i32, y, t), x, y, t), (x + 1) as i32, y, t)
}

/// The products placed around (x, y), in order.
pub open spec fn place_products(g: Grid<()>, x: i32, y: i32, ps: Products) -> Grid<()>
    decreases ps.len(),
{
    if ps.len() == 0 {
        g
    } else {
        place_product(place_products(g, x, y, ps.drop_last()), x, y, ps.last().0)
    }
}

/// A reaction places its products around its first atom, then empties both
/// reacting cells.
pub open spec fn apply_reaction(g: Grid<()>, r: ReactionSpec) -> Grid<()> {
    place_products(g, r.x1, r.y1, r.products).set(r.x1, r.y1, bare(AtomType::Empty)).set(
        r.x2,
        r.y2,
        bare(AtomType::Empty),
    )
}

/// The reactions applied in order.
pub open spec fn apply_reactions(g: Grid<()>, rs: Seq<ReactionSpec>) -> Grid<()>
    decreases rs.len(),
{
    if rs.len() == 0 {
        g
    } else {
        apply_reaction(apply_reactions(g, rs.drop_last()), rs.last())
    }
}

/// One step of reactions: all of them are found on the world as it was,
/// then applied in the order found.
pub open spec fn react(g: Grid<()>) -> Grid<()> {
    apply_reactions(g, found_reactions(g, g.height as int))
}

/// The types that reactions produce.
pub open spec fn is_product(t: AtomType) -> bool {
    t == AtomType::Steam || t == AtomType::Poison || t == AtomType::Smoke
}

/// How long a product lasts: steam 3 s, smoke 2 s, poison without end.
pub open spec fn product_lifetime(t: AtomType) -> Option<u32> {
    if t == AtomType::Steam {
        Some(3u32)
    } else if t == AtomType::Smoke {
        Some(2u32)
    } else {
        None
    }
}

/// Every product of the list is a product type with its own lifetime.
pub open spec fn proper_products(ps: Products) -> bool {
    forall|j: int| 0 <= j < ps.len() ==> is_product((#[trigger] ps[j]).0) && ps[j].1 == product_lifetime(ps[j].0)
}

/// What reactions write: an empty cell at rest, or a new product at 20
/// degrees.
pub open spec fn fresh<K: Kinetics>(a: Atom<K>) -> bool {
    ||| a.atom_type == AtomType::Empty && call_ensures(K::at_rest, (), a.kinetics)
    ||| is_product(a.atom_type) && spawned_as(a, a.atom_type, product_lifetime(a.atom_type), 20)
}

/// A cell after the reactions: as it was, or newly written (see `fresh`).
pub open spec fn reacted_cell<K: Kinetics>(before: Atom<K>, after: Atom<K>) -> bool {
    after == before || fresh(after)
}

/// `world` is `start` with some cells rewritten by reactions.
pub open spec fn reacted_from<K: Kinetics>(start: Grid<K>, world: Grid<K>) -> bool {
    &&& world.wf()
    &&& world.atoms.len() == start.atoms.len()
    &&& world.width == start.width
    &&& world.height == start.height
    &&& world.updated == start.updated
    &&& forall|i: int| 0 <= i < start.atoms.len() ==> reacted_cell(start.atoms[i], #[trigger] world.atoms[i])
}

/// A found reaction joins two neighbouring cells of the grid whose atoms react.
pub open spec fn joins_reacting_neighbours(g: Grid<()>, r: ReactionSpec) -> bool {
    &&& g.in_bounds(r.x1, r.y1)
    &&& g.in_bounds(r.x2, r.y2)
    &&& is_neighbour(r.x1, r.y1, r.x2, r.y2)
    &&& spec_reaction(g.kind(r.x1, r.y1), g.kind(r.x2, r.y2)) is Some
}

proof fn lemma_neighbour_reactions_join(g: Grid<()>, x: i32, y: i32, n: int)
    requires
        g.addressable(),
        g.in_bounds(x, y),
        n <= 9,
    ensures
        forall|i: int|
            0 <= i < neighbour_reactions(g, x, y, n).len() ==> joins_reacting_neighbours(
                g,
                #[trigger] neighbour_reactions(g, x, y, n)[i],
            ),
    decreases n,
{
    if n > 0 {
        lemma_neighbour_reactions_join(g, x, y, n - 1);
        let k = n - 1;
        let p = around(x, y, k);
        vstd::arithmetic::div_mod::lemma_fundamental_div_mod(k, 3);
        assert(0 <= k % 3 < 3);
        assert(0 <= k / 3 < 3);
        crate::atoms::lemma_size_cast(g.width);
        crate::atoms::lemma_size_cast(g.height);
        assert(p.0 == x + k / 3 - 1 && p.1 == y + k % 3 - 1);
        if k != 4 {
            assert(!(k / 3 == 1 && k % 3 == 1));
        }
        let prev = neighbour_reactions(g, x, y, n - 1);
        let cur = neighbour_reactions(g, x, y, n);
        assert forall|i: int| 0 <= i < cur.len() implies joins_reacting_neighbours(g, #[trigger] cur[i]) by {
            if i < prev.len() {
                assert(cur[i] == prev[i]);
            }
        }
    }
}

proof fn lemma_row_reactions_join(g: Grid<()>, y: i32, n: int)
    requires
        g.addressable(),
        0 <= y < g.height,
        n <= g.width,
    ensures
        forall|i: int|
            0 <= i < row_reactions(g, y, n).len() ==> joins_reacting_neighbours(g, #[trigger] row_reactions(g, y, n)[i]),
    decreases n,
{
    if n > 0 {
        lemma_row_reactions_join(g, y, n - 1);
        crate::atoms::lemma_size_cast(g.width);
        crate::atoms::lemma_size_cast(g.height);
        assert(g.in_bounds((n - 1) as i32, y));
        lemma_neighbour_reactions_join(g, (n - 1) as i32, y, 9);
        let a = row_reactions(g, y, n - 1);
        let b = neighbour_reactions(g, (n - 1) as i32, y, 9);
        assert forall|i: int| 0 <= i < (a + b).len() implies joins_reacting_neighbours(g, #[trigger] (a + b)[i]) by {
            if i >= a.len() {
                assert((a + b)[i] == b[i - a.len()]);
            }
        }
    }
}

proof fn lemma_found_reactions_join(g: Grid<()>, n: int)
    requires
        g.addressable(),
        n <= g.height,
    ensures
        forall|i: int|
            0 <= i < found_reactions(g, n).len() ==> joins_reacting_neighbours(g, #[trigger] found_reactions(g, n)[i]),
    decreases n,
{
    if n > 0 {
        lemma_found_reactions_join(g, n - 1);
        lemma_row_reactions_join(g, (n - 1) as i32, g.width as int);
        let a = found_reactions(g, n - 1);
        let b = row_reactions(g, (n - 1) as i32, g.width as int);
        assert forall|i: int| 0 <= i < (a + b).len() implies joins_reacting_neighbours(g, #[trigger] (a + b)[i]) by {
            if i >= a.len() {
                assert((a + b)[i] == b[i - a.len()]);
            }
        }
    }
}

/// Writing a cell other than c keeps c.
proof fn lemma_set_keeps(g: Grid<()>, x: i32, y: i32, t: AtomType, c: (i32, i32))
    requires
        g.wf(),
        g.in_bounds(c.0, c.1),
        (x, y) != c,
    ensures
        g.set(x, y, bare(t)).wf(),
        g.set(x, y, bare(t)).width == g.width,
        g.set(x, y, bare(t)).height == g.height,
        g.set(x, y, bare(t)).kind(c.0, c.1) == g.kind(c.0, c.1),
{
    lemma_index_in_range(g, c.0, c.1);
    if g.in_bounds(x, y) {
        lemma_index_in_range(g, x, y);
        if cell_index(g.width, x, y) == cell_index(g.width, c.0, c.1) {
            lemma_index_injective(g, x, y, c.0, c.1);
        }
    }
}

/// Placing a product never touches a cell that is not empty.
proof fn lemma_place_keeps(g: Grid<()>, x: i32, y: i32, t: AtomType, c: (i32, i32))
    requires
        g.wf(),
        g.in_bounds(c.0, c.1),
        g.kind(c.0, c.1) != AtomType::Empty,
    ensures
        place_product(g, x, y, t).wf(),
        place_product(g, x, y, t).width == g.width,
        place_product(g, x, y, t).height == g.height,
        place_product(g, x, y, t).kind(c.0, c.1) == g.kind(c.0, c.1),
{
    assert forall|h: Grid<()>, cx: i32| h.wf() && h.in_bounds(c.0, c.1) && h.kind(c.0, c.1) != AtomType::Empty implies {
        let r = #[trigger] place_in_column(h, cx, y, t);
        r.wf() && r.width == h.width && r.height == h.height && r.kind(c.0, c.1) == h.kind(c.0, c.1)
    } by {
        if h.empty_at(cx, (y - 1) as i32) {
            lemma_set_keeps(h, cx, (y - 1) as i32, t, c);
        } else if h.empty_at(cx, y) {
            lemma_set_keeps(h, cx, y, t, c);
        } else if h.empty_at(cx, (y + 1) as i32) {
            lemma_set_keeps(h, cx, (y + 1) as i32, t, c);
        }
    }
    let g1 = place_in_column(g, (x - 1) as i32, y, t);
    let g2 = place_in_column(g1, x, y, t);
    assert(g1.kind(c.0, c.1) == g.kind(c.0, c.1));
    assert(g2.kind(c.0, c.1) == g.kind(c.0, c.1));
}

proof fn lemma_products_keep(g: Grid<()>, x: i32, y: i32, ps: Products, c: (i32, i32))
    requires
        g.wf(),
        g.in_bounds(c.0, c.1),
        g.kind(c.0, c.1) != AtomType::Empty,
    ensures
        place_products(g, x, y, ps).wf(),
        place_products(g, x, y, ps).width == g.width,
        place_products(g, x, y, ps).height == g.height,
        place_products(g, x, y, ps).kind(c.0, c.1) == g.kind(c.0, c.1),
    decreases ps.len(),
{
    if ps.len() > 0 {
        lemma_products_keep(g, x, y, ps.drop_last(), c);
        lemma_place_keeps(place_products(g, x, y, ps.drop_last()), x, y, ps.last().0, c);
    }
}

proof fn lemma_reactions_keep(g: Grid<()>, rs: Seq<ReactionSpec>, c: (i32, i32))
    requires
        g.wf(),
        g.in_bounds(c.0, c.1),
        g.kind(c.0, c.1) != AtomType::Empty,
        forall|i: int| 0 <= i < rs.len() ==> (#[trigger] rs[i]).x1 != c.0 || rs[i].y1 != c.1,
        forall|i: int| 0 <= i < rs.len() ==> (#[trigger] rs[i]).x2 != c.0 || rs[i].y2 != c.1,
    ensures
        apply_reactions(g, rs).wf(),
        apply_reactions(g, rs).width == g.width,
        apply_reactions(g, rs).height == g.height,
        apply_reactions(g, rs).kind(c.0, c.1) == g.kind(c.0, c.1),
    decreases rs.len(),
{
    if rs.len() > 0 {
        let q = rs.drop_last();
        assert forall|i: int| 0 <= i < q.len() implies (#[trigger] q[i]).x1 != c.0 || q[i].y1 != c.1 by {
            assert(q[i] == rs[i]);
        }
        assert forall|i: int| 0 <= i < q.len() implies (#[trigger] q[i]).x2 != c.0 || q[i].y2 != c.1 by {
            assert(q[i] == rs[i]);
        }
        lemma_reactions_keep(g, q, c);
        let h = apply_reactions(g, q);
        let r = rs.last();
        assert(r == rs[rs.len() - 1]);
        lemma_products_keep(h, r.x1, r.y1, r.products, c);
        let h1 = place_products(h, r.x1, r.y1, r.products);
        lemma_set_keeps(h1, r.x1, r.y1, AtomType::Empty, c);
        lemma_set_keeps(h1.set(r.x1, r.y1, bare(AtomType::Empty)), r.x2, r.y2, AtomType::Empty, c);
    }
}

/// An atom that reacts with none of its neighbours keeps its type through a
/// reaction step: reactions only empty cells whose atoms react, and place
/// their products only in empty cells. Stone, which reacts with nothing, is
/// never consumed.
pub proof fn lemma_unreactive_atoms_stay(g: Grid<()>, x: i32, y: i32)
    requires
        g.wf(),
        g.addressable(),
        g.in_bounds(x, y),
        g.kind(x, y) != AtomType::Empty,
        forall|nx: i32, ny: i32|
            is_neighbour(x, y, nx, ny) && g.in_bounds(nx, ny) ==> #[trigger] spec_reaction(g.kind(x, y), g.kind(nx, ny))
                is None,
    ensures
        react(g).kind(x, y) == g.kind(x, y),
{
    let rs = found_reactions(g, g.height as int);
    lemma_found_reactions_join(g, g.height as int);
    assert forall|i: int| 0 <= i < rs.len() implies (#[trigger] rs[i]).x1 != x || rs[i].y1 != y by {
        assert(joins_reacting_neighbours(g, rs[i]));
    }
    assert forall|i: int| 0 <= i < rs.len() implies (#[trigger] rs[i]).x2 != x || rs[i].y2 != y by {
        let r = rs[i];
        assert(joins_reacting_neighbours(g, r));
        if r.x2 == x && r.y2 == y {
            lemma_reaction_symmetric(g.kind(r.x1, r.y1), g.kind(x, y));
            assert(is_neighbour(x, y, r.x1, r.y1));
        }
    }
    lemma_reactions_keep(g, rs, (x, y));
}

/// Reading a type through the shape reads the world's type.
proof fn lemma_shape_kind<K>(g: Grid<K>, x: i32, y: i32)
    requires
        g.wf(),
        g.in_bounds(x, y),
    ensures
        shape(g).kind(x, y) == g.kind(x, y),
{
    lemma_index_in_range(g, x, y);
}

/// Every reaction's products are proper.
proof fn lemma_reaction_products(a: AtomType, b: AtomType)
    ensures
        spec_reaction(a, b) matches Some(ps) ==> proper_products(ps),
{
}

/// Writes a freshly made atom (see `fresh`); nothing outside the grid.
fn put_atom<K: Kinetics>(world: &mut AtomWorld<K>, x: i32, y: i32, a: Atom<K>, Ghost(start): Ghost<Grid<K>>)
    requires
        reacted_from(start, old(world)@),
        fresh(a),
    ensures
        reacted_from(start, final(world)@),
        shape(final(world)@) == shape(old(world)@).set(x, y, bare(a.atom_type)),
{
    let ghost g = world@;
    world.set_atom(x, y, a);
    proof {
        assert(g.atoms.len() == start.atoms.len());
        assert(world@ == g.set(x, y, a));
        lemma_shape_set(g, x, y, a);
        if g.in_bounds(x, y) {
            lemma_index_in_range(g, x, y);
        }
        assert forall|i: int| 0 <= i < start.atoms.len() implies reacted_cell(
            start.atoms[i],
            #[trigger] world@.atoms[i],
        ) by {
            assert(reacted_cell(start.atoms[i], g.atoms[i]));
            if g.in_bounds(x, y) && i == crate::atoms::cell_index(g.width, x, y) {
                assert(world@.atoms[i] == a);
            } else {
                assert(world@.atoms[i] == g.atoms[i]);
            }
        }
    }
}

/// Places a new atom in the first empty cell of column x among rows y - 1,
/// y, y + 1 (see `place_in_column`).
fn place_in_column_exec<K: Kinetics>(world: &mut AtomWorld<K>, x: i32, y: i32, a: Atom<K>, Ghost(start): Ghost<Grid<K>>)
    requires
        reacted_from(start, old(world)@),
        fresh(a),
        i32::MIN < y < i32::MAX,
    ensures
        reacted_from(start, final(world)@),
        shape(final(world)@) == place_in_column(shape(old(world)@), x, y, a.atom_type),
{
    let ghost g = world@;
    proof {
        if g.in_bounds(x, (y - 1) as i32) {
            lemma_shape_kind(g, x, (y - 1) as i32);
        }
        if g.in_bounds(x, y) {
            lemma_shape_kind(g, x, y);
        }
        if g.in_bounds(x, (y + 1) as i32) {
            lemma_shape_kind(g, x, (y + 1) as i32);
        }
    }
    if world.is_empty(x, y - 1) {
        put_atom(world, x, y - 1, a, Ghost(start));
    } else if world.is_empty(x, y) {
        put_atom(world, x, y, a, Ghost(start));
    } else if world.is_empty(x, y + 1) {
        put_atom(world, x, y + 1, a, Ghost(start));
    }
}

/// A reaction as found: its two cells and its products.
struct Reaction {
    first: (i32, i32),
    second: (i32, i32),
    products: Vec<(AtomType, Option<u32>)>,
}

impl Reaction {
    spec fn spec(self) -> ReactionSpec {
        ReactionSpec { x1: self.first.0, y1: self.first.1, x2: self.second.0, y2: self.second.1, products: self.products@ }
    }
}

spec fn specs(rs: Seq<Reaction>) -> Seq<ReactionSpec> {
    rs.map_values(|r: Reaction| r.spec())
}

/// A found reaction starts inside the grid and has proper products.
spec fn located(g: Grid<()>, r: ReactionSpec) -> bool {
    g.in_bounds(r.x1, r.y1) && proper_products(r.products)
}

/// Applies one reaction (see `apply_reaction`).
fn apply_reaction_exec<K: Kinetics>(world: &mut AtomWorld<K>, r: &Reaction, Ghost(start): Ghost<Grid<K>>)
    requires
        reacted_from(start, old(world)@),
        start.addressable(),
        located(shape(old(world)@), r.spec()),
    ensures
        reacted_from(start, final(world)@),
        shape(final(world)@) == apply_reaction(shape(old(world)@), r.spec()),
{
    let ghost g0 = shape(world@);
    let (x, y) = r.first;
    let (x2, y2) = r.second;
    proof {
        crate::atoms::lemma_size_cast(start.width);
        crate::atoms::lemma_size_cast(start.height);
    }
    let mut j: usize = 0;
    while j < r.products.len()
        invariant
            reacted_from(start, world@),
            start.addressable(),
            g0.width == start.width,
            g0.height == start.height,
            g0.in_bounds(x, y),
            proper_products(r.products@),
            j <= r.products@.len(),
            shape(world@) == place_products(g0, x, y, r.products@.take(j as int)),
        decreases r.products@.len() - j,
    {
        let (t, lifetime) = r.products[j];
        assert(is_product(r.products@[j as int].0));
        let made = Atom::spawn(t, lifetime, 20);
        place_in_column_exec(world, x - 1, y, made, Ghost(start));
        place_in_column_exec(world, x, y, made, Ghost(start));
        place_in_column_exec(world, x + 1, y, made, Ghost(start));
        assert(r.products@.take(j + 1).drop_last() =~= r.products@.take(j as int));
        j = j + 1;
    }
    assert(r.products@.take(j as int) =~= r.products@);
    put_atom(world, x, y, Atom::default(), Ghost(start));
    put_atom(world, x2, y2, Atom::default(), Ghost(start));
}

proof fn lemma_push_specs(rs: Seq<Reaction>, r: Reaction)
    ensures
        specs(rs.push(r)) == specs(rs).push(r.spec()),
{
    assert(specs(rs.push(r)) =~= specs(rs).push(r.spec()));
}

/// Every reaction, found on the world as it is (see `found_reactions`).
fn find_reactions<K: Kinetics>(world: &AtomWorld<K>) -> (r: Vec<Reaction>)
    requires
        world.wf(),
        world@.addressable(),
    ensures
        specs(r@) == found_reactions(shape(world@), world.height as int),
        forall|i: int| 0 <= i < r@.len() ==> located(shape(world@), #[trigger] specs(r@)[i]),
{
    let ghost g = shape(world@);
    let w = world.width;
    let h = world.height;
    proof {
        crate::atoms::lemma_size_cast(w);
        crate::atoms::lemma_size_cast(h);
    }
    let mut out: Vec<Reaction> = Vec::new();
    let mut y: usize = 0;
    while y < h
        invariant
            world.wf(),
            world@.addressable(),
            g == shape(world@),
            w == world.width,
            h == world.height,
            y <= h,
            specs(out@) == found_reactions(g, y as int),
            forall|i: int| 0 <= i < out@.len() ==> located(g, #[trigger] specs(out@)[i]),
        decreases h - y,
    {
        let ghost rows = specs(out@);
        let mut x: usize = 0;
        while x < w
            invariant
                world.wf(),
                world@.addressable(),
                g == shape(world@),
                w == world.width,
                h == world.height,
                y < h,
                x <= w,
                specs(out@) == rows + row_reactions(g, y as i32, x as int),
                forall|i: int| 0 <= i < out@.len() ==> located(g, #[trigger] specs(out@)[i]),
            decreases w - x,
        {
            let xi = x as i32;
            let yi = y as i32;
            proof {
                assert(world@.in_bounds(xi, yi));
                lemma_shape_kind(world@, xi, yi);
            }
            let t = world.get_atom(xi, yi).unwrap().atom_type;
            let ghost cells = specs(out@);
            let mut k: i32 = 0;
            while k < 9
                invariant
                    world.wf(),
                    world@.addressable(),
                    g == shape(world@),
                    world@.in_bounds(xi, yi),
                    t == g.kind(xi, yi),
                    0 <= k <= 9,
                    specs(out@) == cells + neighbour_reactions(g, xi, yi, k as int),
                    forall|i: int| 0 <= i < out@.len() ==> located(g, #[trigger] specs(out@)[i]),
                decreases 9 - k,
            {
                let ghost before = specs(out@);
                if k != 4 {
                    let nx = xi + k / 3 - 1;
                    let ny = yi + k % 3 - 1;
                    assert(around(xi, yi, k as int) == (nx, ny));
                    if let Some(nb) = world.get_atom(nx, ny) {
                        proof {
                            lemma_shape_kind(world@, nx, ny);
                            lemma_reaction_products(t, nb.atom_type);
                        }
                        if let Some(products) = check_reaction(t, nb.atom_type) {
                            let r = Reaction { first: (xi, yi), second: (nx, ny), products };
                            proof {
                                lemma_push_specs(out@, r);
                            }
                            out.push(r);
                            proof {
                                assert(specs(out@) =~= cells + neighbour_reactions(g, xi, yi, k + 1));
                                assert forall|i: int| 0 <= i < out@.len() implies located(g, #[trigger] specs(out@)[i]) by {
                                    if i < out@.len() - 1 {
                                        assert(specs(out@)[i] == before[i]);
                                    }
                                }
                            }
                        }
                    }
                }
                k = k + 1;
            }
            proof {
                assert(specs(out@) =~= rows + row_reactions(g, y as i32, x + 1));
            }
            x = x + 1;
        }
        proof {
            assert(specs(out@) =~= found_reactions(g, y + 1));
        }
        y = y + 1;
    }
    out
}

/// Lets touching atoms react, as a whole step. First every reaction is found
/// on the world as it was (see `found_reactions`: rows from the top, cells
/// from the left, each atom against its eight neighbours, so a pair is found
/// from both sides). Then each in turn places every product in the first
/// empty cell of each of the three columns around its first atom (where the
/// first empty place lies outside, that product is lost) and empties both of
/// its cells. New products are at 20 degrees with their own lifetime, emptied
/// cells at rest (see `reacted_cell`).
pub fn process_reactions<K: Kinetics>(world: &mut AtomWorld<K>)
    requires
        old(world).wf(),
        old(world)@.addressable(),
    ensures
        final(world).wf(),
        final(world).width == old(world).width,
        final(world).height == old(world).height,
        final(world)@.updated == old(world)@.updated,
        shape(final(world)@) == react(shape(old(world)@)),
        forall|i: int|
            0 <= i < old(world).atoms@.len() ==> reacted_cell(old(world).atoms@[i], #[trigger] final(world).atoms@[i]),
        forall|x: i32, y: i32|
            old(world)@.in_bounds(x, y) && old(world)@.kind(x, y) != AtomType::Empty && (forall|nx: i32, ny: i32|
                is_neighbour(x, y, nx, ny) && old(world)@.in_bounds(nx, ny) ==> spec_reaction(
                    old(world)@.kind(x, y),
                    #[trigger] old(world)@.kind(nx, ny),
                ) is None) ==> #[trigger] final(world)@.kind(x, y) == old(world)@.kind(x, y),
{
    let ghost start = world@;
    let ghost g0 = shape(world@);
    let reactions = find_reactions(world);
    let ghost rs = specs(reactions@);
    let mut i: usize = 0;
    while i < reactions.len()
        invariant
            reacted_from(start, world@),
            start.addressable(),
            g0 == shape(start),
            rs == specs(reactions@),
            rs == found_reactions(g0, start.height as int),
            forall|j: int| 0 <= j < rs.len() ==> located(g0, #[trigger] rs[j]),
            i <= reactions.len(),
            shape(world@) == apply_reactions(g0, rs.take(i as int)),
        decreases reactions.len() - i,
    {
        assert(rs[i as int] == reactions@[i as int].spec());
        assert(located(g0, rs[i as int]));
        apply_reaction_exec(world, &reactions[i], Ghost(start));
        assert(rs.take(i + 1).drop_last() =~= rs.take(i as int));
        i = i + 1;
    }
    assert(rs.take(i as int) =~= rs);
    proof {
        assert forall|x: i32, y: i32|
            start.in_bounds(x, y) && start.kind(x, y) != AtomType::Empty && (forall|nx: i32, ny: i32|
                is_neighbour(x, y, nx, ny) && start.in_bounds(nx, ny) ==> spec_reaction(
                    start.kind(x, y),
                    #[trigger] start.kind(nx, ny),
                ) is None) implies #[trigger] world@.kind(x, y) == start.kind(x, y) by {
            lemma_shape_kind(start, x, y);
            assert forall|nx: i32, ny: i32| is_neighbour(x, y, nx, ny) && g0.in_bounds(nx, ny) implies #[trigger] spec_reaction(
                g0.kind(x, y),
                g0.kind(nx, ny),
            ) is None by {
                lemma_shape_kind(start, nx, ny);
                assert(spec_reaction(start.kind(x, y), start.kind(nx, ny)) is None);
            }
            lemma_unreactive_atoms_stay(g0, x, y);
            lemma_shape_kind(world@, x, y);
        }
    }
}

} // verus!
