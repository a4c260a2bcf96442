use vstd::prelude::*;

verus! {

/// The kinds of atom the world is made of.
#[derive(Debug, Clone, Copy, PartialEq, Eq, Structural, Hash)]
pub enum AtomType {
    Empty,
    Sand,
    Water,
    Acid,
    Fire,
    Smoke,
    Steam,
    Poison,
    /// Terrain.
    Stone,
}

/// Liquids: water, acid, poison, and steam.
pub open spec fn spec_is_fluid(t: AtomType) -> bool {
    t == AtomType::Water || t == AtomType::Acid || t == AtomType::Poison || t == AtomType::Steam
}

/// Gases: smoke, steam, and fire.
pub open spec fn spec_is_gas(t: AtomType) -> bool {
    t == AtomType::Smoke || t == AtomType::Steam || t == AtomType::Fire
}

/// What fire can ignite: sand and stone.
pub open spec fn spec_can_burn(t: AtomType) -> bool {
    t == AtomType::Sand || t == AtomType::Stone
}

impl AtomType {
    /// Whether this is a liquid (see `spec_is_fluid`).
    pub fn is_fluid(&self) -> (r: bool)
        ensures
            r == spec_is_fluid(*self),
    {
        match self {
            AtomType::Water | AtomType::Acid | AtomType::Poison | AtomType::Steam => true,
            _ => false,
        }
    }

    /// Whether this is a gas (see `spec_is_gas`).
    pub fn is_gas(&self) -> (r: bool)
        ensures
            r == spec_is_gas(*self),
    {
        match self {
            AtomType::Smoke | AtomType::Steam | AtomType::Fire => true,
            _ => false,
        }
    }

    /// Whether fire can ignite this (see `spec_can_burn`).
    pub fn can_burn(&self) -> (r: bool)
        ensures
            r == spec_can_burn(*self),
    {
        match self {
            AtomType::Sand | AtomType::Stone => true,
            _ => false,
        }
    }
}


/// Which way an atom's horizontal velocity points, with a small dead band
/// around zero.
#[derive(Debug, Clone, Copy, PartialEq, Eq, Structural)]
pub enum Drift {
    Left,
    Still,
    Right,
}

/// The kinetic state an atom carries besides its type: velocity, mass,
/// lifetime and temperature.
///
/// That state is floating point and its arithmetic lives with the implementor;
/// the grid logic here only creates, copies and moves these values, and asks
/// them the few questions the cellular rules need.
pub trait Kinetics: Copy + Sized {
    /// What one aging step needs (the elapsed time).
    type Step;

    /// The state of an empty cell: at rest, massless, without lifetime, at room
    /// temperature.
    fn at_rest() -> Self;

    /// The state of a newly placed atom of `atom_type`: at rest, with the mass
    /// of its type, the given lifetime in seconds and the given temperature in
    /// degrees.
    fn spawned(atom_type: AtomType, lifetime_secs: Option<u32>, temperature: i32) -> Self;

    /// The same state with its lifetime set to `lifetime_secs` seconds.
    fn with_lifetime(self, lifetime_secs: u32) -> Self;

    /// The direction of the horizontal velocity, or `Still` inside the dead band.
    fn drift(&self) -> Drift;

    /// The state after one aging step: `None` when its lifetime ran out.
    fn aged(self, step: &Self::Step) -> Option<Self>;

    /// The state after bouncing off an obstacle: velocity reversed and halved.
    fn bounced(self) -> Self;
}

/// One cell of the world: its type and its kinetic state.
#[derive(Clone, Copy)]
pub struct Atom<K> {
    pub atom_type: AtomType,
    pub kinetics: K,
}

/// `a` is a newly placed atom of `atom_type` whose kinetic state is one that
/// `Kinetics::spawned` gives for that type, lifetime and temperature.
pub open spec fn spawned_as<K: Kinetics>(
    a: Atom<K>,
    atom_type: AtomType,
    lifetime_secs: Option<u32>,
    temperature: i32,
) -> bool {
    &&& a.atom_type == atom_type
    &&& call_ensures(K::spawned, (atom_type, lifetime_secs, temperature), a.kinetics)
}

impl<K: Kinetics> Atom<K> {
    /// A newly placed atom of `atom_type` (see `Kinetics::spawned`).
    pub fn spawn(atom_type: AtomType, lifetime_secs: Option<u32>, temperature: i32) -> (r: Self)
        ensures
            spawned_as(r, atom_type, lifetime_secs, temperature),
    {
        Atom { atom_type, kinetics: K::spawned(atom_type, lifetime_secs, temperature) }
    }
}

impl<K: Kinetics> Default for Atom<K> {
    fn default() -> (r: Self)
        ensures
            r.atom_type == AtomType::Empty,
            call_ensures(K::at_rest, (), r.kinetics),
    {
        Atom { atom_type: AtomType::Empty, kinetics: K::at_rest() }
    }
}

/// The mathematical picture of a world: its size, its cells in row-major
/// order, and which cells were already moved this step.
pub struct Grid<K> {
    pub width: usize,
    pub height: usize,
    pub atoms: Seq<Atom<K>>,
    pub updated: Seq<bool>,
}

/// The row-major position of (x, y) in a grid `width` cells wide.
pub open spec fn cell_index(width: usize, x: i32, y: i32) -> int {
    y * width + x
}

impl<K> Grid<K> {
    pub open spec fn wf(self) -> bool {
        &&& self.atoms.len() == self.width * self.height
        &&& self.updated.len() == self.width * self.height
    }

    /// Every cell can be named by `i32` coordinates with room to spare for a
    /// neighbour on either side.
    pub open spec fn addressable(self) -> bool {
        self.width < i32::MAX && self.height < i32::MAX
    }

    /// (x, y) lies inside the grid; the bounds are the sizes as `i32`.
    pub open spec fn in_bounds(self, x: i32, y: i32) -> bool {
        0 <= x < (self.width as i32) && 0 <= y < (self.height as i32)
    }

    pub open spec fn index_of(self, x: i32, y: i32) -> Option<usize> {
        if self.in_bounds(x, y) {
            Some(cell_index(self.width, x, y) as usize)
        } else {
            None
        }
    }

    pub open spec fn at(self, x: i32, y: i32) -> Atom<K> {
        self.atoms[cell_index(self.width, x, y)]
    }

    pub open spec fn kind(self, x: i32, y: i32) -> AtomType {
        self.at(x, y).atom_type
    }

    /// Outside the grid counts as empty.
    pub open spec fn empty_at(self, x: i32, y: i32) -> bool {
        !self.in_bounds(x, y) || self.kind(x, y) == AtomType::Empty
    }

    /// The grid after writing `a` at (x, y); writes outside are ignored.
    pub open spec fn set(self, x: i32, y: i32, a: Atom<K>) -> Grid<K> {
        if self.in_bounds(x, y) {
            Grid { atoms: self.atoms.update(cell_index(self.width, x, y), a), ..self }
        } else {
            self
        }
    }

    /// The grid after exchanging the atoms at two positions and marking both
    /// as moved; nothing happens unless both lie inside.
    pub open spec fn swap(self, x1: i32, y1: i32, x2: i32, y2: i32) -> Grid<K> {
        if self.in_bounds(x1, y1) && self.in_bounds(x2, y2) {
            let i1 = cell_index(self.width, x1, y1);
            let i2 = cell_index(self.width, x2, y2);
            Grid {
                atoms: self.atoms.update(i1, self.atoms[i2]).update(i2, self.atoms[i1]),
                updated: self.updated.update(i1, true).update(i2, true),
                ..self
            }
        } else {
            self
        }
    }

    /// The number of non-empty cells.
    pub open spec fn count(self) -> nat {
        self.count_prefix(self.atoms.len() as int)
    }

    /// The number of non-empty cells among the first `n`.
    pub open spec fn count_prefix(self, n: int) -> nat
        decreases n,
    {
        if n <= 0 {
            0
        } else {
            self.count_prefix(n - 1) + if self.atoms[n - 1].atom_type != AtomType::Empty {
                1nat
            } else {
                0nat
            }
        }
    }
}

pub open spec fn occupied<K>(a: Atom<K>) -> nat {
    if a.atom_type != AtomType::Empty {
        1
    } else {
        0
    }
}

/// Counting non-empty cells only looks at the types of the cells counted.
pub proof fn lemma_count_prefix_same<K>(g: Grid<K>, h: Grid<K>, n: int)
    requires
        0 <= n <= g.atoms.len(),
        n <= h.atoms.len(),
        forall|i: int| 0 <= i < n ==> occupied(#[trigger] g.atoms[i]) == occupied(h.atoms[i]),
    ensures
        g.count_prefix(n) == h.count_prefix(n),
    decreases n,
{
    if n > 0 {
        lemma_count_prefix_same(g, h, n - 1);
        assert(occupied(g.atoms[n - 1]) == occupied(h.atoms[n - 1]));
    }
}

/// Counting non-empty cells only looks at the types of the cells counted,
/// and never counts more where fewer cells are occupied.
pub proof fn lemma_count_prefix_le<K>(g: Grid<K>, h: Grid<K>, n: int)
    requires
        0 <= n <= g.atoms.len(),
        n <= h.atoms.len(),
        forall|i: int| 0 <= i < n ==> occupied(#[trigger] g.atoms[i]) <= occupied(h.atoms[i]),
    ensures
        g.count_prefix(n) <= h.count_prefix(n),
    decreases n,
{
    if n > 0 {
        lemma_count_prefix_le(g, h, n - 1);
        assert(occupied(g.atoms[n - 1]) <= occupied(h.atoms[n - 1]));
    }
}

/// Writing one cell changes the count by what leaves and what arrives.
pub proof fn lemma_count_prefix_update<K>(g: Grid<K>, i: int, a: Atom<K>, n: int)
    requires
        0 <= i < g.atoms.len(),
        0 <= n <= g.atoms.len(),
    ensures
        (Grid { atoms: g.atoms.update(i, a), ..g }).count_prefix(n) + (if i < n { occupied(g.atoms[i]) } else { 0 })
            == g.count_prefix(n) + (if i < n { occupied(a) } else { 0 }),
    decreases n,
{
    if n > 0 {
        lemma_count_prefix_update(g, i, a, n - 1);
    }
}

/// Exchanging two cells keeps the count.
pub proof fn lemma_count_swap<K>(g: Grid<K>, x1: i32, y1: i32, x2: i32, y2: i32)
    requires
        g.wf(),
    ensures
        g.swap(x1, y1, x2, y2).count() == g.count(),
{
    if g.in_bounds(x1, y1) && g.in_bounds(x2, y2) {
        lemma_index_in_range(g, x1, y1);
        lemma_index_in_range(g, x2, y2);
        let i1 = cell_index(g.width, x1, y1);
        let i2 = cell_index(g.width, x2, y2);
        let n = g.atoms.len() as int;
        let g1 = Grid { atoms: g.atoms.update(i1, g.atoms[i2]), ..g };
        lemma_count_prefix_update(g, i1, g.atoms[i2], n);
        lemma_count_prefix_update(g1, i2, g.atoms[i1], n);
        let g2 = Grid { atoms: g1.atoms.update(i2, g.atoms[i1]), ..g1 };
        lemma_count_prefix_same(g.swap(x1, y1, x2, y2), g2, n);
    }
}

/// A width or height read as `i32` never exceeds the size itself.
pub proof fn lemma_size_cast(w: usize)
    ensures
        (w as i32) >= 0 ==> (w as i32) as int <= w as int,
{
    assert((w as i32) >= 0i32 ==> ((w as i32) as u64) <= (w as u64)) by (bit_vector);
}

/// Swapping the same two cells twice puts every atom back where it was;
/// both cells stay marked as moved.
pub proof fn lemma_swap_twice<K>(g: Grid<K>, x1: i32, y1: i32, x2: i32, y2: i32)
    requires
        g.wf(),
    ensures
        g.swap(x1, y1, x2, y2).swap(x1, y1, x2, y2).atoms == g.atoms,
        g.swap(x1, y1, x2, y2).swap(x1, y1, x2, y2).updated == g.swap(x1, y1, x2, y2).updated,
{
    if g.in_bounds(x1, y1) && g.in_bounds(x2, y2) {
        lemma_index_in_range(g, x1, y1);
        lemma_index_in_range(g, x2, y2);
        let h = g.swap(x1, y1, x2, y2);
        assert(h.swap(x1, y1, x2, y2).atoms =~= g.atoms);
        assert(h.swap(x1, y1, x2, y2).updated =~= h.updated);
    }
}

/// Positions inside the grid land inside the cell vector.
pub proof fn lemma_index_in_range<K>(g: Grid<K>, x: i32, y: i32)
    requires
        g.in_bounds(x, y),
    ensures
        0 <= cell_index(g.width, x, y) < g.width * g.height,
        x < g.width,
        y < g.height,
{
    lemma_size_cast(g.width);
    lemma_size_cast(g.height);
    let w = g.width as int;
    let h = g.height as int;
    assert(y * w + x < w * h) by (nonlinear_arith)
        requires
            0 <= x < w,
            0 <= y < h,
    ;
    assert(0 <= y * w) by (nonlinear_arith)
        requires
            0 <= y,
            0 <= w,
    ;
}

/// Distinct positions inside the grid have distinct indices.
pub proof fn lemma_index_injective<K>(g: Grid<K>, x1: i32, y1: i32, x2: i32, y2: i32)
    requires
        g.in_bounds(x1, y1),
        g.in_bounds(x2, y2),
        cell_index(g.width, x1, y1) == cell_index(g.width, x2, y2),
    ensures
        x1 == x2 && y1 == y2,
{
    lemma_index_in_range(g, x1, y1);
    lemma_index_in_range(g, x2, y2);
    let w = g.width as int;
    if y1 < y2 {
        assert(y1 * w + x1 < y2 * w + x2) by (nonlinear_arith)
            requires
                y1 < y2,
                0 <= x1 < w,
                0 <= x2,
        ;
    } else if y2 < y1 {
        assert(y2 * w + x2 < y1 * w + x1) by (nonlinear_arith)
            requires
                y2 < y1,
                0 <= x2 < w,
                0 <= x1,
        ;
    }
}

/// The world grid. `atoms` and `updated` hold one entry per cell in row-major
/// order; `updated` marks the cells already moved during the current step.
pub struct AtomWorld<K> {
    pub width: usize,
    pub height: usize,
    pub atoms: Vec<Atom<K>>,
    pub updated: Vec<bool>,
}

impl<K> View for AtomWorld<K> {
    type V = Grid<K>;

    open spec fn view(&self) -> Grid<K> {
        Grid { width: self.width, height: self.height, atoms: self.atoms@, updated: self.updated@ }
    }
}

impl<K: Kinetics> AtomWorld<K> {
    pub open spec fn wf(&self) -> bool {
        self@.wf()
    }

    /// An empty world: every cell an empty atom at rest, none marked as moved.
    pub fn new(width: usize, height: usize) -> (r: Self)
        requires
            width * height <= usize::MAX,
        ensures
            r.wf(),
            r.width == width,
            r.height == height,
            forall|i: int| 0 <= i < width * height ==> #[trigger] r.atoms@[i] == r.atoms@[0],
            forall|i: int| 0 <= i < width * height ==> r.atoms@[i].atom_type == AtomType::Empty,
            forall|i: int| 0 <= i < width * height ==> call_ensures(K::at_rest, (), r.atoms@[i].kinetics),
            forall|i: int| 0 <= i < width * height ==> !r.updated@[i],
    {
        let n = width * height;
        let blank: Atom<K> = Atom::default();
        let mut atoms: Vec<Atom<K>> = Vec::new();
        let mut updated: Vec<bool> = Vec::new();
        let mut i: usize = 0;
        while i < n
            invariant
                i <= n,
                atoms.len() == i,
                updated.len() == i,
                blank.atom_type == AtomType::Empty,
                call_ensures(K::at_rest, (), blank.kinetics),
                forall|j: int| 0 <= j < i ==> atoms@[j] == blank,
                forall|j: int| 0 <= j < i ==> !updated@[j],
            decreases n - i,
        {
            atoms.push(blank);
            updated.push(false);
            i = i + 1;
        }
        AtomWorld { width, height, atoms, updated }
    }

    /// The position of (x, y) in the cell vectors, or `None` outside the grid.
    pub fn get_index(&self, x: i32, y: i32) -> (r: Option<usize>)
        requires
            self.wf(),
        ensures
            r == self@.index_of(x, y),
            r matches Some(i) ==> i < self.atoms.len() && i == cell_index(self.width, x, y),
    {
        let n = self.atoms.len();
        if x >= 0 && x < self.width as i32 && y >= 0 && y < self.height as i32 {
            proof {
                lemma_index_in_range(self@, x, y);
                let w = self.width as int;
                assert(0 <= y * w <= y * w + x) by (nonlinear_arith)
                    requires
                        0 <= y,
                        0 <= x,
                        0 <= w,
                ;
            }
            let row = (y as usize) * self.width;
            Some(row + (x as usize))
        } else {
            None
        }
    }

    /// The atom at (x, y), or `None` outside the grid.
    pub fn get_atom(&self, x: i32, y: i32) -> (r: Option<&Atom<K>>)
        requires
            self.wf(),
        ensures
            r is Some <==> self@.in_bounds(x, y),
            r matches Some(a) ==> *a == self@.at(x, y),
    {
        match self.get_index(x, y) {
            Some(idx) => Some(&self.atoms[idx]),
            None => None,
        }
    }

    /// The atom at (x, y) to change in place, or `None` outside the grid.
    pub fn get_atom_mut(&mut self, x: i32, y: i32) -> (r: Option<&mut Atom<K>>)
        requires
            old(self).wf(),
        ensures
            r is Some <==> old(self)@.in_bounds(x, y),
            r is None ==> final(self)@ == old(self)@,
            r matches Some(a) ==> *a == old(self)@.at(x, y),
            r matches Some(a) ==> final(self)@ == old(self)@.set(x, y, *final(a)),
    {
        match self.get_index(x, y) {
            Some(idx) => Some(&mut self.atoms[idx]),
            None => None,
        }
    }

    /// Writes `atom` at (x, y); writes outside the grid are ignored.
    pub fn set_atom(&mut self, x: i32, y: i32, atom: Atom<K>)
        requires
            old(self).wf(),
        ensures
            final(self)@ == old(self)@.set(x, y, atom),
            final(self).wf(),
    {
        if let Some(idx) = self.get_index(x, y) {
            self.atoms.set(idx, atom);
        }
    }

    /// Whether (x, y) is empty; outside the grid counts as empty.
    pub fn is_empty(&self, x: i32, y: i32) -> (r: bool)
        requires
            self.wf(),
        ensures
            r == self@.empty_at(x, y),
    {
        match self.get_atom(x, y) {
            Some(atom) => atom.atom_type == AtomType::Empty,
            None => true,
        }
    }

    /// Exchanges the atoms at two positions and marks both as moved; nothing
    /// happens unless both lie inside the grid.
    pub fn swap_atoms(&mut self, x1: i32, y1: i32, x2: i32, y2: i32)
        requires
            old(self).wf(),
        ensures
            final(self)@ == old(self)@.swap(x1, y1, x2, y2),
            final(self).wf(),
    {
        let i1 = self.get_index(x1, y1);
        let i2 = self.get_index(x2, y2);
        if let (Some(idx1), Some(idx2)) = (i1, i2) {
            let a1 = self.atoms[idx1];
            let a2 = self.atoms[idx2];
            self.atoms.set(idx1, a2);
            self.atoms.set(idx2, a1);
            self.updated.set(idx1, true);
            self.updated.set(idx2, true);
        }
    }

    /// Clears every mark of a moved cell.
    pub fn clear_updated(&mut self)
        requires
            old(self).wf(),
        ensures
            final(self)@ == (Grid { updated: Seq::new(old(self).updated@.len(), |i: int| false), ..old(self)@ }),
            final(self).wf(),
    {
        let n = self.updated.len();
        let mut i: usize = 0;
        while i < n
            invariant
                i <= n,
                n == self.updated.len(),
                self.width == old(self).width,
                self.height == old(self).height,
                self.atoms@ == old(self).atoms@,
                self.updated@.len() == old(self).updated@.len(),
                forall|j: int| 0 <= j < i ==> !self.updated@[j],
            decreases n - i,
        {
            self.updated.set(i, false);
            i = i + 1;
        }
        assert(self.updated@ =~= Seq::new(old(self).updated@.len(), |i: int| false));
    }
}

} // verus!
