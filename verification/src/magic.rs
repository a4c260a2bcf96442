use vstd::prelude::*;

verus! {

/// The building blocks spells are made of.
#[derive(Debug, Clone, Copy, PartialEq, Eq, Structural, Hash)]
pub enum SpellPerk {
    // Basic projectile perks
    Projectile,
    ProjectileGravity,
    ProjectilePierce,
    ProjectileBounce,
    ProjectileHoming,

    // Damage perks
    Damage,
    DamageArea,
    DamagePoison,
    DamageFire,
    DamageIce,

    // Effect perks
    Explosion,
    ChainReaction,
    TriggerTimer,
    TriggerDeath,

    // Modifier perks
    Multiply,
    Split,
    Accelerate,
    Decelerate,

    // Special perks
    Teleport,
    Summon,
    Shield,
    Invisibility,
}

pub open spec fn spec_perk_name(p: SpellPerk) -> Seq<char> {
    match p {
        SpellPerk::Projectile => "Projectile"@,
        SpellPerk::ProjectileGravity => "Gravity"@,
        SpellPerk::ProjectilePierce => "Pierce"@,
        SpellPerk::ProjectileBounce => "Bounce"@,
        SpellPerk::ProjectileHoming => "Homing"@,
        SpellPerk::Damage => "Damage"@,
        SpellPerk::DamageArea => "Area Damage"@,
        SpellPerk::DamagePoison => "Poison"@,
        SpellPerk::DamageFire => "Fire"@,
        SpellPerk::DamageIce => "Ice"@,
        SpellPerk::Explosion => "Explosion"@,
        SpellPerk::ChainReaction => "Chain"@,
        SpellPerk::TriggerTimer => "Timer"@,
        SpellPerk::TriggerDeath => "On Death"@,
        SpellPerk::Multiply => "Multiply"@,
        SpellPerk::Split => "Split"@,
        SpellPerk::Accelerate => "Accelerate"@,
        SpellPerk::Decelerate => "Decelerate"@,
        SpellPerk::Teleport => "Teleport"@,
        SpellPerk::Summon => "Summon"@,
        SpellPerk::Shield => "Shield"@,
        SpellPerk::Invisibility => "Invisible"@,
    }
}

/// The mana each perk adds to a spell's cost.
pub open spec fn spec_perk_cost(p: SpellPerk) -> nat {
    match p {
        SpellPerk::Projectile => 10,
        SpellPerk::ProjectileGravity => 5,
        SpellPerk::ProjectilePierce => 15,
        SpellPerk::ProjectileBounce => 12,
        SpellPerk::ProjectileHoming => 20,
        SpellPerk::Damage => 8,
        SpellPerk::DamageArea => 12,
        SpellPerk::DamagePoison => 10,
        SpellPerk::DamageFire => 10,
        SpellPerk::DamageIce => 10,
        SpellPerk::Explosion => 25,
        SpellPerk::ChainReaction => 18,
        SpellPerk::TriggerTimer => 15,
        SpellPerk::TriggerDeath => 15,
        SpellPerk::Multiply => 20,
        SpellPerk::Split => 16,
        SpellPerk::Accelerate => 8,
        SpellPerk::Decelerate => 8,
        SpellPerk::Teleport => 30,
        SpellPerk::Summon => 25,
        SpellPerk::Shield => 20,
        SpellPerk::Invisibility => 35,
    }
}

impl SpellPerk {
    /// The name shown for the perk.
    pub fn name(&self) -> (r: &'static str)
        ensures
            r@ == spec_perk_name(*self),
    {
        match self {
            SpellPerk::Projectile => "Projectile",
            SpellPerk::ProjectileGravity => "Gravity",
            SpellPerk::ProjectilePierce => "Pierce",
            SpellPerk::ProjectileBounce => "Bounce",
            SpellPerk::ProjectileHoming => "Homing",
            SpellPerk::Damage => "Damage",
            SpellPerk::DamageArea => "Area Damage",
            SpellPerk::DamagePoison => "Poison",
            SpellPerk::DamageFire => "Fire",
            SpellPerk::DamageIce => "Ice",
            SpellPerk::Explosion => "Explosion",
            SpellPerk::ChainReaction => "Chain",
            SpellPerk::TriggerTimer => "Timer",
            SpellPerk::TriggerDeath => "On Death",
            SpellPerk::Multiply => "Multiply",
            SpellPerk::Split => "Split",
            SpellPerk::Accelerate => "Accelerate",
            SpellPerk::Decelerate => "Decelerate",
            SpellPerk::Teleport => "Teleport",
            SpellPerk::Summon => "Summon",
            SpellPerk::Shield => "Shield",
            SpellPerk::Invisibility => "Invisible",
        }
    }

    /// The mana the perk adds to a spell's cost.
    pub fn cost(&self) -> (r: u32)
        ensures
            r == spec_perk_cost(*self),
    {
        match self {
            SpellPerk::Projectile => 10,
            SpellPerk::ProjectileGravity => 5,
            SpellPerk::ProjectilePierce => 15,
            SpellPerk::ProjectileBounce => 12,
            SpellPerk::ProjectileHoming => 20,
            SpellPerk::Damage => 8,
            SpellPerk::DamageArea => 12,
            SpellPerk::DamagePoison => 10,
            SpellPerk::DamageFire => 10,
            SpellPerk::DamageIce => 10,
            SpellPerk::Explosion => 25,
            SpellPerk::ChainReaction => 18,
            SpellPerk::TriggerTimer => 15,
            SpellPerk::TriggerDeath => 15,
            SpellPerk::Multiply => 20,
            SpellPerk::Split => 16,
            SpellPerk::Accelerate => 8,
            SpellPerk::Decelerate => 8,
            SpellPerk::Teleport => 30,
            SpellPerk::Summon => 25,
            SpellPerk::Shield => 20,
            SpellPerk::Invisibility => 35,
        }
    }
}

/// The mana a spell made of these perks costs: the sum of their costs.
pub open spec fn spec_mana_cost(perks: Seq<SpellPerk>) -> nat
    decreases perks.len(),
{
    if perks.len() == 0 {
        0
    } else {
        spec_mana_cost(perks.drop_last()) + spec_perk_cost(perks.last())
    }
}

/// The mana cost of a spell made of `perks`.
pub fn total_mana_cost(perks: &Vec<SpellPerk>) -> (r: u32)
    requires
        spec_mana_cost(perks@) <= u32::MAX,
    ensures
        r == spec_mana_cost(perks@),
{
    let mut total: u32 = 0;
    let mut i: usize = 0;
    while i < perks.len()
        invariant
            i <= perks.len(),
            total == spec_mana_cost(perks@.take(i as int)),
            spec_mana_cost(perks@) <= u32::MAX,
        decreases perks.len() - i,
    {
        proof {
            lemma_mana_cost_prefix(perks@, i as int + 1);
        }
        assert(perks@.take(i + 1).drop_last() =~= perks@.take(i as int));
        total = total + perks[i].cost();
        i = i + 1;
    }
    assert(perks@.take(i as int) =~= perks@);
    total
}

/// A spell never costs less than any of its first perks.
proof fn lemma_mana_cost_prefix(perks: Seq<SpellPerk>, n: int)
    requires
        0 <= n <= perks.len(),
    ensures
        spec_mana_cost(perks.take(n)) <= spec_mana_cost(perks),
    decreases perks.len() - n,
{
    if n < perks.len() {
        lemma_mana_cost_prefix(perks, n + 1);
        assert(perks.take(n + 1).drop_last() =~= perks.take(n));
    } else {
        assert(perks.take(n) =~= perks);
    }
}

/// No perk costs more than 35 mana.
proof fn lemma_mana_cost_bound(perks: Seq<SpellPerk>)
    ensures
        spec_mana_cost(perks) <= 35 * perks.len(),
    decreases perks.len(),
{
    if perks.len() > 0 {
        lemma_mana_cost_bound(perks.drop_last());
    }
}

/// Two perks cost the sum of their costs.
proof fn lemma_mana_cost_pair(a: SpellPerk, b: SpellPerk)
    ensures
        spec_mana_cost(seq![a, b]) == spec_perk_cost(a) + spec_perk_cost(b),
{
    let s = seq![a, b];
    let s1 = seq![a];
    assert(s.drop_last() =~= s1);
    assert(s1.drop_last() =~= Seq::<SpellPerk>::empty());
    assert(spec_mana_cost(Seq::<SpellPerk>::empty()) == 0);
    assert(s1.last() == a);
    assert(spec_mana_cost(s1) == spec_mana_cost(s1.drop_last()) + spec_perk_cost(a));
    assert(s.last() == b);
    assert(spec_mana_cost(s) == spec_mana_cost(s.drop_last()) + spec_perk_cost(b));
}

/// Combining perks adds their costs: a spell made of the perks of two spells
/// costs what the two cost together, whatever order the perks come in.
pub proof fn lemma_mana_cost_adds(a: Seq<SpellPerk>, b: Seq<SpellPerk>)
    ensures
        spec_mana_cost(a + b) == spec_mana_cost(a) + spec_mana_cost(b),
        spec_mana_cost(a + b) == spec_mana_cost(b + a),
{
    lemma_mana_cost_adds_left(a, b);
    lemma_mana_cost_adds_left(b, a);
}

proof fn lemma_mana_cost_adds_left(a: Seq<SpellPerk>, b: Seq<SpellPerk>)
    ensures
        spec_mana_cost(a + b) == spec_mana_cost(a) + spec_mana_cost(b),
    decreases b.len(),
{
    if b.len() > 0 {
        lemma_mana_cost_adds_left(a, b.drop_last());
        assert((a + b).drop_last() =~= a + b.drop_last());
        assert((a + b).last() == b.last());
    } else {
        assert(a + b =~= a);
    }
}

/// A spell: the perks it combines and the mana it costs. (How long it cools
/// down, where it was cast and by whom belong to the game around it.)
#[derive(Debug, Clone)]
pub struct Spell {
    pub perks: Vec<SpellPerk>,
    pub mana_cost: u32,
}

impl Spell {
    /// A spell of these perks, costing the sum of their costs.
    pub fn new(perks: Vec<SpellPerk>) -> (r: Self)
        requires
            spec_mana_cost(perks@) <= u32::MAX,
        ensures
            r.perks@ == perks@,
            r.mana_cost == spec_mana_cost(perks@),
    {
        let mana_cost = total_mana_cost(&perks);
        Spell { perks, mana_cost }
    }

    /// The spell can be cast once it has cooled down and the caster has the
    /// mana for it.
    pub fn can_cast(&self, mana: u32, cooled_down: bool) -> (r: bool)
        ensures
            r == (cooled_down && mana >= self.mana_cost),
    {
        cooled_down && mana >= self.mana_cost
    }
}

/// A spell made of `perks`.
pub fn create_spell_from_perks(perks: Vec<SpellPerk>) -> (r: Spell)
    requires
        spec_mana_cost(perks@) <= u32::MAX,
    ensures
        r.perks@ == perks@,
        r.mana_cost == spec_mana_cost(perks@),
{
    Spell::new(perks)
}

/// The mana side of a caster: what it has, what it can hold, the spells it
/// knows and which one is selected. (How fast mana comes back belongs to the
/// game around it.)
pub struct MagicUser {
    pub mana: u32,
    pub max_mana: u32,
    pub spells: Vec<Spell>,
    pub selected_spell: usize,
}

impl Default for MagicUser {
    /// Full mana of 100, knowing a damaging projectile and an exploding one.
    fn default() -> (r: Self)
        ensures
            r.mana == 100,
            r.max_mana == 100,
            r.selected_spell == 0,
            r.spells@.len() == 2,
            r.spells@[0].perks@ == seq![SpellPerk::Projectile, SpellPerk::Damage],
            r.spells@[0].mana_cost == 18,
            r.spells@[1].perks@ == seq![SpellPerk::Projectile, SpellPerk::Explosion],
            r.spells@[1].mana_cost == 35,
    {
        let p0 = vec![SpellPerk::Projectile, SpellPerk::Damage];
        let p1 = vec![SpellPerk::Projectile, SpellPerk::Explosion];
        proof {
            lemma_mana_cost_bound(p0@);
            lemma_mana_cost_bound(p1@);
            lemma_mana_cost_pair(SpellPerk::Projectile, SpellPerk::Damage);
            lemma_mana_cost_pair(SpellPerk::Projectile, SpellPerk::Explosion);
            assert(p0@ =~= seq![SpellPerk::Projectile, SpellPerk::Damage]);
            assert(p1@ =~= seq![SpellPerk::Projectile, SpellPerk::Explosion]);
        }
        let spells = vec![Spell::new(p0), Spell::new(p1)];
        MagicUser { mana: 100, max_mana: 100, spells, selected_spell: 0 }
    }
}

/// The caster fires its selected spell when there is one, it has cooled down,
/// the caster has the mana, and the aim point was found (`aimed`); the spell's
/// cost is then taken from the caster's mana. Returns the spell cast.
pub fn cast_spell(user: &mut MagicUser, cooled_down: bool, aimed: bool) -> (cast: Option<usize>)
    requires
        old(user).spells@.len() > 0 ==> old(user).selected_spell < old(user).spells@.len(),
    ensures
        final(user).max_mana == old(user).max_mana,
        final(user).spells@ == old(user).spells@,
        final(user).selected_spell == old(user).selected_spell,
        cast is Some <==> old(user).spells@.len() > 0 && cooled_down && aimed && old(user).mana
            >= old(user).spells@[old(user).selected_spell as int].mana_cost,
        cast matches Some(i) ==> i == old(user).selected_spell && final(user).mana == old(user).mana
            - old(user).spells@[i as int].mana_cost,
        cast is None ==> final(user).mana == old(user).mana,
{
    if user.spells.len() == 0 {
        return None;
    }
    let index = user.selected_spell;
    let mana = user.mana;
    if !user.spells[index].can_cast(mana, cooled_down) {
        return None;
    }
    if !aimed {
        return None;
    }
    user.mana = user.mana - user.spells[index].mana_cost;
    Some(index)
}

/// The perks of the example spells: projectile, fireball, poison arrow,
/// bouncing bomb, homing missile, chain lightning, multi-shot and teleport.
pub open spec fn example_perks() -> Seq<Seq<SpellPerk>> {
    seq![
        seq![SpellPerk::Projectile, SpellPerk::Damage],
        seq![SpellPerk::Projectile, SpellPerk::DamageFire, SpellPerk::Explosion],
        seq![SpellPerk::Projectile, SpellPerk::DamagePoison, SpellPerk::ProjectilePierce],
        seq![SpellPerk::Projectile, SpellPerk::ProjectileBounce, SpellPerk::Explosion],
        seq![SpellPerk::Projectile, SpellPerk::ProjectileHoming, SpellPerk::DamageArea],
        seq![SpellPerk::Projectile, SpellPerk::ChainReaction, SpellPerk::Damage],
        seq![SpellPerk::Projectile, SpellPerk::Multiply, SpellPerk::Damage],
        seq![SpellPerk::Teleport],
    ]
}

fn example_spell(perks: Vec<SpellPerk>) -> (r: Spell)
    requires
        perks@.len() <= 3,
    ensures
        r.perks@ == perks@,
        r.mana_cost == spec_mana_cost(perks@),
{
    proof {
        lemma_mana_cost_bound(perks@);
    }
    Spell::new(perks)
}

/// The example spells, each costing the sum of its perks' costs.
pub fn get_example_spells() -> (r: Vec<Spell>)
    ensures
        r@.len() == 8,
        forall|i: int|
            0 <= i < 8 ==> (#[trigger] r@[i]).perks@ == example_perks()[i] && r@[i].mana_cost == spec_mana_cost(
                example_perks()[i],
            ),
{
    let spells = vec![
        example_spell(vec![SpellPerk::Projectile, SpellPerk::Damage]),
        example_spell(vec![SpellPerk::Projectile, SpellPerk::DamageFire, SpellPerk::Explosion]),
        example_spell(vec![SpellPerk::Projectile, SpellPerk::DamagePoison, SpellPerk::ProjectilePierce]),
        example_spell(vec![SpellPerk::Projectile, SpellPerk::ProjectileBounce, SpellPerk::Explosion]),
        example_spell(vec![SpellPerk::Projectile, SpellPerk::ProjectileHoming, SpellPerk::DamageArea]),
        example_spell(vec![SpellPerk::Projectile, SpellPerk::ChainReaction, SpellPerk::Damage]),
        example_spell(vec![SpellPerk::Projectile, SpellPerk::Multiply, SpellPerk::Damage]),
        example_spell(vec![SpellPerk::Teleport]),
    ];
    assert(spells@[0].perks@ =~= example_perks()[0]);
    assert(spells@[1].perks@ =~= example_perks()[1]);
    assert(spells@[2].perks@ =~= example_perks()[2]);
    assert(spells@[3].perks@ =~= example_perks()[3]);
    assert(spells@[4].perks@ =~= example_perks()[4]);
    assert(spells@[5].perks@ =~= example_perks()[5]);
    assert(spells@[6].perks@ =~= example_perks()[6]);
    assert(spells@[7].perks@ =~= example_perks()[7]);
    spells
}

/// The kinds of effect a spell instance carries.
#[derive(Debug, Clone, Copy, PartialEq, Eq, Structural)]
pub enum EffectKind {
    Damage,
    AreaDamage,
    FireDamage,
    PoisonDamage,
    Explosion,
}

/// What a perk adds when a spell instance creates its effects: an effect,
/// extra projectiles, or nothing.
#[derive(Debug, Clone, Copy, PartialEq, Eq, Structural)]
pub enum PerkOutcome {
    Effect(EffectKind),
    /// This many extra projectiles, spread around a circle.
    Projectiles(usize),
    Nothing,
}

/// Damage perks give their effect, explosions explode, multiplying adds two
/// projectiles; the other perks add nothing here.
pub open spec fn spec_perk_outcome(p: SpellPerk) -> PerkOutcome {
    match p {
        SpellPerk::Damage => PerkOutcome::Effect(EffectKind::Damage),
        SpellPerk::DamageArea => PerkOutcome::Effect(EffectKind::AreaDamage),
        SpellPerk::DamageFire => PerkOutcome::Effect(EffectKind::FireDamage),
        SpellPerk::DamagePoison => PerkOutcome::Effect(EffectKind::PoisonDamage),
        SpellPerk::Explosion => PerkOutcome::Effect(EffectKind::Explosion),
        SpellPerk::Multiply => PerkOutcome::Projectiles(2),
        _ => PerkOutcome::Nothing,
    }
}

/// The outcomes of a spell's perks, in the order of the perks.
pub fn create_effects(perks: &Vec<SpellPerk>) -> (r: Vec<PerkOutcome>)
    ensures
        r@ == perks@.map_values(|p: SpellPerk| spec_perk_outcome(p)),
{
    let mut outcomes: Vec<PerkOutcome> = Vec::new();
    let mut i: usize = 0;
    while i < perks.len()
        invariant
            0 <= i <= perks@.len(),
            outcomes@ == perks@.take(i as int).map_values(|p: SpellPerk| spec_perk_outcome(p)),
        decreases perks@.len() - i,
    {
        let outcome = match perks[i] {
            SpellPerk::Damage => PerkOutcome::Effect(EffectKind::Damage),
            SpellPerk::DamageArea => PerkOutcome::Effect(EffectKind::AreaDamage),
            SpellPerk::DamageFire => PerkOutcome::Effect(EffectKind::FireDamage),
            SpellPerk::DamagePoison => PerkOutcome::Effect(EffectKind::PoisonDamage),
            SpellPerk::Explosion => PerkOutcome::Effect(EffectKind::Explosion),
            SpellPerk::Multiply => PerkOutcome::Projectiles(2),
            _ => PerkOutcome::Nothing,
        };
        outcomes.push(outcome);
        assert(outcomes@ =~= perks@.take(i + 1).map_values(|p: SpellPerk| spec_perk_outcome(p)));
        i = i + 1;
    }
    assert(perks@.take(perks@.len() as int) =~= perks@);
    outcomes
}

} // verus!
