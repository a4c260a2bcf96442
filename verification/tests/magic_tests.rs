use noita_demo::magic::{
    cast_spell, create_effects, create_spell_from_perks, get_example_spells, total_mana_cost, EffectKind, MagicUser, PerkOutcome,
    Spell, SpellPerk,
};

#[test]
fn perk_names() {
    assert_eq!(SpellPerk::Projectile.name(), "Projectile");
    assert_eq!(SpellPerk::ProjectileGravity.name(), "Gravity");
    assert_eq!(SpellPerk::DamageArea.name(), "Area Damage");
    assert_eq!(SpellPerk::TriggerDeath.name(), "On Death");
    assert_eq!(SpellPerk::Invisibility.name(), "Invisible");
}

#[test]
fn perk_costs() {
    assert_eq!(SpellPerk::Projectile.cost(), 10);
    assert_eq!(SpellPerk::ProjectileGravity.cost(), 5);
    assert_eq!(SpellPerk::Explosion.cost(), 25);
    assert_eq!(SpellPerk::Teleport.cost(), 30);
    assert_eq!(SpellPerk::Invisibility.cost(), 35);
}

#[test]
fn mana_cost_is_the_sum_of_perk_costs() {
    assert_eq!(total_mana_cost(&vec![]), 0);
    assert_eq!(total_mana_cost(&vec![SpellPerk::Projectile, SpellPerk::DamageFire, SpellPerk::Explosion]), 45);
    let spell = Spell::new(vec![SpellPerk::Teleport, SpellPerk::Shield]);
    assert_eq!(spell.mana_cost, 50);
    assert_eq!(spell.perks, vec![SpellPerk::Teleport, SpellPerk::Shield]);
    let same = create_spell_from_perks(vec![SpellPerk::Teleport, SpellPerk::Shield]);
    assert_eq!(same.mana_cost, 50);
}

#[test]
fn casting_needs_cooldown_and_mana() {
    let spell = Spell::new(vec![SpellPerk::Projectile, SpellPerk::Damage]);
    assert!(spell.can_cast(18, true));
    assert!(!spell.can_cast(17, true));
    assert!(!spell.can_cast(100, false));
}

#[test]
fn default_caster() {
    let user = MagicUser::default();
    assert_eq!((user.mana, user.max_mana, user.selected_spell), (100, 100, 0));
    assert_eq!(user.spells.len(), 2);
    assert_eq!(user.spells[0].mana_cost, 18);
    assert_eq!(user.spells[1].perks, vec![SpellPerk::Projectile, SpellPerk::Explosion]);
    assert_eq!(user.spells[1].mana_cost, 35);
}

#[test]
fn casting_spends_the_selected_spells_mana() {
    let mut user = MagicUser::default();
    assert_eq!(cast_spell(&mut user, true, true), Some(0));
    assert_eq!(user.mana, 82);
    user.selected_spell = 1;
    assert_eq!(cast_spell(&mut user, true, true), Some(1));
    assert_eq!(user.mana, 47);
    assert_eq!(cast_spell(&mut user, true, true), Some(1));
    assert_eq!(user.mana, 12);
    assert_eq!(cast_spell(&mut user, true, true), None);
    assert_eq!(user.mana, 12);
}

#[test]
fn no_cast_without_cooldown_aim_or_spells() {
    let mut user = MagicUser::default();
    assert_eq!(cast_spell(&mut user, false, true), None);
    assert_eq!(cast_spell(&mut user, true, false), None);
    assert_eq!(user.mana, 100);
    let mut empty = MagicUser { mana: 50, max_mana: 50, spells: vec![], selected_spell: 3 };
    assert_eq!(cast_spell(&mut empty, true, true), None);
    assert_eq!(empty.mana, 50);
}

#[test]
fn example_spells() {
    let spells = get_example_spells();
    assert_eq!(spells.len(), 8);
    assert_eq!(spells[0].perks, vec![SpellPerk::Projectile, SpellPerk::Damage]);
    assert_eq!(spells[1].mana_cost, 45);
    assert_eq!(spells[2].mana_cost, 35);
    assert_eq!(spells[6].perks, vec![SpellPerk::Projectile, SpellPerk::Multiply, SpellPerk::Damage]);
    assert_eq!(spells[6].mana_cost, 38);
    assert_eq!(spells[7].perks, vec![SpellPerk::Teleport]);
    assert_eq!(spells[7].mana_cost, 30);
}

#[test]
fn perks_become_effects_in_order() {
    let outcomes = create_effects(&vec![
        SpellPerk::Projectile,
        SpellPerk::DamageFire,
        SpellPerk::Multiply,
        SpellPerk::Explosion,
        SpellPerk::Split,
    ]);
    assert_eq!(
        outcomes,
        vec![
            PerkOutcome::Nothing,
            PerkOutcome::Effect(EffectKind::FireDamage),
            PerkOutcome::Projectiles(2),
            PerkOutcome::Effect(EffectKind::Explosion),
            PerkOutcome::Nothing,
        ]
    );
}
