use programming_game::inventory::{Inventory, ResourceKind};

#[test]
fn inventory_starts_empty() {
    let inv = Inventory::default();
    assert!(inv.is_empty());
}

#[test]
fn inventory_push_holds_up_to_capacity() {
    let mut inv = Inventory::default();
    inv.push(ResourceKind::Energy);
    inv.push(ResourceKind::Grass);
    assert_eq!(
        inv.queue.iter().copied().collect::<Vec<_>>(),
        vec![ResourceKind::Energy, ResourceKind::Grass]
    );
}

#[test]
fn inventory_push_evicts_oldest_when_full() {
    let mut inv = Inventory::default();
    inv.push(ResourceKind::Energy);
    inv.push(ResourceKind::Grass);
    inv.push(ResourceKind::Wood);
    assert_eq!(
        inv.queue.iter().copied().collect::<Vec<_>>(),
        vec![ResourceKind::Grass, ResourceKind::Wood]
    );
}

#[test]
fn inventory_push_returns_none_within_capacity() {
    let mut inv = Inventory::default();
    assert_eq!(inv.push(ResourceKind::Energy), None);
    assert_eq!(inv.push(ResourceKind::Grass), None);
}

#[test]
fn inventory_push_returns_evicted_kind_when_full() {
    let mut inv = Inventory::default();
    inv.push(ResourceKind::Energy);
    inv.push(ResourceKind::Grass);
    assert_eq!(inv.push(ResourceKind::Wood), Some(ResourceKind::Energy));
}

#[test]
fn inventory_drain_into_clears_queue_and_increments_counts() {
    let mut inv = Inventory::default();
    inv.push(ResourceKind::Energy);
    inv.push(ResourceKind::Grass);
    let mut counts = [0u32; ResourceKind::COUNT];
    inv.drain_into(&mut counts);
    assert!(inv.is_empty());
    assert_eq!(counts[ResourceKind::Energy.index()], 1);
    assert_eq!(counts[ResourceKind::Grass.index()], 1);
    assert_eq!(counts[ResourceKind::Wood.index()], 0);
}

#[test]
fn names_and_kinds_correspond() {
    for kind in ResourceKind::all() {
        assert_eq!(ResourceKind::from_token(kind.label()), Some(kind));
    }
    assert_eq!(ResourceKind::Energy.label(), "energy");
    assert_eq!(ResourceKind::Grass.label(), "grass");
    assert_eq!(ResourceKind::Wood.label(), "wood");
    assert_eq!(ResourceKind::from_token("Energy"), None);
    assert_eq!(ResourceKind::from_token(""), None);
    assert_eq!(ResourceKind::from_token("woods"), None);
}

#[test]
fn tally_counts_without_emptying() {
    let mut inv = Inventory::default();
    inv.push(ResourceKind::Wood);
    inv.push(ResourceKind::Wood);
    let mut counts = [1u32, 2, 3];
    inv.tally(&mut counts);
    assert_eq!(counts, [1, 2, 5]);
    assert!(!inv.is_empty());
}

#[test]
fn pushing_conserves() {
    let mut inv = Inventory::default();
    let mut evicted: Vec<ResourceKind> = Vec::new();
    let pushed = [
        ResourceKind::Energy,
        ResourceKind::Grass,
        ResourceKind::Grass,
        ResourceKind::Wood,
        ResourceKind::Energy,
    ];
    for k in pushed {
        evicted.extend(inv.push(k));
        assert!(inv.queue.len() <= Inventory::CAPACITY);
    }
    evicted.extend(inv.queue.iter().copied());
    assert_eq!(evicted, pushed);
}

#[test]
fn indicators_show_the_queue() {
    let mut inv = Inventory::default();
    assert_eq!(inv.carried_at(0), None);
    inv.push(ResourceKind::Grass);
    inv.push(ResourceKind::Wood);
    assert_eq!(inv.carried_at(0), Some(ResourceKind::Grass));
    assert_eq!(inv.carried_at(1), Some(ResourceKind::Wood));
    assert_eq!(inv.carried_at(2), None);
}

#[test]
fn only_energy_spins() {
    assert!(ResourceKind::Energy.spins());
    assert!(!ResourceKind::Grass.spins());
    assert!(!ResourceKind::Wood.spins());
}
