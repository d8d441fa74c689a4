use economy::actions::Action;
use economy::actor::Actor;
use economy::ledger::Ledger;
use economy::market::Item;
use economy::market::Market;
use economy::simulation::Simulation;
use economy::task::Config;
use economy::task::Task;

fn packer_task(work_points: u64) -> Task {
    Task {
        inputs: vec![("Apple".to_string(), 3)],
        outputs: vec![("FoodBox".to_string(), 1)],
        work_points,
    }
}

#[test]
fn packer_buys_apples_consumes_them_once_and_packs_one_box() {
    let config = Config::standard();
    let mut ledger = Ledger::new();
    let bank = ledger.add_bank("Bank");
    let mut packer = Actor::new(0, "Packer", &mut ledger, bank, Some(packer_task(10)));
    let seller = Actor::new(1, "Seller", &mut ledger, bank, None);
    let accounts = vec![packer.get_account(), seller.get_account()];
    let mut market = Market::new();
    for _ in 0..10 {
        market.list_item(Some(1), Item::new("Apple"), 500);
    }
    let mut apples_seen = Vec::new();
    let mut progress_seen = Vec::new();
    for _ in 0..5 {
        market.tick();
        packer.tick(&mut market, &mut ledger, &accounts, &config);
        apples_seen.push(packer.get_store().count("Apple"));
        match packer.get_action() {
            Action::Work(w) => progress_seen.push(w.progress_points()),
            _ => panic!("the packer only works"),
        }
    }
    // One apple bought per tick; the third makes three, which are consumed at once.
    assert_eq!(apples_seen, vec![1, 2, 0, 1, 2]);
    // Progress 4, 8, then 12 passes 10: one box, and a fresh action.
    assert_eq!(progress_seen, vec![0, 0, 4, 8, 0]);
    assert_eq!(packer.get_store().count("FoodBox"), 1);
    assert_eq!(ledger.get_balance(packer.get_account()), -2500);
    assert_eq!(ledger.get_balance(seller.get_account()), 2500);
    assert_eq!(market.get_listings_of_kind("Apple").len(), 5);
    assert_eq!(packer.get_log()[0], "Working progress at 12 points");
}

#[test]
fn surplus_is_listed_once() {
    let config = Config::standard();
    let mut ledger = Ledger::new();
    let bank = ledger.add_bank("Bank");
    let mut farmer = Actor::new(0, "Farmer", &mut ledger, bank, Some(Task {
        inputs: vec![],
        outputs: vec![("Apple".to_string(), 2)],
        work_points: 0,
    }));
    let accounts = vec![farmer.get_account()];
    let mut market = Market::new();
    market.tick();
    farmer.tick(&mut market, &mut ledger, &accounts, &config);
    assert_eq!(farmer.get_store().count("Apple"), 2);
    market.tick();
    farmer.tick(&mut market, &mut ledger, &accounts, &config);
    // Both apples were listed, then two more were produced.
    assert_eq!(farmer.get_submitted_listings().len(), 2);
    assert_eq!(farmer.get_store().count("Apple"), 2);
    market.tick();
    assert_eq!(market.get_listings_of_kind("Apple").len(), 2);
    // The two apples in store are matched by the two already listed.
    farmer.tick(&mut market, &mut ledger, &accounts, &config);
    assert_eq!(farmer.get_submitted_listings().len(), 2);
    assert_eq!(farmer.get_store().count("Apple"), 4);
    // Four in store, two listed: two more are listed.
    market.tick();
    farmer.tick(&mut market, &mut ledger, &accounts, &config);
    assert_eq!(farmer.get_submitted_listings().len(), 4);
    assert_eq!(farmer.get_log()[1], "Need to list 2 of Apple");
}

#[test]
fn simulation_cycle_reports_a_snapshot() {
    let mut sim = Simulation::new(Config::standard());
    let bank = sim.add_bank("Federal Reserve");
    let farmer = Task {
        inputs: vec![],
        outputs: vec![("Apple".to_string(), 1)],
        work_points: 0,
    };
    assert_eq!(sim.add_actor("Actor_1", bank, Some(farmer)), Some(0));
    assert_eq!(sim.add_actor("Actor_2", bank, Some(packer_task(10))), Some(1));
    assert_eq!(sim.add_actor("Actor_3", economy::ledger::BankId { index: 9 }, None), None);
    let first = sim.tick();
    assert_eq!(first.actor_count, 2);
    assert!(first.listed_item_kinds.is_empty());
    assert_eq!(first.actor_logs[0].0, "Actor_1");
    // The first apple is listed in the second cycle and bought in the third.
    sim.tick();
    let third = sim.tick();
    assert!(third.listed_item_kinds.is_empty());
    assert_eq!(sim.actor(1).unwrap().get_store().count("Apple"), 1);
    // Two more are listed in the fourth; one is bought in the fifth.
    sim.tick();
    let fifth = sim.tick();
    assert_eq!(fifth.listed_item_kinds, vec![("Apple".to_string(), 1)]);
    assert_eq!(sim.actor(1).unwrap().get_store().count("Apple"), 2);
    assert_eq!(fifth.actor_logs.len(), 2);
    assert!(sim.actor(2).is_none());
}
