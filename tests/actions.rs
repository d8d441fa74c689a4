use economy::actions::buy_shortage;
use economy::ledger::Ledger;
use economy::market::Item;
use economy::market::Market;
use economy::actions::get_storage_deltas;
use economy::actions::update_storage_target;
use economy::actions::Action;
use economy::actions::ActionResult;
use economy::actions::ChatAction;
use economy::actions::IdleAction;
use economy::actions::WorkAction;
use economy::logbook::LogBook;
use economy::store::Store;
use economy::task::Config;
use economy::task::Task;
use economy::text::with_number;

fn task(inputs: Vec<(&str, u32)>, outputs: Vec<(&str, u32)>, work_points: u64) -> Task {
    Task {
        inputs: inputs.into_iter().map(|(k, n)| (k.to_string(), n)).collect(),
        outputs: outputs.into_iter().map(|(k, n)| (k.to_string(), n)).collect(),
        work_points,
    }
}

#[test]
fn test_get_storage_deltas() {
    let mut target = Store::new();
    target.set("Apple", 7);
    target.set("Orange", 3);
    let mut actual = Store::new();
    actual.set("Apple", 5);
    actual.set("Orange", 10);
    let deltas = get_storage_deltas(&target, &actual);
    let apples = deltas.iter().find(|delta| delta.0 == "Apple").unwrap();
    let oranges = deltas.iter().find(|delta| delta.0 == "Orange").unwrap();
    assert_eq!(apples.1, 2);
    assert_eq!(oranges.1, -7);
}

#[test]
fn deltas_cover_kinds_of_either_store_once() {
    let mut target = Store::new();
    target.set("Apple", 4);
    let mut actual = Store::new();
    actual.set("Apple", 4);
    actual.set("Steak", 2);
    let deltas = get_storage_deltas(&target, &actual);
    assert_eq!(deltas.len(), 2);
    assert_eq!(deltas.iter().find(|d| d.0 == "Apple").unwrap().1, 0);
    assert_eq!(deltas.iter().find(|d| d.0 == "Steak").unwrap().1, -2);
}

#[test]
fn storage_target_scales_inputs_by_safety_factor() {
    let mut target = Store::new();
    target.set("Old", 9);
    let t = task(vec![("Apple", 3), ("Flour", 4)], vec![("Pie", 1)], 8);
    update_storage_target(&mut target, &t, 250);
    assert_eq!(target.count("Apple"), 7);
    assert_eq!(target.count("Flour"), 10);
    assert_eq!(target.count("Old"), 0);
    assert_eq!(target.count("Pie"), 0);
}

#[test]
fn work_waits_for_material_then_consumes_it_once() {
    let t = task(vec![("Apple", 3)], vec![("FoodBox", 1)], 6);
    let config = Config::standard();
    let mut w = WorkAction::new();
    let mut store = Store::new();
    let mut log = LogBook::new();
    store.add("Apple", 2);
    assert!(!w.work(&t, &mut store, &mut log, &config));
    assert!(!w.has_used_material());
    assert_eq!(store.count("Apple"), 2);
    assert_eq!(log.get_entries(), vec!["Does not have enough material yet...".to_string()]);
    store.add("Apple", 2);
    assert!(!w.work(&t, &mut store, &mut log, &config));
    assert!(w.has_used_material());
    assert_eq!(store.count("Apple"), 1);
    assert_eq!(w.progress_points(), 4);
    assert_eq!(log.get_entries()[0], "Working progress at 4 points");
    assert!(w.work(&t, &mut store, &mut log, &config));
    assert_eq!(w.progress_points(), 8);
    assert_eq!(store.count("Apple"), 1);
    assert_eq!(store.count("FoodBox"), 1);
}

#[test]
fn log_keeps_ten_newest_entries() {
    let mut log = LogBook::new();
    for i in 0..12 {
        log.add_entry(&format!("entry {}", i));
    }
    let entries = log.get_entries();
    assert_eq!(entries.len(), 10);
    assert_eq!(entries[0], "entry 11");
    assert_eq!(entries[9], "entry 2");
}

#[test]
fn chat_ends_after_four_ticks() {
    let mut chat = ChatAction::new();
    let mut log = LogBook::new();
    for _ in 0..3 {
        assert!(matches!(chat.tick(&mut log), ActionResult::InProgress));
    }
    match chat.tick(&mut log) {
        ActionResult::Done(Action::Chat(_)) => {}
        _ => panic!("chat should end with a fresh chat"),
    }
    let entries = log.get_entries();
    assert_eq!(entries[0], "Chatting for the 3 time");
    assert_eq!(entries[3], "Chatting for the 0 time");
}

#[test]
fn idle_never_ends() {
    let mut idle = IdleAction::new();
    assert!(matches!(idle.tick(), ActionResult::InProgress));
}

#[test]
fn numbers_are_written_in_decimal() {
    assert_eq!(with_number("a", -120, "b"), "a-120b");
    assert_eq!(with_number("", 0, ""), "0");
    assert_eq!(with_number("", 1907, "!"), "1907!");
    assert_eq!(with_number("", i128::MIN, ""), i128::MIN.to_string());
    assert_eq!(with_number("", i128::MAX, ""), i128::MAX.to_string());
}

#[test]
fn buy_shortage_buys_the_cheapest_listing() {
    let mut ledger = Ledger::new();
    let bank = ledger.add_bank("Bank");
    let buyer = ledger.open_account(bank, "Buyer");
    let seller = ledger.open_account(bank, "Seller");
    let accounts = vec![buyer, seller];
    let mut market = Market::new();
    market.list_item(Some(1), Item::new("Apple"), 700);
    let cheap = market.list_item(Some(1), Item::new("Apple"), 300);
    let mut store = Store::new();
    assert!(!buy_shortage("Apple", buyer, &mut store, &mut market, &mut ledger, &accounts));
    market.tick();
    assert!(buy_shortage("Apple", buyer, &mut store, &mut market, &mut ledger, &accounts));
    assert_eq!(store.count("Apple"), 1);
    assert!(!market.is_listed(cheap));
    assert_eq!(ledger.get_balance(buyer), -300);
    assert!(!buy_shortage("Pear", buyer, &mut store, &mut market, &mut ledger, &accounts));
}
