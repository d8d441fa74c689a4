use economy::actor::Actor;
use economy::ledger::Ledger;
use economy::market::Item;
use economy::market::Market;

fn item(kind: &str) -> Item {
    Item::new(kind)
}

fn price_of(market: &Market, id: u64) -> i64 {
    market.get_listing(id).unwrap().price
}

#[test]
fn mod_list_item() {
    let mut market = Market::new();
    let id = market.list_item(None, item("ABC"), 500);
    assert!(market.get_listings_of_kind("ABC").is_empty());
    assert!(market.is_listed(id));
    market.tick();
    assert_eq!(market.get_listed_item_kinds().len(), 1);
    let abcs = market.get_listings_of_kind("ABC");
    assert_eq!(price_of(&market, *abcs.first().unwrap()), 500);
}

#[test]
fn mod_get_listings_of_kind() {
    let mut market = Market::new();
    market.list_item(None, item("ABC"), 500);
    market.list_item(None, item("ABC"), 750);
    market.list_item(None, item("DEF"), 250);
    market.tick();
    // Two different kinds of listings
    assert_eq!(market.get_listed_item_kinds().len(), 2);
    // Get listings of specific kind
    let abcs = market.get_listings_of_kind("ABC");
    assert_eq!(abcs.len(), 2);
    // Get listings of non-existing item kind
    let should_be_empty = market.get_listings_of_kind("GHI");
    assert_eq!(should_be_empty.len(), 0);
}

#[test]
fn get_listings_of_owner() {
    let mut ledger = Ledger::new();
    let bank = ledger.add_bank("Bank");
    let owner_a = Actor::new(0, "A", &mut ledger, bank, None);
    let owner_b = Actor::new(1, "B", &mut ledger, bank, None);
    let mut market = Market::new();
    market.list_item(Some(owner_a.get_id()), item("ABC"), 500);
    market.list_item(Some(owner_b.get_id()), item("ABC"), 750);
    market.list_item(Some(owner_a.get_id()), item("DEF"), 250);
    market.tick();
    assert_eq!(market.get_listings_of_owner(owner_a.get_id()).len(), 2);
    assert_eq!(market.get_listings_of_owner(owner_b.get_id()).len(), 1);
}

#[test]
fn mod_unlist_item() {
    let mut market = Market::new();
    market.list_item(None, item("ABC"), 500);
    market.list_item(None, item("ABC"), 750);
    market.tick();
    assert_eq!(market.get_listings_of_kind("ABC").len(), 2);
    let abcs = market.get_listings_of_kind("ABC");
    let chosen_listing = *abcs.iter().find(|id| price_of(&market, **id) == 500).unwrap();
    market.unlist_item(chosen_listing);
    assert_eq!(market.get_listings_of_kind("ABC").len(), 1);
}

#[test]
fn buy_listing() {
    let mut ledger = Ledger::new();
    let bank = ledger.add_bank("Bank");
    let owner_a = Actor::new(0, "A", &mut ledger, bank, None);
    let owner_b = Actor::new(1, "B", &mut ledger, bank, None);
    let accounts = vec![owner_a.get_account(), owner_b.get_account()];
    let mut market = Market::new();
    let _listing_a = market.list_item(Some(owner_a.get_id()), item("ABC"), 500);
    let _listing_b = market.list_item(Some(owner_b.get_id()), item("ABC"), 750);
    let listing_c = market.list_item(Some(owner_a.get_id()), item("DEF"), 250);
    market.tick();
    assert_eq!(market.get_listings_of_kind("DEF").len(), 1);
    assert_eq!(market.get_listings_of_kind("ABC").len(), 2);
    assert_eq!(market.get_listings_of_owner(owner_a.get_id()).len(), 2);
    assert_eq!(market.get_listings_of_owner(owner_b.get_id()).len(), 1);
    assert_eq!(ledger.get_balance(owner_a.get_account()), 0);
    assert_eq!(ledger.get_balance(owner_b.get_account()), 0);
    market.buy_listing(listing_c, owner_b.get_account(), &accounts, &mut ledger);
    assert_eq!(market.get_listings_of_kind("DEF").len(), 0);
    assert_eq!(market.get_listings_of_owner(owner_a.get_id()).len(), 1);
    assert_eq!(market.get_listings_of_owner(owner_b.get_id()).len(), 1);
    assert_eq!(ledger.get_balance(owner_a.get_account()), 250);
    assert_eq!(ledger.get_balance(owner_b.get_account()), -250);
}

#[test]
fn listings_of_kind_come_cheapest_first() {
    let mut market = Market::new();
    market.list_item(None, item("ABC"), 750);
    market.list_item(None, item("DEF"), 250);
    market.list_item(None, item("ABC"), 500);
    market.list_item(None, item("ABC"), 100);
    market.tick();
    let prices: Vec<i64> = market
        .get_listings_of_kind("ABC")
        .iter()
        .map(|id| price_of(&market, *id))
        .collect();
    assert_eq!(prices, vec![100, 500, 750]);
    let defs = market.get_listings_of_kind("DEF");
    assert_eq!(defs.len(), 1);
    assert_eq!(price_of(&market, defs[0]), 250);
}

#[test]
fn unlisting_twice_changes_nothing_more() {
    let mut market = Market::new();
    let a = market.list_item(None, item("ABC"), 500);
    market.list_item(None, item("ABC"), 750);
    market.tick();
    market.unlist_item(a);
    assert_eq!(market.get_listings_of_kind("ABC").len(), 1);
    market.unlist_item(a);
    assert_eq!(market.get_listings_of_kind("ABC").len(), 1);
    assert!(!market.is_listed(a));
}

#[test]
fn unlisting_a_bought_listing_changes_nothing() {
    let mut ledger = Ledger::new();
    let bank = ledger.add_bank("Bank");
    let seller = Actor::new(0, "S", &mut ledger, bank, None);
    let buyer = Actor::new(1, "B", &mut ledger, bank, None);
    let accounts = vec![seller.get_account(), buyer.get_account()];
    let mut market = Market::new();
    let sold = market.list_item(Some(0), item("ABC"), 300);
    market.list_item(Some(0), item("ABC"), 400);
    market.tick();
    assert!(market.buy_listing(sold, buyer.get_account(), &accounts, &mut ledger));
    market.unlist_item(sold);
    assert_eq!(market.get_listings_of_kind("ABC").len(), 1);
    assert_eq!(ledger.get_balance(seller.get_account()), 300);
    assert!(!market.buy_listing(sold, buyer.get_account(), &accounts, &mut ledger));
    assert_eq!(ledger.get_balance(buyer.get_account()), -300);
}

#[test]
fn unlisting_a_pending_listing_leaves_it_pending() {
    let mut market = Market::new();
    let a = market.list_item(None, item("ABC"), 500);
    market.unlist_item(a);
    assert!(market.is_listed(a));
    market.tick();
    assert_eq!(market.get_listings_of_kind("ABC").len(), 1);
}

#[test]
fn buying_fails_without_owner_or_owner_account() {
    let mut ledger = Ledger::new();
    let bank = ledger.add_bank("Bank");
    let buyer = Actor::new(0, "B", &mut ledger, bank, None);
    let accounts = vec![buyer.get_account()];
    let mut market = Market::new();
    let unowned = market.list_item(None, item("ABC"), 10);
    let orphan = market.list_item(Some(5), item("ABC"), 20);
    let pending_one = market.list_item(Some(0), item("ABC"), 30);
    market.tick();
    assert!(!market.buy_listing(unowned, buyer.get_account(), &accounts, &mut ledger));
    assert!(!market.buy_listing(orphan, buyer.get_account(), &accounts, &mut ledger));
    assert!(!market.buy_listing(12345, buyer.get_account(), &accounts, &mut ledger));
    assert_eq!(market.get_listings_of_kind("ABC").len(), 3);
    assert!(market.buy_listing(pending_one, buyer.get_account(), &accounts, &mut ledger));
    assert_eq!(market.get_listings_of_kind("ABC").len(), 2);
}

#[test]
fn a_waiting_listing_can_be_bought_and_leaves_the_queue() {
    let mut ledger = Ledger::new();
    let bank = ledger.add_bank("Bank");
    let seller = Actor::new(0, "S", &mut ledger, bank, None);
    let buyer = Actor::new(1, "B", &mut ledger, bank, None);
    let accounts = vec![seller.get_account(), buyer.get_account()];
    let mut market = Market::new();
    let first = market.list_item(Some(0), item("ABC"), 40);
    let waiting = market.list_item(Some(0), item("ABC"), 60);
    let last = market.list_item(Some(0), item("ABC"), 80);
    assert!(market.buy_listing(waiting, buyer.get_account(), &accounts, &mut ledger));
    assert!(!market.is_listed(waiting));
    assert!(market.is_listed(first));
    assert!(market.is_listed(last));
    assert_eq!(ledger.get_balance(seller.get_account()), 60);
    assert_eq!(ledger.get_balance(buyer.get_account()), -60);
    assert!(!market.buy_listing(waiting, buyer.get_account(), &accounts, &mut ledger));
    market.tick();
    let prices: Vec<i64> = market
        .get_listings_of_kind("ABC")
        .iter()
        .map(|id| price_of(&market, *id))
        .collect();
    assert_eq!(prices, vec![40, 80]);
}

#[test]
fn negative_price_makes_the_seller_pay() {
    let mut ledger = Ledger::new();
    let bank = ledger.add_bank("Bank");
    let seller = Actor::new(0, "S", &mut ledger, bank, None);
    let buyer = Actor::new(1, "B", &mut ledger, bank, None);
    let accounts = vec![seller.get_account(), buyer.get_account()];
    let mut market = Market::new();
    let junk = market.list_item(Some(0), item("Junk"), -40);
    market.tick();
    assert!(market.buy_listing(junk, buyer.get_account(), &accounts, &mut ledger));
    assert_eq!(ledger.get_balance(seller.get_account()), -40);
    assert_eq!(ledger.get_balance(buyer.get_account()), 40);
}

#[test]
fn listing_is_removed_even_when_settlement_fails() {
    let mut ledger = Ledger::new();
    let bank = ledger.add_bank("Bank");
    let seller = Actor::new(0, "S", &mut ledger, bank, None);
    let mut other = Ledger::new();
    let other_bank = other.add_bank("Elsewhere");
    other.open_account(other_bank, "X");
    other.open_account(other_bank, "Y");
    let stranger = other.open_account(other_bank, "Z");
    let accounts = vec![seller.get_account()];
    let mut market = Market::new();
    let id = market.list_item(Some(0), item("ABC"), 10);
    market.tick();
    assert!(market.buy_listing(id, stranger, &accounts, &mut ledger));
    assert!(market.get_listings_of_kind("ABC").is_empty());
    assert_eq!(ledger.get_balance(seller.get_account()), 0);
}

#[test]
fn listed_kinds_follow_active_listings() {
    let mut market = Market::new();
    let a = market.list_item(None, item("ABC"), 1);
    market.list_item(None, item("DEF"), 2);
    market.tick();
    market.unlist_item(a);
    let kinds = market.get_listed_item_kinds();
    assert_eq!(kinds, vec!["DEF".to_string()]);
}

#[test]
fn random_items_have_known_kinds_and_fresh_ids() {
    let a = Item::create_random_item();
    let b = Item::create_random_item();
    for it in [&a, &b] {
        assert!(it.kind == "Apple" || it.kind == "Orange" || it.kind == "Banana");
    }
    assert_ne!(a.id, b.id);
    let c = Item::new("Pear");
    assert_eq!(c.kind, "Pear");
    assert_ne!(c.id, a.id);
}

#[test]
fn abc_listings_cheapest_first() {
    let mut market = Market::new();
    market.list_item(None, item("ABC"), 750);
    market.list_item(None, item("ABC"), 500);
    market.list_item(None, item("DEF"), 250);
    market.tick();
    let abcs = market.get_listings_of_kind("ABC");
    assert_eq!(abcs.len(), 2);
    assert_eq!(price_of(&market, abcs[0]), 500);
    assert_eq!(price_of(&market, abcs[1]), 750);
}

#[test]
fn buying_fails_when_owner_account_is_unknown() {
    let mut ledger = Ledger::new();
    let bank = ledger.add_bank("Bank");
    let buyer = Actor::new(0, "B", &mut ledger, bank, None);
    let mut other = Ledger::new();
    let other_bank = other.add_bank("Elsewhere");
    other.open_account(other_bank, "X");
    let ghost_seller = other.open_account(other_bank, "Y");
    let accounts = vec![buyer.get_account(), ghost_seller];
    let mut market = Market::new();
    let id = market.list_item(Some(1), item("ABC"), 10);
    market.tick();
    assert!(!market.buy_listing(id, buyer.get_account(), &accounts, &mut ledger));
    assert_eq!(market.get_listings_of_kind("ABC").len(), 1);
    assert_eq!(ledger.get_balance(buyer.get_account()), 0);
}
