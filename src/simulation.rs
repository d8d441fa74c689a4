use vstd::prelude::*;
use crate::actor::Actor;
use crate::ledger::AccountId;
use crate::ledger::BankId;
use crate::ledger::Ledger;
use crate::market::Market;
use crate::market::pending_grown;
use crate::market::lemma_pending_grown_trans;
use crate::market::committed;
use crate::actor::ticked;
use crate::task::Config;
use crate::task::Task;

verus! {

/// What the presentation side sees of one cycle: the number of actors, the
/// number of active listings of each listed kind, and each actor's name and
/// recent log entries.
pub struct Snapshot {
    pub actor_count: usize,
    pub listed_item_kinds: Vec<(String, usize)>,
    pub actor_logs: Vec<(String, Vec<String>)>,
}

/// The world: the market, the ledger, and the actors in a fixed order, each
/// actor's id being its place.
pub struct Simulation {
    market: Market,
    ledger: Ledger,
    actors: Vec<Actor>,
    accounts: Vec<AccountId>,
    config: Config,
}

impl Simulation {
    pub closed spec fn wf(&self) -> bool {
        &&& self.market.wf()
        &&& self.ledger.wf()
        &&& self.accounts@.len() == self.actors@.len()
        &&& forall|i: int| 0 <= i < self.actors@.len() ==> {
            &&& (#[trigger] self.actors@[i]).wf()
            &&& self.actors@[i].id() == i
            &&& self.accounts@[i] == self.actors@[i].account()
        }
    }

    pub closed spec fn actor_count(&self) -> nat {
        self.actors@.len()
    }

    pub closed spec fn market_view(&self) -> Market {
        self.market
    }

    pub closed spec fn ledger_view(&self) -> Ledger {
        self.ledger
    }

    /// The actor with id `i`.
    pub closed spec fn actor_at(&self, i: int) -> Actor {
        self.actors@[i]
    }

    /// Each actor's account, by actor id.
    pub closed spec fn owner_accounts(&self) -> Seq<AccountId> {
        self.accounts@
    }

    pub closed spec fn config_view(&self) -> Config {
        self.config
    }

    /// An empty world run with `config`.
    pub fn new(config: Config) -> (r: Simulation)
        ensures
            r.wf(),
            r.actor_count() == 0,
            r.config_view() == config,
    {
        Simulation { market: Market::new(), ledger: Ledger::new(), actors: Vec::new(), accounts: Vec::new(), config }
    }

    /// Adds a bank named `name`.
    pub fn add_bank(&mut self, name: &str) -> (r: BankId)
        requires
            old(self).wf(),
        ensures
            final(self).wf(),
            final(self).ledger_view().has_bank(r),
            final(self).actor_count() == old(self).actor_count(),
    {
        let r = self.ledger.add_bank(name);
        proof {
            assert forall|i: int| 0 <= i < self.actors@.len() implies {
                &&& (#[trigger] self.actors@[i]).wf()
                &&& self.actors@[i].id() == i
                &&& self.accounts@[i] == self.actors@[i].account()
            } by {
            }
        }
        r
    }

    /// Adds an actor named `name` with an account at `bank` and the task
    /// `task`, and returns its id; `None`, and nothing changes, when `bank`
    /// names no bank.
    pub fn add_actor(&mut self, name: &str, bank: BankId, task: Option<Task>) -> (r: Option<u64>)
        requires
            old(self).wf(),
        ensures
            final(self).wf(),
            r is Some <==> old(self).ledger_view().has_bank(bank),
            r is None ==> final(self).actor_count() == old(self).actor_count(),
            r is Some ==> {
                &&& r->Some_0 == old(self).actor_count()
                &&& final(self).actor_count() == old(self).actor_count() + 1
                &&& final(self).actor_at(r->Some_0 as int).name() == name@
                &&& final(self).actor_at(r->Some_0 as int).task() == task
            },
    {
        if bank.index >= self.ledger.bank_count_exec() {
            return None;
        }
        let id = self.actors.len() as u64;
        let actor = Actor::new(id, name, &mut self.ledger, bank, task);
        self.accounts.push(actor.get_account());
        self.actors.push(actor);
        Some(id)
    }

    /// `s` reports this world: its actor count, each listed kind once with
    /// the number of its active listings, and each actor's name and log in
    /// actor order.
    pub open spec fn describes(&self, s: &Snapshot) -> bool {
        let m = self.market_view();
        &&& s.actor_count == self.actor_count()
        &&& forall|i: int| 0 <= i < s.listed_item_kinds@.len() ==> {
            &&& m.kind_listed((#[trigger] s.listed_item_kinds@[i]).0@)
            &&& s.listed_item_kinds@[i].1 == Set::new(|id: u64| m.active_of_kind(id, s.listed_item_kinds@[i].0@)).len()
        }
        &&& forall|k: Seq<char>| #[trigger] m.kind_listed(k) ==> exists|i: int|
            0 <= i < s.listed_item_kinds@.len() && (#[trigger] s.listed_item_kinds@[i]).0@ == k
        &&& forall|i: int, j: int|
            0 <= i < s.listed_item_kinds@.len() && 0 <= j < s.listed_item_kinds@.len() && i != j
                ==> (#[trigger] s.listed_item_kinds@[i]).0@ != (#[trigger] s.listed_item_kinds@[j]).0@
        &&& s.actor_logs@.len() == self.actor_count()
        &&& forall|i: int| 0 <= i < s.actor_logs@.len() ==> {
            &&& (#[trigger] s.actor_logs@[i]).0@ == self.actor_at(i).name()
            &&& s.actor_logs@[i].1@.map_values(|e: String| e@) == self.actor_at(i).log()
        }
    }

    /// The world as the presentation side sees it.
    pub fn snapshot(&self) -> (r: Snapshot)
        requires
            self.wf(),
        ensures
            self.describes(&r),
    {
        let kinds = self.market.get_listed_item_kinds();
        let mut listed: Vec<(String, usize)> = Vec::new();
        let mut i: usize = 0;
        while i < kinds.len()
            invariant
                self.wf(),
                i <= kinds@.len(),
                listed@.len() == i,
                forall|j: int| 0 <= j < kinds@.len() ==> self.market.kind_listed(#[trigger] kinds@[j]@),
                forall|j: int| 0 <= j < i ==> {
                    &&& (#[trigger] listed@[j]).0@ == kinds@[j]@
                    &&& listed@[j].1 == Set::new(|id: u64| self.market.active_of_kind(id, kinds@[j]@)).len()
                },
            decreases kinds@.len() - i,
        {
            let of_kind = self.market.get_listings_of_kind(kinds[i].as_str());
            proof {
                let k = kinds@[i as int]@;
                let set = Set::new(|id: u64| self.market.active_of_kind(id, k));
                assert(of_kind@.to_set() =~= set);
                of_kind@.unique_seq_to_set();
            }
            listed.push((kinds[i].clone(), of_kind.len()));
            i = i + 1;
        }
        let mut logs: Vec<(String, Vec<String>)> = Vec::new();
        let mut a: usize = 0;
        while a < self.actors.len()
            invariant
                self.wf(),
                a <= self.actors@.len(),
                logs@.len() == a,
                forall|j: int| 0 <= j < a ==> {
                    &&& (#[trigger] logs@[j]).0@ == self.actors@[j].name()
                    &&& logs@[j].1@.map_values(|e: String| e@) == self.actors@[j].log()
                },
            decreases self.actors@.len() - a,
        {
            let actor = &self.actors[a];
            logs.push((actor.get_name(), actor.get_log()));
            a = a + 1;
        }
        let r = Snapshot { actor_count: self.actors.len(), listed_item_kinds: listed, actor_logs: logs };
        proof {
            assert forall|k: Seq<char>| #[trigger] self.market.kind_listed(k) implies exists|i: int|
                0 <= i < r.listed_item_kinds@.len() && (#[trigger] r.listed_item_kinds@[i]).0@ == k by {
                let j = choose|j: int| 0 <= j < kinds@.len() && #[trigger] kinds@[j]@ == k;
                assert(r.listed_item_kinds@[j].0@ == k);
            }
        }
        r
    }

    /// One cycle: the market commits its pending listings, then every actor
    /// ticks once, in id order. Returns the snapshot of the world after it.
    /// The cycle passes through market states `ms` and ledger states `ls`:
    /// `ms[0]` is the old market with its queue committed, and actor `i`
    /// ticks from `ms[i]`, `ls[i]` to `ms[i + 1]`, `ls[i + 1]`. A listing
    /// committed at the start may be bought later in the same cycle.
    pub fn tick(&mut self) -> (r: Snapshot)
        requires
            old(self).wf(),
        ensures
            final(self).wf(),
            exists|ms: Seq<Market>, ls: Seq<Ledger>| {
                &&& ms.len() == old(self).actor_count() + 1
                &&& ls.len() == old(self).actor_count() + 1
                &&& committed(&old(self).market_view(), &ms[0])
                &&& ls[0] == old(self).ledger_view()
                &&& ms[old(self).actor_count() as int] == final(self).market_view()
                &&& ls[old(self).actor_count() as int] == final(self).ledger_view()
                &&& forall|i: int| 0 <= i < old(self).actor_count() ==> #[trigger] ticked(
                    &old(self).actor_at(i),
                    &final(self).actor_at(i),
                    &ms[i],
                    &ms[i + 1],
                    &ls[i],
                    &ls[i + 1],
                    old(self).owner_accounts(),
                    &old(self).config_view(),
                )
            },
            final(self).actor_count() == old(self).actor_count(),
            forall|i: int| 0 <= i < old(self).actor_count() ==> {
                &&& (#[trigger] final(self).actor_at(i)).name() == old(self).actor_at(i).name()
                &&& final(self).actor_at(i).account() == old(self).actor_at(i).account()
                &&& final(self).actor_at(i).task() == old(self).actor_at(i).task()
            },
            final(self).describes(&r),
            forall|i: int| 0 <= i < final(self).market_view().pending().len()
                ==> #[trigger] final(self).market_view().pending()[i].id >= old(self).market_view().next_listing_id(),
    {
        let ghost start = self.market;
        self.market.tick();
        let ghost opened = self.market;
        let ghost mut ms: Seq<Market> = seq![self.market];
        let ghost mut ls: Seq<Ledger> = seq![self.ledger];
        proof {
            assert(opened.pending().len() == 0);
            assert(pending_grown(&opened, &opened)) by {
                assert(opened.pending().subrange(0, 0) =~= opened.pending());
            }
        }
        let mut i: usize = 0;
        while i < self.actors.len()
            invariant
                self.wf(),
                self.actors@.len() == old(self).actors@.len(),
                i <= self.actors@.len(),
                opened.pending().len() == 0,
                opened.next_listing_id() == old(self).market.next_listing_id(),
                pending_grown(&opened, &self.market),
                committed(&start, &opened),
                start == old(self).market,
                self.config == old(self).config,
                self.accounts == old(self).accounts,
                ms.len() == i + 1,
                ls.len() == i + 1,
                ms[0] == opened,
                ls[0] == old(self).ledger,
                ms[i as int] == self.market,
                ls[i as int] == self.ledger,
                forall|j: int| i <= j < self.actors@.len() ==> self.actors@[j] == old(self).actors@[j],
                forall|j: int| 0 <= j < i ==> #[trigger] ticked(
                    &old(self).actors@[j],
                    &self.actors@[j],
                    &ms[j],
                    &ms[j + 1],
                    &ls[j],
                    &ls[j + 1],
                    self.accounts@,
                    &self.config,
                ),
                forall|j: int| 0 <= j < self.actors@.len() ==> {
                    &&& (#[trigger] self.actors@[j]).name() == old(self).actors@[j].name()
                    &&& self.actors@[j].account() == old(self).actors@[j].account()
                    &&& self.actors@[j].task() == old(self).actors@[j].task()
                },
            decreases self.actors@.len() - i,
        {
            let ghost before = self.actors@;
            let ghost market_before = self.market;
            self.actors[i].tick(&mut self.market, &mut self.ledger, &self.accounts, &self.config);
            proof {
                ms = ms.push(self.market);
                ls = ls.push(self.ledger);
                assert forall|j: int| 0 <= j < i + 1 implies #[trigger] ticked(
                    &old(self).actors@[j],
                    &self.actors@[j],
                    &ms[j],
                    &ms[j + 1],
                    &ls[j],
                    &ls[j + 1],
                    self.accounts@,
                    &self.config,
                ) by {
                    if j < i {
                        assert(self.actors@[j] == before[j]);
                    }
                }
                assert forall|j: int| i + 1 <= j < self.actors@.len() implies self.actors@[j] == old(self).actors@[j] by {
                    assert(self.actors@[j] == before[j]);
                }
                lemma_pending_grown_trans(&opened, &market_before, &self.market);
                assert forall|j: int| 0 <= j < self.actors@.len() implies {
                    &&& (#[trigger] self.actors@[j]).wf()
                    &&& self.actors@[j].id() == j
                    &&& self.accounts@[j] == self.actors@[j].account()
                } by {
                    if j != i as int {
                        assert(self.actors@[j] == before[j]);
                    }
                }
                assert forall|j: int| 0 <= j < self.actors@.len() implies {
                    &&& (#[trigger] self.actors@[j]).name() == old(self).actors@[j].name()
                    &&& self.actors@[j].account() == old(self).actors@[j].account()
                    &&& self.actors@[j].task() == old(self).actors@[j].task()
                } by {
                    if j != i as int {
                        assert(self.actors@[j] == before[j]);
                    }
                }
            }
            i = i + 1;
        }
        proof {
            assert(ms.len() == old(self).actor_count() + 1);
        }
        self.snapshot()
    }

    /// The market.
    pub fn market(&self) -> (r: &Market)
        ensures
            *r == self.market_view(),
    {
        &self.market
    }

    /// The ledger.
    pub fn ledger(&self) -> (r: &Ledger)
        ensures
            *r == self.ledger_view(),
    {
        &self.ledger
    }

    /// The actor with id `id`, if there is one.
    pub fn actor(&self, id: u64) -> (r: Option<&Actor>)
        ensures
            r is Some <==> id < self.actor_count(),
            r is Some ==> *r->Some_0 == self.actor_at(id as int),
    {
        if id < self.actors.len() as u64 {
            Some(&self.actors[id as usize])
        } else {
            None
        }
    }
}

} // verus!
