use vstd::prelude::*;
use crate::actions::Action;
use crate::actions::ActionResult;
use crate::actions::WorkAction;
use crate::actions::prune_listings;
use crate::actions::target_of;
use crate::actions::work_step;
use crate::actions::trading;
use crate::actions::work_note;
use crate::actions::chat_note;
use crate::logbook::logged;
use crate::ledger::AccountId;
use crate::ledger::BankId;
use crate::ledger::Ledger;
use crate::logbook::LogBook;
use crate::market::Market;
use crate::market::pending_grown;
use crate::market::lemma_pending_grown_refl;
use crate::store::Store;
use crate::task::Book;
use crate::task::Config;
use crate::task::Task;

verus! {

/// A work action at the start of a cycle.
pub open spec fn is_fresh_work(a: Action) -> bool {
    a is Work && !a->Work_0.used_material() && a->Work_0.progress() == 0
}

/// One tick of an actor, from `before` to `after`, with the market going
/// from `m0` to `m1` and the ledger from `l0` to `l1`:
/// - its id, name, account and task stay;
/// - the handles it keeps are exactly the old ones that still resolved in
///   `m0`, and handles of listings created during the tick;
/// - the pending listings of `m0` stay queued in place, with only newer
///   ones after them;
/// - an idle actor, and one at work without a task, change nothing else;
/// - a chatting actor logs the chat and counts the tick;
/// - an actor at work with a task sets its target store from the task,
///   trades each delta of its target against its store in turn (`trading`:
///   buying one cheapest unit of a shortage, listing the unlisted part of a
///   surplus, logging each), then runs one production step on its store as
///   trading left it, logs it, and hands over a fresh work action when the
///   cycle ends; the market, ledger, handles and log are those the trading
///   and the step leave.
pub open spec fn ticked(
    before: &Actor,
    after: &Actor,
    m0: &Market,
    m1: &Market,
    l0: &Ledger,
    l1: &Ledger,
    owner_accounts: Seq<AccountId>,
    config: &Config,
) -> bool {
    &&& after.id() == before.id()
    &&& after.name() == before.name()
    &&& after.account() == before.account()
    &&& after.task() == before.task()
    &&& pending_grown(m0, m1)
    &&& forall|x: u64| #[trigger] before.submitted().contains(x) && m0.resolves(x) ==> after.submitted().contains(x)
    &&& forall|x: u64| #[trigger] after.submitted().contains(x) ==> (before.submitted().contains(x) && m0.resolves(x))
        || (m0.next_listing_id() <= x < m1.next_listing_id())
    &&& before.current_action() is Idle ==> {
        &&& after.current_action() == before.current_action()
        &&& after.stock() == before.stock()
        &&& *m1 == *m0
        &&& *l1 == *l0
    }
    &&& before.current_action() is Work && before.task() is Some ==> {
        let t = before.task()->Some_0;
        let w = before.current_action()->Work_0;
        &&& after.target() == target_of(t.inputs@, config.safety_factor_percent)
        &&& exists|
            deltas: Seq<(String, i128)>,
            ss: Seq<Map<Seq<char>, int>>,
            ms: Seq<Market>,
            ls: Seq<Ledger>,
            subs: Seq<Seq<u64>>,
            gs: Seq<Seq<Seq<char>>>,
            next: WorkAction,
            done: bool,
        |
            #![trigger trading(before.id(), before.account(), after.target(), before.stock(), m0, l0, before.submitted(), m1, l1, after.submitted(), deltas, ss, ms, ls, subs, before.log(), gs, owner_accounts, config), work_step(w, next, &t, ss[deltas.len() as int], after.stock(), config, done)]
            {
            let traded = ss[deltas.len() as int];
            &&& trading(
                before.id(),
                before.account(),
                after.target(),
                before.stock(),
                m0,
                l0,
                before.submitted(),
                m1,
                l1,
                after.submitted(),
                deltas,
                ss,
                ms,
                ls,
                subs,
                before.log(),
                gs,
                owner_accounts,
                config,
            )
            &&& work_step(w, next, &t, traded, after.stock(), config, done)
            &&& after.log() == logged(gs[deltas.len() as int], work_note(w, &t, traded, config))
            &&& done ==> is_fresh_work(after.current_action())
            &&& !done ==> after.current_action() == Action::Work(next)
        }
    }
    &&& before.current_action() is Chat ==> {
        let c = before.current_action()->Chat_0;
        &&& after.log() == logged(before.log(), chat_note(c.steps_done()))
        &&& after.stock() == before.stock()
        &&& *m1 == *m0
        &&& *l1 == *l0
        &&& c.steps_done() + 1 >= 4 ==> after.current_action() is Chat
            && after.current_action()->Chat_0.steps_done() == 0
        &&& c.steps_done() + 1 < 4 ==> after.current_action() is Chat
            && after.current_action()->Chat_0.steps_done() == c.steps_done() + 1
    }
    &&& before.current_action() is Work && before.task() is None ==> {
        &&& after.current_action() == before.current_action()
        &&& after.stock() == before.stock()
        &&& *m1 == *m0
        &&& *l1 == *l0
    }
}

/// An autonomous agent: an inventory and a target inventory, an account, a
/// bounded log, the handles of the listings it submitted, its current action
/// and its task.
pub struct Actor {
    id: u64,
    name: String,
    log: LogBook,
    account: AccountId,
    book: Book,
    submitted_listings: Vec<u64>,
    store_actual: Store,
    store_target: Store,
    action: Action,
    task: Option<Task>,
}

impl Actor {
    pub closed spec fn wf(&self) -> bool {
        &&& self.log.wf()
        &&& self.store_actual.wf()
        &&& self.store_target.wf()
        &&& self.action.wf()
    }

    pub closed spec fn id(&self) -> u64 {
        self.id
    }

    pub closed spec fn name(&self) -> Seq<char> {
        self.name@
    }

    pub closed spec fn account(&self) -> AccountId {
        self.account
    }

    pub closed spec fn stock(&self) -> Map<Seq<char>, int> {
        self.store_actual@
    }

    pub closed spec fn target(&self) -> Map<Seq<char>, int> {
        self.store_target@
    }

    pub closed spec fn log(&self) -> Seq<Seq<char>> {
        self.log@
    }

    pub closed spec fn current_action(&self) -> Action {
        self.action
    }

    pub closed spec fn task(&self) -> Option<Task> {
        self.task
    }

    pub closed spec fn submitted(&self) -> Seq<u64> {
        self.submitted_listings@
    }

    /// An actor with id `id`, named `name`, with a new account at `bank`,
    /// empty stores and log, at the start of a work cycle on `task`.
    pub fn new(id: u64, name: &str, ledger: &mut Ledger, bank: BankId, task: Option<Task>) -> (r: Actor)
        requires
            old(ledger).wf(),
            old(ledger).has_bank(bank),
        ensures
            final(ledger).wf(),
            r.wf(),
            r.id() == id,
            r.name() == name@,
            r.task() == task,
            r.account().bank == bank.index,
            final(ledger).accounts_in(bank) == old(ledger).accounts_in(bank) + 1,
            !old(ledger).resolves(r.account()),
            final(ledger).resolves(r.account()),
            final(ledger).name_of(r.account()) == name@,
            final(ledger).history(r.account()) == Seq::<crate::ledger::Transaction>::empty(),
            old(ledger).accounts_kept_in(&*final(ledger)),
            forall|a: AccountId| #[trigger] old(ledger).resolves(a) ==> final(ledger).history(a) == old(ledger).history(a),
            r.stock() == Map::<Seq<char>, int>::empty(),
            r.target() == Map::<Seq<char>, int>::empty(),
            r.log() == Seq::<Seq<char>>::empty(),
            r.submitted() == Seq::<u64>::empty(),
            is_fresh_work(r.current_action()),
    {
        let account = ledger.open_account(bank, name);
        Actor {
            id,
            name: name.to_string(),
            log: LogBook::new(),
            account,
            book: Book::new(),
            submitted_listings: Vec::new(),
            store_actual: Store::new(),
            store_target: Store::new(),
            action: Action::Work(WorkAction::new()),
            task,
        }
    }

    /// One tick: drops the handles of listings that no longer resolve, then
    /// runs the current action, and takes the action it hands over when it
    /// is done. `owner_accounts` gives each actor's account by actor id.
    pub fn tick(&mut self, market: &mut Market, ledger: &mut Ledger, owner_accounts: &Vec<AccountId>, config: &Config)
        requires
            old(self).wf(),
            old(market).wf(),
            old(ledger).wf(),
        ensures
            final(self).wf(),
            final(market).wf(),
            final(ledger).wf(),
            ticked(&*old(self), &*final(self), &*old(market), &*final(market), &*old(ledger), &*final(ledger), owner_accounts@, config),
    {
        prune_listings(&mut self.submitted_listings, market);
        let ghost pruned_market = *market;
        let ghost pruned_ledger = *ledger;
        match self.action {
            Action::Work(w0) => {
                let mut w = w0;
                let ghost pruned_sub = self.submitted_listings@;
                let ghost log0 = self.log@;
                let ghost stock0 = self.store_actual@;
                let result = w.tick(
                    self.id,
                    self.account,
                    &self.task,
                    &mut self.log,
                    &mut self.submitted_listings,
                    &mut self.store_actual,
                    &mut self.store_target,
                    market,
                    ledger,
                    owner_accounts,
                    config,
                );
                let ghost done = result is Done;
                let ghost found: (Seq<(String, i128)>, Seq<Map<Seq<char>, int>>, Seq<Market>, Seq<Ledger>, Seq<Seq<u64>>, Seq<Seq<Seq<char>>>) =
                    if self.task is Some {
                        let t = self.task->Some_0;
                        choose|
                            deltas: Seq<(String, i128)>,
                            ss: Seq<Map<Seq<char>, int>>,
                            ms: Seq<Market>,
                            ls: Seq<Ledger>,
                            subs: Seq<Seq<u64>>,
                            gs: Seq<Seq<Seq<char>>>,
                        |
                            #[trigger] trading(
                                self.id,
                                self.account,
                                self.store_target@,
                                stock0,
                                &pruned_market,
                                &pruned_ledger,
                                pruned_sub,
                                &*market,
                                &*ledger,
                                self.submitted_listings@,
                                deltas,
                                ss,
                                ms,
                                ls,
                                subs,
                                log0,
                                gs,
                                owner_accounts@,
                                config,
                            ) && work_step(w0, w, &t, ss[deltas.len() as int], self.store_actual@, config, done)
                            && self.log@ == logged(gs[deltas.len() as int], work_note(w0, &t, ss[deltas.len() as int], config))
                    } else {
                        arbitrary()
                    };
                match result {
                    ActionResult::InProgress => {
                        self.action = Action::Work(w);
                    },
                    ActionResult::Done(next) => {
                        self.action = next;
                    },
                }
                proof {
                    if self.task is Some {
                        let t = self.task->Some_0;
                        let (deltas, ss, ms, ls, subs, gs) = found;
                        assert(trading(self.id, self.account, self.store_target@, stock0, &pruned_market, &pruned_ledger,
                            pruned_sub, &*market, &*ledger, self.submitted_listings@, deltas, ss, ms, ls, subs, log0, gs,
                            owner_accounts@, config));
                        assert forall|x: u64| #[trigger] subs[0].contains(x) <==> old(self).submitted().contains(x)
                            && old(market).resolves(x) by {
                        }
                        assert(old(self).current_action()->Work_0 == w0);
                        assert(trading(old(self).id(), old(self).account(), self.target(), old(self).stock(),
                            &*old(market), &*old(ledger), old(self).submitted(), &*market, &*ledger, self.submitted(),
                            deltas, ss, ms, ls, subs, old(self).log(), gs, owner_accounts@, config));
                        assert(work_step(w0, w, &t, ss[deltas.len() as int], self.stock(), config, done));
                        assert(done ==> is_fresh_work(self.current_action()));
                        assert(!done ==> self.current_action() == Action::Work(w));
                    }
                }
            },
            Action::Idle(i0) => {
                let mut i = i0;
                let result = i.tick();
                self.action = Action::Idle(i);
                proof {
                    assert(*market == pruned_market);
                    lemma_pending_grown_refl(&*market);
                }
            },
            Action::Chat(c0) => {
                let mut c = c0;
                let result = c.tick(&mut self.log);
                proof {
                    lemma_pending_grown_refl(&*market);
                }
                match result {
                    ActionResult::InProgress => {
                        self.action = Action::Chat(c);
                    },
                    ActionResult::Done(next) => {
                        self.action = next;
                    },
                }
            },
        }
    }

    /// The actor's account.
    pub fn get_account(&self) -> (r: AccountId)
        ensures
            r == self.account(),
    {
        self.account
    }

    /// The actor's id.
    pub fn get_id(&self) -> (r: u64)
        ensures
            r == self.id(),
    {
        self.id
    }

    /// The actor's name.
    pub fn get_name(&self) -> (r: String)
        ensures
            r@ == self.name(),
    {
        self.name.clone()
    }

    /// The actor's log, newest entry first.
    pub fn get_log(&self) -> (r: Vec<String>)
        requires
            self.wf(),
        ensures
            r@.map_values(|e: String| e@) == self.log(),
    {
        self.log.get_entries()
    }

    /// The actor's inventory.
    pub fn get_store(&self) -> (r: &Store)
        requires
            self.wf(),
        ensures
            r.wf(),
            r@ == self.stock(),
    {
        &self.store_actual
    }

    /// The action the actor is at.
    pub fn get_action(&self) -> (r: Action)
        ensures
            r == self.current_action(),
    {
        self.action
    }

    /// The handles of the listings the actor submitted.
    pub fn get_submitted_listings(&self) -> (r: &Vec<u64>)
        ensures
            r@ == self.submitted(),
    {
        &self.submitted_listings
    }
}

} // verus!
