use vstd::prelude::*;

verus! {

/// A handle on a bank of a ledger.
#[derive(Clone, Copy, PartialEq, Eq, Structural, Debug)]
pub struct BankId {
    pub index: usize,
}

/// A handle on an account: the bank that holds it and its place there.
#[derive(Clone, Copy, PartialEq, Eq, Structural, Debug)]
pub struct AccountId {
    pub bank: usize,
    pub index: usize,
}

/// A handle on a loan: the bank that issued it and its place there.
#[derive(Clone, Copy, PartialEq, Eq, Structural, Debug)]
pub struct LoanId {
    pub bank: usize,
    pub index: usize,
}

/// A transfer of `amount` from one account to another. Never changed once made.
#[derive(Clone, Copy, PartialEq, Eq, Structural, Debug)]
pub struct Transaction {
    pub from: AccountId,
    pub to: AccountId,
    pub amount: u64,
}

/// A loan of `due` issued by a bank to an account.
#[derive(Clone, Copy, PartialEq, Eq, Structural, Debug)]
pub struct Loan {
    pub issuer: BankId,
    pub borrower: AccountId,
    pub due: u64,
}

/// An account: its name, its bank, and the places in its bank's transaction
/// list of the transactions it took part in. Its balance is never stored.
pub struct Account {
    name: String,
    bank: usize,
    loans: Vec<LoanId>,
    transactions: Vec<usize>,
}

/// A bank owns its accounts, the loans it issued and every transaction that
/// one of its accounts took part in.
pub struct Bank {
    id: BankId,
    name: String,
    accounts: Vec<Account>,
    loans: Vec<Loan>,
    transactions: Vec<Transaction>,
}

/// All banks, each in its own place; handles name banks, accounts and loans by place.
pub struct Ledger {
    banks: Vec<Bank>,
}

/// What a transaction does to the balance of account `a`: the sending side
/// loses the amount, the receiving side gains it. An account on both sides
/// counts as the sender; since a transfer to itself is recorded on it twice
/// (once per side), it lowers its balance by twice the amount.
pub open spec fn effect(t: Transaction, a: AccountId) -> int {
    if t.from == a {
        -(t.amount as int)
    } else if t.to == a {
        t.amount as int
    } else {
        0
    }
}

/// The balance of account `a` over a history of transactions.
pub open spec fn balance_of(h: Seq<Transaction>, a: AccountId) -> int
    decreases h.len(),
{
    if h.len() == 0 {
        0
    } else {
        balance_of(h.drop_last(), a) + effect(h.last(), a)
    }
}

pub open spec fn fits_i64(x: int) -> bool {
    i64::MIN <= x <= i64::MAX
}

/// Every running balance along the history fits a signed 64-bit integer.
pub open spec fn running_balances_fit(h: Seq<Transaction>, a: AccountId) -> bool {
    forall|k: int| 0 <= k <= h.len() ==> #[trigger] fits_i64(balance_of(h.take(k), a))
}

proof fn lemma_running_push(h: Seq<Transaction>, t: Transaction, a: AccountId)
    requires
        running_balances_fit(h, a),
        fits_i64(balance_of(h, a) + effect(t, a)),
    ensures
        running_balances_fit(h.push(t), a),
        balance_of(h.push(t), a) == balance_of(h, a) + effect(t, a),
{
    let h2 = h.push(t);
    assert(h2.drop_last() =~= h);
    assert forall|k: int| 0 <= k <= h2.len() implies #[trigger] fits_i64(balance_of(h2.take(k), a)) by {
        if k <= h.len() {
            assert(h2.take(k) =~= h.take(k));
        } else {
            assert(h2.take(k) =~= h2);
            assert(h.take(h.len() as int) =~= h);
        }
    }
}

impl Ledger {
    pub closed spec fn wf(&self) -> bool {
        &&& forall|b: int| 0 <= b < self.banks@.len() ==> (#[trigger] self.banks@[b]).id.index == b
        &&& forall|b: int, i: int|
            0 <= b < self.banks@.len() && 0 <= i < self.banks@[b].accounts@.len()
                ==> (#[trigger] self.banks@[b].accounts@[i]).bank == b
        &&& forall|b: int, i: int, j: int|
            0 <= b < self.banks@.len() && 0 <= i < self.banks@[b].accounts@.len()
                && 0 <= j < self.banks@[b].accounts@[i].transactions@.len()
                ==> #[trigger] self.banks@[b].accounts@[i].transactions@[j]
                < self.banks@[b].transactions@.len()
        &&& forall|a: AccountId| #[trigger] self.resolves(a) ==> running_balances_fit(self.history(a), a)
    }

    /// `b` names a bank of this ledger.
    pub closed spec fn has_bank(&self, b: BankId) -> bool {
        b.index < self.banks@.len()
    }

    /// `a` names an account of this ledger.
    pub closed spec fn resolves(&self, a: AccountId) -> bool {
        a.bank < self.banks@.len() && a.index < self.banks@[a.bank as int].accounts@.len()
    }

    /// The number of banks.
    pub closed spec fn bank_count(&self) -> nat {
        self.banks@.len()
    }

    /// The number of accounts that bank `b` holds.
    pub closed spec fn accounts_in(&self, b: BankId) -> nat {
        if self.has_bank(b) {
            self.banks@[b.index as int].accounts@.len()
        } else {
            0
        }
    }

    /// The transactions that bank `b` keeps, in the order they were made.
    pub closed spec fn kept_by(&self, b: BankId) -> Seq<Transaction> {
        if self.has_bank(b) {
            self.banks@[b.index as int].transactions@
        } else {
            Seq::empty()
        }
    }

    /// The name of account `a`.
    pub closed spec fn name_of(&self, a: AccountId) -> Seq<char> {
        self.banks@[a.bank as int].accounts@[a.index as int].name@
    }

    /// The loans recorded on account `a`.
    pub closed spec fn loans_of(&self, a: AccountId) -> Seq<LoanId> {
        if self.resolves(a) {
            self.banks@[a.bank as int].accounts@[a.index as int].loans@
        } else {
            Seq::empty()
        }
    }

    /// The loan that `l` names, if any.
    pub closed spec fn loan(&self, l: LoanId) -> Option<Loan> {
        if l.bank < self.banks@.len() && l.index < self.banks@[l.bank as int].loans@.len() {
            Some(self.banks@[l.bank as int].loans@[l.index as int])
        } else {
            None
        }
    }

    /// The transactions that account `a` took part in, in the order they were
    /// recorded on it; empty for a handle that names no account.
    pub closed spec fn history(&self, a: AccountId) -> Seq<Transaction> {
        if self.resolves(a) {
            let bank = self.banks@[a.bank as int];
            let acct = bank.accounts@[a.index as int];
            Seq::new(acct.transactions@.len(), |j: int| bank.transactions@[acct.transactions@[j] as int])
        } else {
            Seq::empty()
        }
    }

    /// The balance of account `a`: the effects of its transactions, summed.
    pub open spec fn balance(&self, a: AccountId) -> int {
        balance_of(self.history(a), a)
    }

    /// Whether a transfer of `amount` from `from` to `to` leaves both
    /// balances within a signed 64-bit integer.
    pub open spec fn transfer_fits(&self, from: AccountId, to: AccountId, amount: u64) -> bool {
        if from == to {
            fits_i64(self.balance(from) - 2 * amount)
        } else {
            fits_i64(self.balance(from) - amount) && fits_i64(self.balance(to) + amount)
        }
    }

    /// An empty ledger.
    pub fn new() -> (r: Ledger)
        ensures
            r.wf(),
            r.bank_count() == 0,
    {
        Ledger { banks: Vec::new() }
    }

    /// Every account of `self` is still there in `later`, under the same name.
    pub open spec fn accounts_kept_in(&self, later: &Ledger) -> bool {
        &&& self.bank_count() <= later.bank_count()
        &&& forall|b: BankId| #[trigger] self.has_bank(b) ==> later.has_bank(b)
        &&& forall|a: AccountId|
            #[trigger] self.resolves(a) ==> later.resolves(a) && later.name_of(a) == self.name_of(a)
    }

    /// Adds a bank named `name` and returns its handle.
    pub fn add_bank(&mut self, name: &str) -> (r: BankId)
        requires
            old(self).wf(),
        ensures
            final(self).wf(),
            r.index == old(self).bank_count(),
            final(self).bank_count() == old(self).bank_count() + 1,
            final(self).has_bank(r),
            final(self).accounts_in(r) == 0,
            final(self).kept_by(r) == Seq::<Transaction>::empty(),
            old(self).accounts_kept_in(&*final(self)),
            forall|a: AccountId| #[trigger] old(self).resolves(a) ==> {
                &&& final(self).history(a) == old(self).history(a)
                &&& final(self).loans_of(a) == old(self).loans_of(a)
            },
            forall|b: BankId| #[trigger] old(self).has_bank(b) ==> {
                &&& final(self).kept_by(b) == old(self).kept_by(b)
                &&& final(self).accounts_in(b) == old(self).accounts_in(b)
            },
            forall|l: LoanId| #[trigger] old(self).loan(l) is Some ==> final(self).loan(l) == old(self).loan(l),
    {
        let id = BankId { index: self.banks.len() };
        self.banks.push(
            Bank {
                id,
                name: name.to_string(),
                accounts: Vec::new(),
                loans: Vec::new(),
                transactions: Vec::new(),
            },
        );
        proof {
            assert forall|a: AccountId| #[trigger] self.resolves(a) implies running_balances_fit(self.history(a), a) by {
                assert(old(self).resolves(a));
                assert(self.banks@[a.bank as int] == old(self).banks@[a.bank as int]);
                assert(self.history(a) == old(self).history(a));
            }
            assert forall|a: AccountId| #[trigger] old(self).resolves(a) implies {
                &&& final(self).history(a) == old(self).history(a)
                &&& final(self).loans_of(a) == old(self).loans_of(a)
            } by {
                assert(self.banks@[a.bank as int] == old(self).banks@[a.bank as int]);
            }
            assert forall|l: LoanId| #[trigger] old(self).loan(l) is Some implies final(self).loan(l) == old(self).loan(l) by {
                assert(self.banks@[l.bank as int] == old(self).banks@[l.bank as int]);
            }
        }
        id
    }

    /// Opens an account named `name` at bank `bank` and returns its handle.
    /// The account starts with no transactions and no loans.
    pub fn open_account(&mut self, bank: BankId, name: &str) -> (r: AccountId)
        requires
            old(self).wf(),
            old(self).has_bank(bank),
        ensures
            final(self).wf(),
            r == (AccountId { bank: bank.index, index: old(self).accounts_in(bank) as usize }),
            !old(self).resolves(r),
            final(self).resolves(r),
            final(self).name_of(r) == name@,
            final(self).history(r) == Seq::<Transaction>::empty(),
            final(self).loans_of(r) == Seq::<LoanId>::empty(),
            final(self).bank_count() == old(self).bank_count(),
            final(self).accounts_in(bank) == old(self).accounts_in(bank) + 1,
            old(self).accounts_kept_in(&*final(self)),
            forall|a: AccountId| #[trigger] old(self).resolves(a) ==> {
                &&& final(self).history(a) == old(self).history(a)
                &&& final(self).loans_of(a) == old(self).loans_of(a)
            },
            forall|b: BankId| #[trigger] old(self).has_bank(b) ==> {
                &&& final(self).kept_by(b) == old(self).kept_by(b)
                &&& b != bank ==> final(self).accounts_in(b) == old(self).accounts_in(b)
            },
            forall|l: LoanId| #[trigger] old(self).loan(l) is Some ==> final(self).loan(l) == old(self).loan(l),
    {
        let b = bank.index;
        let index = self.banks[b].accounts.len();
        let r = AccountId { bank: b, index };
        self.banks[b].accounts.push(
            Account { name: name.to_string(), bank: b, loans: Vec::new(), transactions: Vec::new() },
        );
        proof {
            assert forall|c: int, i: int|
                0 <= c < self.banks@.len() && 0 <= i < self.banks@[c].accounts@.len()
                implies (#[trigger] self.banks@[c].accounts@[i]).bank == c by {
                if c != b as int || i != index as int {
                    assert(self.banks@[c].accounts@[i] == old(self).banks@[c].accounts@[i]);
                }
            }
            assert forall|c: int, i: int, j: int|
                0 <= c < self.banks@.len() && 0 <= i < self.banks@[c].accounts@.len()
                && 0 <= j < self.banks@[c].accounts@[i].transactions@.len()
                implies #[trigger] self.banks@[c].accounts@[i].transactions@[j]
                < self.banks@[c].transactions@.len() by {
                assert(self.banks@[c].accounts@[i] == old(self).banks@[c].accounts@[i]);
            }
            assert(self.history(r) =~= Seq::<Transaction>::empty());
            assert(balance_of(self.history(r).take(0), r) == 0);
            assert forall|a: AccountId| #[trigger] old(self).resolves(a) implies {
                &&& final(self).history(a) == old(self).history(a)
                &&& final(self).loans_of(a) == old(self).loans_of(a)
                &&& final(self).name_of(a) == old(self).name_of(a)
            } by {
                assert(self.banks@[a.bank as int].accounts@[a.index as int]
                    == old(self).banks@[a.bank as int].accounts@[a.index as int]);
                assert(self.history(a) =~= old(self).history(a));
            }
            assert forall|a: AccountId| #[trigger] self.resolves(a) implies running_balances_fit(self.history(a), a) by {
                if a != r {
                    assert(old(self).resolves(a));
                }
            }
            assert forall|l: LoanId| #[trigger] old(self).loan(l) is Some implies final(self).loan(l) == old(self).loan(l) by {
                assert(self.banks@[l.bank as int].loans@ == old(self).banks@[l.bank as int].loans@);
            }
        }
        r
    }

    /// Issues a loan of `amount` from bank `issuer` to `account`: the bank
    /// keeps the loan and the account records its handle. Nothing is issued,
    /// and nothing changes, when either handle names nothing.
    pub fn issue_loan(&mut self, issuer: BankId, account: AccountId, amount: u64) -> (r: Option<LoanId>)
        requires
            old(self).wf(),
        ensures
            final(self).wf(),
            r is Some <==> old(self).has_bank(issuer) && old(self).resolves(account),
            r is None ==> *final(self) == *old(self),
            r is Some ==> {
                let l = r->Some_0;
                &&& old(self).loan(l) is None
                &&& final(self).loan(l) == Some(Loan { issuer, borrower: account, due: amount })
                &&& final(self).loans_of(account) == old(self).loans_of(account).push(l)
            },
            old(self).accounts_kept_in(&*final(self)),
            final(self).bank_count() == old(self).bank_count(),
            forall|a: AccountId| #[trigger] old(self).resolves(a) ==> {
                &&& final(self).history(a) == old(self).history(a)
                &&& a != account ==> final(self).loans_of(a) == old(self).loans_of(a)
            },
            forall|b: BankId| #[trigger] old(self).has_bank(b) ==> {
                &&& final(self).kept_by(b) == old(self).kept_by(b)
                &&& final(self).accounts_in(b) == old(self).accounts_in(b)
            },
            forall|l: LoanId| #[trigger] old(self).loan(l) is Some ==> final(self).loan(l) == old(self).loan(l),
    {
        if issuer.index >= self.banks.len() || account.bank >= self.banks.len()
            || account.index >= self.banks[account.bank].accounts.len() {
            return None;
        }
        let l = LoanId { bank: issuer.index, index: self.banks[issuer.index].loans.len() };
        self.banks[issuer.index].loans.push(Loan { issuer, borrower: account, due: amount });
        self.banks[account.bank].accounts[account.index].loans.push(l);
        proof {
            assert forall|c: int, i: int|
                0 <= c < self.banks@.len() && 0 <= i < self.banks@[c].accounts@.len()
                implies (#[trigger] self.banks@[c].accounts@[i]).bank == c by {
                assert(self.banks@[c].accounts@[i].bank == old(self).banks@[c].accounts@[i].bank);
            }
            assert forall|c: int, i: int, j: int|
                0 <= c < self.banks@.len() && 0 <= i < self.banks@[c].accounts@.len()
                && 0 <= j < self.banks@[c].accounts@[i].transactions@.len()
                implies #[trigger] self.banks@[c].accounts@[i].transactions@[j]
                < self.banks@[c].transactions@.len() by {
                assert(self.banks@[c].accounts@[i].transactions@ == old(self).banks@[c].accounts@[i].transactions@);
                assert(self.banks@[c].transactions@ == old(self).banks@[c].transactions@);
            }
            assert forall|a: AccountId| #[trigger] old(self).resolves(a) implies {
                &&& final(self).history(a) == old(self).history(a)
                &&& final(self).name_of(a) == old(self).name_of(a)
                &&& a != account ==> final(self).loans_of(a) == old(self).loans_of(a)
            } by {
                assert(self.banks@[a.bank as int].accounts@[a.index as int].transactions@
                    == old(self).banks@[a.bank as int].accounts@[a.index as int].transactions@);
                assert(self.banks@[a.bank as int].transactions@ == old(self).banks@[a.bank as int].transactions@);
                assert(self.history(a) =~= old(self).history(a));
                if a != account {
                    assert(self.banks@[a.bank as int].accounts@[a.index as int]
                        == old(self).banks@[a.bank as int].accounts@[a.index as int]);
                }
            }
            assert forall|a: AccountId| #[trigger] self.resolves(a) implies running_balances_fit(self.history(a), a) by {
                assert(old(self).resolves(a));
            }
            assert forall|m: LoanId| #[trigger] old(self).loan(m) is Some implies final(self).loan(m) == old(self).loan(m) by {
                if m.bank != issuer.index {
                    assert(self.banks@[m.bank as int].loans@ == old(self).banks@[m.bank as int].loans@);
                }
            }
        }
        Some(l)
    }

    /// Records a transfer of `amount` from `from` to `to`. Both handles must
    /// name accounts, and both accounts' banks must be present; the transfer
    /// must also leave both balances within a signed 64-bit integer. When so,
    /// the transaction is kept by the bank of each side (twice by one bank
    /// when both sides bank there), recorded on both accounts, and `true` is
    /// returned; otherwise nothing changes and `false` is returned.
    pub fn process_transaction(&mut self, from: AccountId, to: AccountId, amount: u64) -> (r: bool)
        requires
            old(self).wf(),
        ensures
            final(self).wf(),
            r == (old(self).resolves(from) && old(self).resolves(to)
                && old(self).transfer_fits(from, to, amount)),
            transfer_outcome(&*old(self), &*final(self), from, to, amount),
            !r ==> *final(self) == *old(self),
            r ==> {
                let t = Transaction { from, to, amount };
                &&& from == to ==> final(self).history(from) == old(self).history(from).push(t).push(t)
                &&& from != to ==> final(self).history(from) == old(self).history(from).push(t)
                &&& from != to ==> final(self).history(to) == old(self).history(to).push(t)
                &&& from.bank == to.bank ==> final(self).kept_by(BankId { index: from.bank })
                    == old(self).kept_by(BankId { index: from.bank }).push(t).push(t)
                &&& from.bank != to.bank ==> final(self).kept_by(BankId { index: from.bank })
                    == old(self).kept_by(BankId { index: from.bank }).push(t)
                &&& from.bank != to.bank ==> final(self).kept_by(BankId { index: to.bank })
                    == old(self).kept_by(BankId { index: to.bank }).push(t)
            },
            old(self).accounts_kept_in(&*final(self)),
            final(self).bank_count() == old(self).bank_count(),
            forall|a: AccountId| #[trigger] old(self).resolves(a) ==> {
                &&& a != from && a != to ==> final(self).history(a) == old(self).history(a)
                &&& final(self).loans_of(a) == old(self).loans_of(a)
            },
            forall|b: BankId| #[trigger] old(self).has_bank(b) ==> {
                &&& b.index != from.bank && b.index != to.bank ==> final(self).kept_by(b) == old(self).kept_by(b)
                &&& final(self).accounts_in(b) == old(self).accounts_in(b)
            },
            forall|l: LoanId| #[trigger] old(self).loan(l) is Some ==> final(self).loan(l) == old(self).loan(l),
    {
        if from.bank >= self.banks.len() || from.index >= self.banks[from.bank].accounts.len() {
            return false;
        }
        if to.bank >= self.banks.len() || to.index >= self.banks[to.bank].accounts.len() {
            return false;
        }
        let from_bank = self.banks[from.bank].accounts[from.index].bank;
        let to_bank = self.banks[to.bank].accounts[to.index].bank;
        if from_bank >= self.banks.len() || to_bank >= self.banks.len() {
            return false;
        }
        let from_balance = self.get_balance(from);
        let to_balance = self.get_balance(to);
        if from == to {
            if (from_balance as i128) - 2 * (amount as i128) < i64::MIN as i128 {
                return false;
            }
        } else {
            if (from_balance as i128) - (amount as i128) < i64::MIN as i128
                || (to_balance as i128) + (amount as i128) > i64::MAX as i128 {
                return false;
            }
        }
        let t = Transaction { from, to, amount };
        let ghost h_from = self.history(from);
        let ghost h_to = self.history(to);
        let from_place = self.banks[from_bank].transactions.len();
        self.banks[from_bank].transactions.push(t);
        let to_place = self.banks[to_bank].transactions.len();
        self.banks[to_bank].transactions.push(t);
        self.banks[from.bank].accounts[from.index].transactions.push(from_place);
        self.banks[to.bank].accounts[to.index].transactions.push(to_place);
        proof {
            let ob = old(self).banks@;
            let nb = self.banks@;
            assert forall|c: int| 0 <= c < nb.len() implies {
                &&& (#[trigger] nb[c]).id == ob[c].id
                &&& nb[c].loans@ == ob[c].loans@
                &&& nb[c].accounts@.len() == ob[c].accounts@.len()
                &&& ob[c].transactions@.is_prefix_of(nb[c].transactions@)
                &&& (c != from.bank && c != to.bank ==> nb[c].transactions@ == ob[c].transactions@)
                &&& forall|i: int| 0 <= i < nb[c].accounts@.len() ==> {
                    &&& (#[trigger] nb[c].accounts@[i]).bank == ob[c].accounts@[i].bank
                    &&& nb[c].accounts@[i].name == ob[c].accounts@[i].name
                    &&& nb[c].accounts@[i].loans@ == ob[c].accounts@[i].loans@
                    &&& ((c != from.bank || i != from.index) && (c != to.bank || i != to.index)
                        ==> nb[c].accounts@[i].transactions@ == ob[c].accounts@[i].transactions@)
                }
            } by {
            }
            assert(nb[from.bank as int].transactions@[from_place as int] == t);
            assert(nb[to.bank as int].transactions@[to_place as int] == t);
            assert forall|c: int, i: int, j: int|
                0 <= c < self.banks@.len() && 0 <= i < self.banks@[c].accounts@.len()
                && 0 <= j < self.banks@[c].accounts@[i].transactions@.len()
                implies #[trigger] self.banks@[c].accounts@[i].transactions@[j]
                < self.banks@[c].transactions@.len() by {
                let oa = ob[c].accounts@[i].transactions@;
                if j < oa.len() {
                    assert(self.banks@[c].accounts@[i].transactions@[j] == oa[j]);
                    assert(oa[j] < ob[c].transactions@.len());
                }
            }
            assert forall|a: AccountId| #[trigger] old(self).resolves(a) && a != from && a != to
                implies self.history(a) == old(self).history(a) by {
                let oa = ob[a.bank as int].accounts@[a.index as int].transactions@;
                assert forall|j: int| 0 <= j < oa.len() implies
                    self.history(a)[j] == old(self).history(a)[j] by {
                    assert(oa[j] < ob[a.bank as int].transactions@.len());
                }
                assert(self.history(a) =~= old(self).history(a));
            }
            if from == to {
                assert(self.history(from) =~= h_from.push(t).push(t));
                lemma_running_push(h_from, t, from);
                lemma_running_push(h_from.push(t), t, from);
            } else {
                assert(self.history(from) =~= h_from.push(t));
                assert(self.history(to) =~= h_to.push(t));
                lemma_running_push(h_from, t, from);
                lemma_running_push(h_to, t, to);
            }
            assert forall|a: AccountId| #[trigger] self.resolves(a) implies running_balances_fit(self.history(a), a) by {
                assert(old(self).resolves(a));
            }
            assert forall|a: AccountId| #[trigger] old(self).resolves(a) implies {
                &&& final(self).loans_of(a) == old(self).loans_of(a)
                &&& final(self).name_of(a) == old(self).name_of(a)
            } by {
                assert(nb[a.bank as int].accounts@[a.index as int].loans@ == ob[a.bank as int].accounts@[a.index as int].loans@);
            }
            assert forall|l: LoanId| #[trigger] old(self).loan(l) is Some implies final(self).loan(l) == old(self).loan(l) by {
                assert(nb[l.bank as int].loans@ == ob[l.bank as int].loans@);
            }
        }
        true
    }

    /// The balance of account `a`, summed afresh over its transactions; zero
    /// for a handle that names no account.
    pub fn get_balance(&self, a: AccountId) -> (r: i64)
        requires
            self.wf(),
        ensures
            r as int == self.balance(a),
    {
        if a.bank >= self.banks.len() || a.index >= self.banks[a.bank].accounts.len() {
            return 0;
        }
        let bank = &self.banks[a.bank];
        let acct = &bank.accounts[a.index];
        let ghost h = self.history(a);
        assert(running_balances_fit(h, a));
        let mut sum: i64 = 0;
        let mut j: usize = 0;
        assert(h.take(0) =~= Seq::<Transaction>::empty());
        while j < acct.transactions.len()
            invariant
                self.wf(),
                self.resolves(a),
                bank == self.banks@[a.bank as int],
                acct == bank.accounts@[a.index as int],
                h == self.history(a),
                running_balances_fit(h, a),
                h.len() == acct.transactions@.len(),
                j <= h.len(),
                sum as int == balance_of(h.take(j as int), a),
            decreases h.len() - j,
        {
            let place = acct.transactions[j];
            let t = bank.transactions[place];
            proof {
                assert(h.take(j + 1).drop_last() =~= h.take(j as int));
                assert(h.take(j + 1).last() == t);
                assert(fits_i64(balance_of(h.take(j + 1), a)));
            }
            if t.from == a {
                let next: i128 = sum as i128 - t.amount as i128;
                sum = next as i64;
            } else if t.to == a {
                let next: i128 = sum as i128 + t.amount as i128;
                sum = next as i64;
            }
            j = j + 1;
        }
        assert(h.take(h.len() as int) =~= h);
        sum
    }

    /// The number of banks.
    pub fn bank_count_exec(&self) -> (r: usize)
        ensures
            r == self.bank_count(),
            forall|b: BankId| self.has_bank(b) <==> b.index < r,
    {
        self.banks.len()
    }

    /// The name of account `a`, if `a` names an account.
    pub fn get_name(&self, a: AccountId) -> (r: Option<String>)
        requires
            self.wf(),
        ensures
            r is Some <==> self.resolves(a),
            r is Some ==> r->Some_0@ == self.name_of(a),
    {
        if a.bank >= self.banks.len() || a.index >= self.banks[a.bank].accounts.len() {
            return None;
        }
        Some(self.banks[a.bank].accounts[a.index].name.clone())
    }

    /// Whether `a` names an account of this ledger.
    pub fn has_account(&self, a: AccountId) -> (r: bool)
        ensures
            r == self.resolves(a),
    {
        a.bank < self.banks.len() && a.index < self.banks[a.bank].accounts.len()
    }

    /// The bank that holds account `a`, if `a` names an account.
    pub fn get_bank(&self, a: AccountId) -> (r: Option<BankId>)
        requires
            self.wf(),
        ensures
            r is Some <==> self.resolves(a),
            r is Some ==> r->Some_0.index == a.bank && self.has_bank(r->Some_0),
    {
        if a.bank >= self.banks.len() || a.index >= self.banks[a.bank].accounts.len() {
            return None;
        }
        Some(BankId { index: self.banks[a.bank].accounts[a.index].bank })
    }

    /// The number of transactions recorded on account `a`.
    pub fn transaction_count(&self, a: AccountId) -> (r: usize)
        requires
            self.wf(),
        ensures
            r == self.history(a).len(),
    {
        if a.bank >= self.banks.len() || a.index >= self.banks[a.bank].accounts.len() {
            return 0;
        }
        self.banks[a.bank].accounts[a.index].transactions.len()
    }

    /// The number of loans recorded on account `a`.
    pub fn loan_count(&self, a: AccountId) -> (r: usize)
        requires
            self.wf(),
        ensures
            r == self.loans_of(a).len(),
    {
        if a.bank >= self.banks.len() || a.index >= self.banks[a.bank].accounts.len() {
            return 0;
        }
        self.banks[a.bank].accounts[a.index].loans.len()
    }

    /// The number of transactions that bank `b` keeps.
    pub fn bank_transaction_count(&self, b: BankId) -> (r: usize)
        requires
            self.wf(),
        ensures
            r == self.kept_by(b).len(),
    {
        if b.index >= self.banks.len() {
            return 0;
        }
        self.banks[b.index].transactions.len()
    }

    /// The number of accounts that bank `b` holds.
    pub fn bank_account_count(&self, b: BankId) -> (r: usize)
        requires
            self.wf(),
        ensures
            r == self.accounts_in(b),
    {
        if b.index >= self.banks.len() {
            return 0;
        }
        self.banks[b.index].accounts.len()
    }

    /// The amount due on loan `l`, if `l` names a loan.
    pub fn get_due(&self, l: LoanId) -> (r: Option<u64>)
        requires
            self.wf(),
        ensures
            r is Some <==> self.loan(l) is Some,
            r is Some ==> r->Some_0 == self.loan(l)->Some_0.due,
    {
        if l.bank >= self.banks.len() || l.index >= self.banks[l.bank].loans.len() {
            return None;
        }
        Some(self.banks[l.bank].loans[l.index].due)
    }
}

/// How a transfer of `amount` from `from` to `to` leaves the ledger: when
/// both accounts exist and both balances stay in range, the transaction is
/// recorded on both sides (twice on one account that pays itself); otherwise
/// nothing changes. Other accounts' histories are untouched either way.
pub open spec fn transfer_outcome(before: &Ledger, after: &Ledger, from: AccountId, to: AccountId, amount: u64) -> bool {
    let t = Transaction { from, to, amount };
    let ok = before.resolves(from) && before.resolves(to) && before.transfer_fits(from, to, amount);
    &&& !ok ==> *after == *before
    &&& ok && from == to ==> after.history(from) == before.history(from).push(t).push(t)
    &&& ok && from != to ==> after.history(from) == before.history(from).push(t)
    &&& ok && from != to ==> after.history(to) == before.history(to).push(t)
    &&& forall|a: AccountId| #[trigger] before.resolves(a) && a != from && a != to
        ==> after.history(a) == before.history(a)
    &&& before.accounts_kept_in(after)
    &&& after.bank_count() == before.bank_count()
}

/// A transfer between two distinct accounts moves exactly its amount: the
/// sender's balance drops by it, the receiver's rises by it, and each
/// account's history grows by exactly one transaction.
pub proof fn lemma_transfer_moves_amount(
    before: &Ledger,
    after: &Ledger,
    from: AccountId,
    to: AccountId,
    amount: u64,
)
    requires
        from != to,
        after.history(from) == before.history(from).push(Transaction { from, to, amount }),
        after.history(to) == before.history(to).push(Transaction { from, to, amount }),
    ensures
        after.balance(from) == before.balance(from) - amount,
        after.balance(to) == before.balance(to) + amount,
        after.history(from).len() == before.history(from).len() + 1,
        after.history(to).len() == before.history(to).len() + 1,
{
    let t = Transaction { from, to, amount };
    assert(after.history(from).drop_last() =~= before.history(from));
    assert(after.history(to).drop_last() =~= before.history(to));
}

/// Two distinct accounts with zero balances can always settle a transfer of
/// at most `i64::MAX`.
pub proof fn lemma_transfer_between_fresh_accounts_fits(l: &Ledger, from: AccountId, to: AccountId, amount: u64)
    requires
        from != to,
        l.balance(from) == 0,
        l.balance(to) == 0,
        amount <= i64::MAX,
    ensures
        l.transfer_fits(from, to, amount),
{
}

} // verus!
