use vstd::prelude::*;
use crate::store::Store;
use crate::store::count_in;
use crate::store::with_count;
use crate::store::taken_from;
use crate::task::Task;
use crate::task::Config;
use crate::logbook::LogBook;
use crate::logbook::logged;
use crate::text::decimal;
use crate::text::with_number;
use crate::text::joined;
use crate::market::Item;
use crate::market::Market;
use crate::market::settled;
use crate::market::pending_grown;
use crate::market::lemma_pending_grown_refl;
use crate::market::lemma_pending_grown_trans;
use crate::ledger::AccountId;
use crate::ledger::Ledger;

verus! {

/// What a task input of `count` units makes an actor aim to keep, at a
/// safety factor of `percent` percent (rounded down).
pub open spec fn target_amount(count: u32, percent: u32) -> int {
    (count as int * percent as int) / 100
}

/// The target store for `inputs`: each input's kind set to its target
/// amount, a later input of a kind overriding an earlier one.
pub open spec fn target_of(inputs: Seq<(String, u32)>, percent: u32) -> Map<Seq<char>, int>
    decreases inputs.len(),
{
    if inputs.len() == 0 {
        Map::empty()
    } else {
        with_count(
            target_of(inputs.drop_last(), percent),
            inputs.last().0@,
            target_amount(inputs.last().1, percent),
        )
    }
}

/// `kind` is stored in the target or in the actual store.
pub open spec fn in_either(target: Map<Seq<char>, int>, actual: Map<Seq<char>, int>, kind: Seq<char>) -> bool {
    target.contains_key(kind) || actual.contains_key(kind)
}

/// Clears `target` and sets each task input's kind to the amount the actor
/// should keep of it: the input count times the safety factor.
pub fn update_storage_target(target: &mut Store, task: &Task, percent: u32)
    requires
        old(target).wf(),
    ensures
        final(target).wf(),
        final(target)@ == target_of(task.inputs@, percent),
{
    target.clear();
    let mut i: usize = 0;
    proof {
        assert(task.inputs@.take(0) =~= Seq::<(String, u32)>::empty());
    }
    while i < task.inputs.len()
        invariant
            target.wf(),
            i <= task.inputs@.len(),
            target@ == target_of(task.inputs@.take(i as int), percent),
        decreases task.inputs@.len() - i,
    {
        let count = task.inputs[i].1;
        proof {
            assert(task.inputs@.take(i + 1).drop_last() =~= task.inputs@.take(i as int));
            assert(task.inputs@.take(i + 1).last() == task.inputs@[i as int]);
            assert(count as int * percent as int <= 0xffff_ffff * 0xffff_ffff) by (nonlinear_arith)
                requires 0 <= count <= 0xffff_ffff, 0 <= percent <= 0xffff_ffff;
        }
        let amount: u64 = (count as u64 * percent as u64) / 100;
        target.set(task.inputs[i].0.as_str(), amount as i64);
        i = i + 1;
    }
    proof {
        assert(task.inputs@.take(task.inputs@.len() as int) =~= task.inputs@);
    }
}

/// For each kind stored in either store, how many units the actor lacks of
/// its target: positive for a shortage, negative for a surplus. Each such
/// kind appears once.
pub fn get_storage_deltas(target: &Store, actual: &Store) -> (r: Vec<(String, i128)>)
    requires
        target.wf(),
        actual.wf(),
    ensures
        forall|j: int| 0 <= j < r@.len() ==> {
            &&& in_either(target@, actual@, (#[trigger] r@[j]).0@)
            &&& r@[j].1 == target.count_spec(r@[j].0@) - actual.count_spec(r@[j].0@)
        },
        forall|k: Seq<char>| #[trigger] in_either(target@, actual@, k) ==> exists|j: int|
            0 <= j < r@.len() && (#[trigger] r@[j]).0@ == k,
        forall|a: int, b: int|
            0 <= a < r@.len() && 0 <= b < r@.len() && a != b ==> (#[trigger] r@[a]).0@ != (#[trigger] r@[b]).0@,
{
    let mut r: Vec<(String, i128)> = Vec::new();
    let kinds_target = target.get_item_kinds();
    let mut i: usize = 0;
    while i < kinds_target.len()
        invariant
            target.wf(),
            actual.wf(),
            i <= kinds_target@.len(),
            r@.len() == i,
            forall|k: Seq<char>| target@.contains_key(k) <==> exists|i: int|
                0 <= i < kinds_target@.len() && #[trigger] kinds_target@[i]@ == k,
            forall|a: int, b: int|
                0 <= a < kinds_target@.len() && 0 <= b < kinds_target@.len() && a != b
                    ==> #[trigger] kinds_target@[a]@ != #[trigger] kinds_target@[b]@,
            forall|j: int| 0 <= j < r@.len() ==> {
                &&& (#[trigger] r@[j]).0@ == kinds_target@[j]@
                &&& r@[j].1 == target.count_spec(r@[j].0@) - actual.count_spec(r@[j].0@)
            },
        decreases kinds_target@.len() - i,
    {
        let kind = kinds_target[i].as_str();
        proof {
            target.lemma_counts_fit(kind@);
            actual.lemma_counts_fit(kind@);
        }
        let delta: i128 = target.count(kind) as i128 - actual.count(kind) as i128;
        r.push((kinds_target[i].clone(), delta));
        i = i + 1;
    }
    let n_target = r.len();
    let kinds_actual = actual.get_item_kinds();
    let mut i: usize = 0;
    while i < kinds_actual.len()
        invariant
            target.wf(),
            actual.wf(),
            i <= kinds_actual@.len(),
            n_target == kinds_target@.len(),
            n_target <= r@.len(),
            forall|k: Seq<char>| target@.contains_key(k) <==> exists|i: int|
                0 <= i < kinds_target@.len() && #[trigger] kinds_target@[i]@ == k,
            forall|k: Seq<char>| actual@.contains_key(k) <==> exists|i: int|
                0 <= i < kinds_actual@.len() && #[trigger] kinds_actual@[i]@ == k,
            forall|a: int, b: int|
                0 <= a < kinds_actual@.len() && 0 <= b < kinds_actual@.len() && a != b
                    ==> #[trigger] kinds_actual@[a]@ != #[trigger] kinds_actual@[b]@,
            forall|j: int| 0 <= j < n_target ==> (#[trigger] r@[j]).0@ == kinds_target@[j]@,
            forall|j: int| 0 <= j < r@.len() ==> {
                &&& in_either(target@, actual@, (#[trigger] r@[j]).0@)
                &&& r@[j].1 == target.count_spec(r@[j].0@) - actual.count_spec(r@[j].0@)
            },
            forall|j: int| n_target <= j < r@.len() ==> {
                &&& !target@.contains_key((#[trigger] r@[j]).0@)
                &&& exists|m: int| 0 <= m < i && #[trigger] kinds_actual@[m]@ == r@[j].0@
            },
            forall|m: int| 0 <= m < i && !target@.contains_key(kinds_actual@[m]@) ==> exists|j: int|
                0 <= j < r@.len() && (#[trigger] r@[j]).0@ == (#[trigger] kinds_actual@[m])@,
            forall|a: int, b: int|
                0 <= a < r@.len() && 0 <= b < r@.len() && a != b ==> (#[trigger] r@[a]).0@ != (#[trigger] r@[b]).0@,
        decreases kinds_actual@.len() - i,
    {
        let kind = kinds_actual[i].as_str();
        proof {
            actual.lemma_counts_fit(kind@);
            assert(actual@.contains_key(kind@));
        }
        if target.count(kind) == 0 {
            proof {
                target.lemma_counts_fit(kind@);
            }
            let ghost r0 = r@;
            let delta: i128 = 0 - actual.count(kind) as i128;
            r.push((kinds_actual[i].clone(), delta));
            proof {
                assert(r@[r0.len() as int].0@ == kinds_actual@[i as int]@);
                assert forall|a: int, b: int|
                    0 <= a < r@.len() && 0 <= b < r@.len() && a != b implies (#[trigger] r@[a]).0@ != (#[trigger] r@[b]).0@ by {
                    if a == r0.len() as int && b < n_target {
                        assert(target@.contains_key(kinds_target@[b]@));
                    } else if b == r0.len() as int && a < n_target {
                        assert(target@.contains_key(kinds_target@[a]@));
                    } else if a == r0.len() as int && b >= n_target {
                        let m = choose|m: int| 0 <= m < i && #[trigger] kinds_actual@[m]@ == r0[b].0@;
                        assert(kinds_actual@[m]@ != kinds_actual@[i as int]@);
                    } else if b == r0.len() as int && a >= n_target {
                        let m = choose|m: int| 0 <= m < i && #[trigger] kinds_actual@[m]@ == r0[a].0@;
                        assert(kinds_actual@[m]@ != kinds_actual@[i as int]@);
                    } else {
                        assert(r@[a] == r0[a]);
                        assert(r@[b] == r0[b]);
                    }
                }
                assert forall|j: int| n_target <= j < r@.len() implies {
                    &&& !target@.contains_key((#[trigger] r@[j]).0@)
                    &&& exists|m: int| 0 <= m < i + 1 && #[trigger] kinds_actual@[m]@ == r@[j].0@
                } by {
                    if j < r0.len() {
                        assert(r@[j] == r0[j]);
                        let m = choose|m: int| 0 <= m < i && #[trigger] kinds_actual@[m]@ == r0[j].0@;
                    } else {
                        assert(kinds_actual@[i as int]@ == r@[j].0@);
                    }
                }
                assert forall|m: int| 0 <= m < i + 1 && !target@.contains_key(kinds_actual@[m]@) implies exists|j: int|
                    0 <= j < r@.len() && (#[trigger] r@[j]).0@ == (#[trigger] kinds_actual@[m])@ by {
                    if m < i {
                        let j = choose|j: int| 0 <= j < r0.len() && (#[trigger] r0[j]).0@ == kinds_actual@[m]@;
                        assert(r@[j] == r0[j]);
                    } else {
                        assert(r@[r0.len() as int].0@ == kinds_actual@[m]@);
                    }
                }
            }
        } else {
            proof {
                assert forall|j: int| n_target <= j < r@.len() implies {
                    &&& !target@.contains_key((#[trigger] r@[j]).0@)
                    &&& exists|m: int| 0 <= m < i + 1 && #[trigger] kinds_actual@[m]@ == r@[j].0@
                } by {
                    let m = choose|m: int| 0 <= m < i && #[trigger] kinds_actual@[m]@ == r@[j].0@;
                }
            }
        }
        i = i + 1;
    }
    proof {
        assert forall|k: Seq<char>| #[trigger] in_either(target@, actual@, k) implies exists|j: int|
            0 <= j < r@.len() && (#[trigger] r@[j]).0@ == k by {
            if target@.contains_key(k) {
                let m = choose|m: int| 0 <= m < kinds_target@.len() && #[trigger] kinds_target@[m]@ == k;
                assert(r@[m].0@ == k);
            } else {
                let m = choose|m: int| 0 <= m < kinds_actual@.len() && #[trigger] kinds_actual@[m]@ == k;
                let j = choose|j: int| 0 <= j < r@.len() && (#[trigger] r@[j]).0@ == (#[trigger] kinds_actual@[m])@;
            }
        }
    }
    r
}

/// The store holds at least the task's count of every input.
pub open spec fn has_inputs(m: Map<Seq<char>, int>, inputs: Seq<(String, u32)>) -> bool {
    forall|i: int| 0 <= i < inputs.len() ==> count_in(m, (#[trigger] inputs[i]).0@) >= inputs[i].1
}

/// The store after each input in turn is taken out of it.
pub open spec fn consumed(m: Map<Seq<char>, int>, inputs: Seq<(String, u32)>) -> Map<Seq<char>, int>
    decreases inputs.len(),
{
    if inputs.len() == 0 {
        m
    } else {
        let m1 = consumed(m, inputs.drop_last());
        let kind = inputs.last().0@;
        let c = count_in(m1, kind);
        with_count(m1, kind, c - taken_from(c, inputs.last().1 as int))
    }
}

/// The store after each output in turn is added to it (an output whose
/// count would pass the largest count is not added).
pub open spec fn produced(m: Map<Seq<char>, int>, outputs: Seq<(String, u32)>) -> Map<Seq<char>, int>
    decreases outputs.len(),
{
    if outputs.len() == 0 {
        m
    } else {
        let m1 = produced(m, outputs.drop_last());
        let kind = outputs.last().0@;
        let c = count_in(m1, kind);
        if c + outputs.last().1 <= i64::MAX {
            with_count(m1, kind, c + outputs.last().1)
        } else {
            m1
        }
    }
}

/// Progress after one more tick of work.
pub open spec fn advanced(progress: u64, per_tick: u64) -> u64 {
    if progress + per_tick > u64::MAX {
        u64::MAX
    } else {
        (progress + per_tick) as u64
    }
}

pub open spec fn not_enough_note() -> Seq<char> {
    "Does not have enough material yet..."@
}

pub open spec fn progress_note(progress: u64) -> Seq<char> {
    "Working progress at "@ + decimal(progress as int) + " points"@
}

/// How many of `ids` name a listing of kind `kind` that is still pending or
/// active.
pub open spec fn listed_of_kind(market: &Market, ids: Seq<u64>, kind: Seq<char>) -> int
    decreases ids.len(),
{
    if ids.len() == 0 {
        0
    } else {
        listed_of_kind(market, ids.drop_last(), kind) + if market.resolves(ids.last())
            && market.listing_of(ids.last()).item.kind@ == kind {
            1int
        } else {
            0int
        }
    }
}

pub open spec fn buy_note(amount: i128, kind: Seq<char>) -> Seq<char> {
    "Need to buy "@ + decimal(amount as int) + " of "@ + kind
}

pub open spec fn list_note(amount: i128, kind: Seq<char>) -> Seq<char> {
    "Need to list "@ + decimal(amount as int) + " of "@ + kind
}

/// Keeps only the handles that still name a pending or active listing.
pub fn prune_listings(submitted: &mut Vec<u64>, market: &Market)
    requires
        market.wf(),
    ensures
        forall|x: u64|
            #![trigger final(submitted)@.contains(x)]
            #![trigger old(submitted)@.contains(x)]
            final(submitted)@.contains(x) <==> old(submitted)@.contains(x) && market.resolves(x),
{
    let mut kept: Vec<u64> = Vec::new();
    let mut i: usize = 0;
    while i < submitted.len()
        invariant
            market.wf(),
            i <= submitted@.len(),
            forall|j: int| 0 <= j < kept@.len() ==> market.resolves(#[trigger] kept@[j])
                && exists|k: int| 0 <= k < i && #[trigger] submitted@[k] == kept@[j],
            forall|k: int| 0 <= k < i && market.resolves(#[trigger] submitted@[k]) ==> exists|j: int|
                0 <= j < kept@.len() && #[trigger] kept@[j] == submitted@[k],
        decreases submitted@.len() - i,
    {
        let id = submitted[i];
        let ghost k0 = kept@;
        if market.is_listed(id) {
            kept.push(id);
            proof {
                assert(kept@[k0.len() as int] == submitted@[i as int]);
            }
        }
        proof {
            assert forall|j: int| 0 <= j < kept@.len() implies market.resolves(#[trigger] kept@[j])
                && exists|k: int| 0 <= k < i + 1 && #[trigger] submitted@[k] == kept@[j] by {
                if j < k0.len() {
                    assert(kept@[j] == k0[j]);
                    let k = choose|k: int| 0 <= k < i && #[trigger] submitted@[k] == k0[j];
                } else {
                    assert(submitted@[i as int] == kept@[j]);
                }
            }
            assert forall|k: int| 0 <= k < i + 1 && market.resolves(#[trigger] submitted@[k]) implies exists|j: int|
                0 <= j < kept@.len() && #[trigger] kept@[j] == submitted@[k] by {
                if k < i {
                    let j = choose|j: int| 0 <= j < k0.len() && #[trigger] k0[j] == submitted@[k];
                    assert(kept@[j] == k0[j]);
                } else {
                    assert(kept@[k0.len() as int] == submitted@[k]);
                }
            }
        }
        i = i + 1;
    }
    proof {
        assert forall|x: u64| kept@.contains(x) <==> submitted@.contains(x) && market.resolves(x) by {
            if kept@.contains(x) {
                let j = choose|j: int| 0 <= j < kept@.len() && kept@[j] == x;
                let k = choose|k: int| 0 <= k < i && #[trigger] submitted@[k] == kept@[j];
            }
            if submitted@.contains(x) && market.resolves(x) {
                let k = choose|k: int| 0 <= k < submitted@.len() && submitted@[k] == x;
                let j = choose|j: int| 0 <= j < kept@.len() && #[trigger] kept@[j] == submitted@[k];
            }
        }
    }
    *submitted = kept;
}

/// Listing `id` is an active listing of `kind` with no lower price among
/// the active listings of that kind.
pub open spec fn cheapest_of_kind(m: &Market, id: u64, kind: Seq<char>) -> bool {
    &&& m.active_of_kind(id, kind)
    &&& forall|other: u64| #[trigger] m.active_of_kind(other, kind) ==> m.active()[id].price <= m.active()[other].price
}

/// `buyer` bought listing `id`, one unit of `kind`: the listing left the
/// market, the ledger settled its price, and the store gained one unit.
pub open spec fn bought(
    id: u64,
    kind: Seq<char>,
    buyer: AccountId,
    s0: Map<Seq<char>, int>,
    s1: Map<Seq<char>, int>,
    m0: &Market,
    m1: &Market,
    l0: &Ledger,
    l1: &Ledger,
    owner_accounts: Seq<AccountId>,
) -> bool {
    &&& m1.active() == m0.active().remove(id)
    &&& settled(l0, l1, m0.active()[id], buyer, owner_accounts)
    &&& s1 == with_count(s0, kind, count_in(s0, kind) + 1)
}

/// What trying to buy one unit of `kind` does. Nothing changes when no
/// listing of the kind is active or the store's count cannot grow.
/// Otherwise one of the cheapest listings of the kind is tried: it is bought
/// when it can be bought, and nothing changes when it cannot.
pub open spec fn buy_outcome(
    kind: Seq<char>,
    buyer: AccountId,
    s0: Map<Seq<char>, int>,
    s1: Map<Seq<char>, int>,
    m0: &Market,
    m1: &Market,
    l0: &Ledger,
    l1: &Ledger,
    owner_accounts: Seq<AccountId>,
) -> bool {
    let unchanged = *m1 == *m0 && *l1 == *l0 && s1 == s0;
    &&& m1.pending() == m0.pending()
    &&& m1.next_listing_id() == m0.next_listing_id()
    &&& (forall|id: u64| !m0.active_of_kind(id, kind)) || count_in(s0, kind) >= i64::MAX ==> unchanged
    &&& (exists|id: u64| m0.active_of_kind(id, kind)) && count_in(s0, kind) < i64::MAX ==> exists|id: u64| {
        &&& #[trigger] cheapest_of_kind(m0, id, kind)
        &&& m0.can_buy(l0, id, owner_accounts) ==> bought(id, kind, buyer, s0, s1, m0, m1, l0, l1, owner_accounts)
        &&& !m0.can_buy(l0, id, owner_accounts) ==> unchanged
    }
}

/// How many units of a surplus of `kind` are still to be listed: the
/// surplus less the pending or active listings of that kind among `submitted`.
pub open spec fn to_list_of(m0: &Market, submitted: Seq<u64>, kind: Seq<char>, surplus: int) -> int {
    surplus - listed_of_kind(m0, submitted, kind)
}

/// What listing a surplus of `kind` does: the part not yet listed (capped
/// by the largest count and by the ids left) is taken from the store, and
/// each unit taken becomes a pending listing of `me` at the asking price,
/// its handle appended to `sub1`. Nothing changes when nothing is left to list.
pub open spec fn list_outcome(
    kind: Seq<char>,
    surplus: int,
    me: u64,
    s0: Map<Seq<char>, int>,
    s1: Map<Seq<char>, int>,
    m0: &Market,
    m1: &Market,
    sub0: Seq<u64>,
    sub1: Seq<u64>,
    config: &Config,
) -> bool {
    let to_list = to_list_of(m0, sub0, kind, surplus);
    let cap = if to_list <= i64::MAX { to_list } else { i64::MAX as int };
    let n = if cap <= u64::MAX - m0.next_listing_id() { cap } else { u64::MAX - m0.next_listing_id() };
    let t = taken_from(count_in(s0, kind), n);
    let k = if t > 0 { t } else { 0 };
    &&& m1.active() == m0.active()
    &&& pending_grown(m0, m1)
    &&& to_list <= 0 ==> {
        &&& *m1 == *m0
        &&& s1 == s0
        &&& sub1 == sub0
    }
    &&& to_list > 0 ==> {
        &&& s1 == with_count(s0, kind, count_in(s0, kind) - t)
        &&& m1.next_listing_id() == m0.next_listing_id() + k
        &&& m1.pending().len() == m0.pending().len() + k
        &&& sub1.len() == sub0.len() + k
        &&& sub1.subrange(0, sub0.len() as int) == sub0
        &&& forall|j: int| 0 <= j < k ==> {
            let l = #[trigger] m1.pending()[m0.pending().len() + j];
            &&& l.id == m0.next_listing_id() + j
            &&& l.owner == Some(me)
            &&& l.item.kind@ == kind
            &&& l.price == config.ask_price
            &&& sub1[sub0.len() + j] == l.id
        }
    }
}

/// `deltas` lists, once each, every kind stored in `target` or `actual`,
/// with how many units `actual` lacks of `target`.
pub open spec fn deltas_of(target: Map<Seq<char>, int>, actual: Map<Seq<char>, int>, deltas: Seq<(String, i128)>) -> bool {
    &&& forall|j: int| 0 <= j < deltas.len() ==> {
        &&& in_either(target, actual, (#[trigger] deltas[j]).0@)
        &&& deltas[j].1 == count_in(target, deltas[j].0@) - count_in(actual, deltas[j].0@)
    }
    &&& forall|k: Seq<char>| #[trigger] in_either(target, actual, k) ==> exists|j: int|
        0 <= j < deltas.len() && (#[trigger] deltas[j]).0@ == k
    &&& forall|a: int, b: int|
        0 <= a < deltas.len() && 0 <= b < deltas.len() && a != b ==> (#[trigger] deltas[a]).0@ != (#[trigger] deltas[b]).0@
}

/// The trading part of a work tick: the handles are first pruned to those
/// that resolve in `m0`; then `deltas`, the deltas of `target` against
/// `actual`, are traded in order, step `j` taking the store, market, ledger
/// and handles from `ss[j]`, `ms[j]`, `ls[j]`, `subs[j]` to the next ones,
/// and the last states are `m1`, `l1` and `sub1`. The log goes from `log0`
/// through `gs` in the same way.
pub open spec fn trading(
    me: u64,
    account: AccountId,
    target: Map<Seq<char>, int>,
    actual: Map<Seq<char>, int>,
    m0: &Market,
    l0: &Ledger,
    sub0: Seq<u64>,
    m1: &Market,
    l1: &Ledger,
    sub1: Seq<u64>,
    deltas: Seq<(String, i128)>,
    ss: Seq<Map<Seq<char>, int>>,
    ms: Seq<Market>,
    ls: Seq<Ledger>,
    subs: Seq<Seq<u64>>,
    log0: Seq<Seq<char>>,
    gs: Seq<Seq<Seq<char>>>,
    owner_accounts: Seq<AccountId>,
    config: &Config,
) -> bool {
    let n = deltas.len() as int;
    &&& deltas_of(target, actual, deltas)
    &&& ss.len() == n + 1 && ms.len() == n + 1 && ls.len() == n + 1 && subs.len() == n + 1
    &&& gs.len() == n + 1 && gs[0] == log0
    &&& ss[0] == actual && ms[0] == *m0 && ls[0] == *l0
    &&& forall|x: u64| #[trigger] subs[0].contains(x) <==> sub0.contains(x) && m0.resolves(x)
    &&& ms[n] == *m1 && ls[n] == *l1 && subs[n] == sub1
    &&& forall|j: int| 0 <= j < n ==> #[trigger] trade_step(
        deltas[j],
        me,
        account,
        ss[j],
        ss[j + 1],
        &ms[j],
        &ms[j + 1],
        &ls[j],
        &ls[j + 1],
        subs[j],
        subs[j + 1],
        gs[j],
        gs[j + 1],
        owner_accounts,
        config,
    )
}

/// One trading step of a work tick for the delta `(kind, amount)`: a
/// shortage logs it and buys one unit, a surplus lists what is not listed
/// yet (logging that when there is any), and a kind on target (or a surplus
/// too large to count) changes nothing. `g0` and `g1` are the log entries.
pub open spec fn trade_step(
    delta: (String, i128),
    me: u64,
    account: AccountId,
    s0: Map<Seq<char>, int>,
    s1: Map<Seq<char>, int>,
    m0: &Market,
    m1: &Market,
    l0: &Ledger,
    l1: &Ledger,
    sub0: Seq<u64>,
    sub1: Seq<u64>,
    g0: Seq<Seq<char>>,
    g1: Seq<Seq<char>>,
    owner_accounts: Seq<AccountId>,
    config: &Config,
) -> bool {
    let kind = delta.0@;
    let amount = delta.1;
    if amount > 0 {
        &&& buy_outcome(kind, account, s0, s1, m0, m1, l0, l1, owner_accounts)
        &&& sub1 == sub0
        &&& g1 == logged(g0, buy_note(amount, kind))
    } else if amount < 0 && amount >= -(u64::MAX as int) {
        let to_list = to_list_of(m0, sub0, kind, -amount);
        &&& list_outcome(kind, -amount, me, s0, s1, m0, m1, sub0, sub1, config)
        &&& *l1 == *l0
        &&& to_list <= 0 ==> g1 == g0
        &&& to_list > 0 ==> g1 == logged(g0, list_note(to_list as i128, kind))
    } else {
        &&& s1 == s0
        &&& *m1 == *m0
        &&& *l1 == *l0
        &&& sub1 == sub0
        &&& g1 == g0
    }
}

/// Tries to buy one unit of `kind` for `buyer`: the first of the cheapest
/// active listings of that kind. The store is credited only when the
/// purchase went through; when it did not, nothing changes.
pub fn buy_shortage(
    kind: &str,
    buyer: AccountId,
    actual: &mut Store,
    market: &mut Market,
    ledger: &mut Ledger,
    owner_accounts: &Vec<AccountId>,
) -> (r: bool)
    requires
        old(actual).wf(),
        old(market).wf(),
        old(ledger).wf(),
    ensures
        final(actual).wf(),
        final(market).wf(),
        final(ledger).wf(),
        final(market).pending() == old(market).pending(),
        final(market).next_listing_id() == old(market).next_listing_id(),
        !r ==> *final(market) == *old(market) && *final(ledger) == *old(ledger) && final(actual)@ == old(actual)@,
        r ==> exists|id: u64| #[trigger] cheapest_of_kind(&*old(market), id, kind@)
            && bought(id, kind@, buyer, old(actual)@, final(actual)@, &*old(market), &*final(market), &*old(ledger), &*final(ledger), owner_accounts@),
        buy_outcome(kind@, buyer, old(actual)@, final(actual)@, &*old(market), &*final(market), &*old(ledger), &*final(ledger), owner_accounts@),
{
    let cheapest = market.get_listings_of_kind(kind);
    if cheapest.len() == 0 {
        proof {
            assert forall|id: u64| !old(market).active_of_kind(id, kind@) by {
                if old(market).active_of_kind(id, kind@) {
                    assert(cheapest@.contains(id));
                }
            }
        }
        return false;
    }
    if actual.count(kind) == i64::MAX {
        return false;
    }
    let id = cheapest[0];
    proof {
        assert(cheapest@.contains(id));
        assert forall|other: u64| #[trigger] old(market).active_of_kind(other, kind@)
            implies old(market).active()[id].price <= old(market).active()[other].price by {
            assert(cheapest@.contains(other));
            let j = choose|j: int| 0 <= j < cheapest@.len() && cheapest@[j] == other;
            if j > 0 {
                assert(old(market).active()[cheapest@[0]].price <= old(market).active()[cheapest@[j]].price);
            }
        }
        actual.lemma_counts_fit(kind@);
        assert(old(market).active_of_kind(id, kind@));
        assert(cheapest_of_kind(&*old(market), id, kind@));
    }
    let ok = market.buy_listing(id, buyer, owner_accounts, ledger);
    if ok {
        actual.add(kind, 1);
    }
    ok
}

/// Lists the part of a surplus of `kind` that this actor has not listed
/// yet: `surplus` less the pending or active listings of that kind among
/// `submitted`. The units are taken out of the store and each one taken is
/// listed at the asking price under `me`, its handle recorded. The count
/// listed is capped by the largest count and by the ids the market has left.
pub fn list_surplus(
    kind: &str,
    surplus: i128,
    me: u64,
    submitted: &mut Vec<u64>,
    actual: &mut Store,
    market: &mut Market,
    log: &mut LogBook,
    config: &Config,
)
    requires
        old(actual).wf(),
        old(market).wf(),
        old(log).wf(),
        0 < surplus <= u64::MAX,
    ensures
        final(actual).wf(),
        final(market).wf(),
        final(log).wf(),
        list_outcome(kind@, surplus as int, me, old(actual)@, final(actual)@, &*old(market), &*final(market), old(submitted)@, final(submitted)@, config),
        ({
            let to_list = to_list_of(&*old(market), old(submitted)@, kind@, surplus as int);
            &&& to_list <= 0 ==> final(log)@ == old(log)@
            &&& to_list > 0 ==> final(log)@ == logged(old(log)@, list_note(to_list as i128, kind@))
        }),
{
    let mut existing: i128 = 0;
    let mut i: usize = 0;
    let key = kind.to_string();
    proof {
        assert(submitted@.take(0) =~= Seq::<u64>::empty());
    }
    while i < submitted.len()
        invariant
            market.wf(),
            key@ == kind@,
            i <= submitted@.len(),
            existing == listed_of_kind(&*market, submitted@.take(i as int), kind@),
            0 <= existing <= i,
        decreases submitted@.len() - i,
    {
        proof {
            assert(submitted@.take(i + 1).drop_last() =~= submitted@.take(i as int));
            assert(submitted@.take(i + 1).last() == submitted@[i as int]);
        }
        match market.find_listing(submitted[i]) {
            Some(l) => {
                if l.item.kind == key {
                    existing = existing + 1;
                }
            },
            None => {},
        }
        i = i + 1;
    }
    proof {
        assert(submitted@.take(submitted@.len() as int) =~= submitted@);
    }
    let to_list: i128 = surplus - existing;
    if to_list <= 0 {
        proof {
            lemma_pending_grown_refl(&*market);
        }
        return;
    }
    let note = joined(with_number("Need to list ", to_list, " of "), kind);
    log.add_entry(note.as_str());
    let cap: i64 = if to_list <= i64::MAX as i128 { to_list as i64 } else { i64::MAX };
    let room = market.remaining_ids();
    let n: i64 = if cap as u64 <= room { cap } else { room as i64 };
    let taken = actual.take(kind, n);
    let ghost p0 = market.pending();
    let ghost s0 = submitted@;
    let ghost next0 = market.next_listing_id();
    let mut j: i64 = 0;
    while j < taken
        invariant
            market.wf(),
            0 <= j,
            taken <= n <= u64::MAX - next0,
            j <= taken || taken <= 0,
            taken <= 0 ==> j == 0,
            market.active() == old(market).active(),
            market.next_listing_id() == next0 + j,
            market.pending().len() == p0.len() + j,
            market.pending().subrange(0, p0.len() as int) == p0,
            submitted@.len() == s0.len() + j,
            submitted@.subrange(0, s0.len() as int) == s0,
            forall|m: int| 0 <= m < j ==> {
                let l = #[trigger] market.pending()[p0.len() + m];
                &&& l.id == next0 + m
                &&& l.owner == Some(me)
                &&& l.item.kind@ == kind@
                &&& l.price == config.ask_price
                &&& submitted@[s0.len() + m] == l.id
            },
        decreases taken - j,
    {
        let ghost pj = market.pending();
        let ghost sj = submitted@;
        let id = market.list_item(Some(me), Item::new(kind), config.ask_price);
        submitted.push(id);
        proof {
            assert(market.pending().subrange(0, p0.len() as int) =~= pj.subrange(0, p0.len() as int));
            assert(submitted@.subrange(0, s0.len() as int) =~= sj.subrange(0, s0.len() as int));
            assert forall|m: int| 0 <= m < j + 1 implies {
                let l = #[trigger] market.pending()[p0.len() + m];
                &&& l.id == next0 + m
                &&& l.owner == Some(me)
                &&& l.item.kind@ == kind@
                &&& l.price == config.ask_price
                &&& submitted@[s0.len() + m] == l.id
            } by {
                if m < j {
                    assert(market.pending()[p0.len() + m] == pj[p0.len() + m]);
                    assert(submitted@[s0.len() + m] == sj[s0.len() + m]);
                }
            }
        }
        j = j + 1;
    }
    proof {
        let t = taken_from(old(actual).count_spec(kind@), n as int);
        assert(taken as int == t);
        let k = if t > 0 { t } else { 0 };
        assert(j == k);
        assert(final(log)@ == logged(old(log)@, list_note(to_list, kind@)));
        assert(market.next_listing_id() == old(market).next_listing_id() + k);
        assert forall|i: int| old(market).pending().len() <= i < market.pending().len()
            implies (#[trigger] market.pending()[i]).id >= old(market).next_listing_id() by {
            let m = i - p0.len();
            assert(market.pending()[p0.len() + m].id == next0 + m);
        }
    }
}

/// One tick of production as `WorkAction::work` performs it, from the state
/// `before` and the store `stock` to the state `after` and the store
/// `stock_after`; `done` tells whether the cycle ended.
pub open spec fn work_step(
    before: WorkAction,
    after: WorkAction,
    task: &Task,
    stock: Map<Seq<char>, int>,
    stock_after: Map<Seq<char>, int>,
    config: &Config,
    done: bool,
) -> bool {
    if !before.used_material() && !has_inputs(stock, task.inputs@) {
        &&& !done
        &&& after == before
        &&& stock_after == stock
    } else {
        let m1 = if before.used_material() {
            stock
        } else {
            consumed(stock, task.inputs@)
        };
        let p = advanced(before.progress(), config.progress_per_tick);
        &&& after.used_material()
        &&& after.progress() == p
        &&& done == (p > task.work_points)
        &&& stock_after == if done { produced(m1, task.outputs@) } else { m1 }
    }
}

/// The entry one production step logs.
pub open spec fn work_note(before: WorkAction, task: &Task, stock: Map<Seq<char>, int>, config: &Config) -> Seq<char> {
    if !before.used_material() && !has_inputs(stock, task.inputs@) {
        not_enough_note()
    } else {
        progress_note(advanced(before.progress(), config.progress_per_tick))
    }
}

/// The state of a production cycle: whether the inputs were consumed yet,
/// and the labour done since.
#[derive(Clone, Copy, PartialEq, Eq, Structural, Debug)]
pub struct WorkAction {
    has_used_material: bool,
    progress_points: u64,
}

impl WorkAction {
    /// A cycle that has consumed nothing and done no labour.
    pub fn new() -> (r: WorkAction)
        ensures
            !r.used_material(),
            r.progress() == 0,
    {
        WorkAction { has_used_material: false, progress_points: 0 }
    }

    pub closed spec fn used_material(&self) -> bool {
        self.has_used_material
    }

    pub closed spec fn progress(&self) -> u64 {
        self.progress_points
    }

    /// Whether the task's inputs were consumed in this cycle.
    pub fn has_used_material(&self) -> (r: bool)
        ensures
            r == self.used_material(),
    {
        self.has_used_material
    }

    /// The labour done in this cycle.
    pub fn progress_points(&self) -> (r: u64)
        ensures
            r == self.progress(),
    {
        self.progress_points
    }

    /// One tick of production. The inputs are consumed once per cycle, the
    /// first time the store holds enough of every one; until then nothing
    /// happens. Once they are consumed, each tick adds the configured
    /// progress, and when the progress passes the task's work points the
    /// outputs are added to the store and `true` is returned: the cycle is
    /// over.
    pub fn work(&mut self, task: &Task, actual: &mut Store, log: &mut LogBook, config: &Config) -> (done: bool)
        requires
            old(actual).wf(),
            old(log).wf(),
        ensures
            final(actual).wf(),
            final(log).wf(),
            work_step(*old(self), *final(self), task, old(actual)@, final(actual)@, config, done),
            !old(self).used_material() && !has_inputs(old(actual)@, task.inputs@) ==> {
                &&& !done
                &&& *final(self) == *old(self)
                &&& final(actual)@ == old(actual)@
                &&& final(log)@ == logged(old(log)@, not_enough_note())
            },
            old(self).used_material() || has_inputs(old(actual)@, task.inputs@) ==> {
                let m1 = if old(self).used_material() {
                    old(actual)@
                } else {
                    consumed(old(actual)@, task.inputs@)
                };
                let p = advanced(old(self).progress(), config.progress_per_tick);
                &&& final(self).used_material()
                &&& final(self).progress() == p
                &&& done == (p > task.work_points)
                &&& final(actual)@ == if done { produced(m1, task.outputs@) } else { m1 }
                &&& final(log)@ == logged(old(log)@, progress_note(p))
            },
    {
        if !self.has_used_material {
            let mut enough = true;
            let mut i: usize = 0;
            while i < task.inputs.len()
                invariant
                    actual.wf(),
                    i <= task.inputs@.len(),
                    enough == forall|j: int| 0 <= j < i ==> count_in(actual@, (#[trigger] task.inputs@[j]).0@)
                        >= task.inputs@[j].1,
                decreases task.inputs@.len() - i,
            {
                if !actual.has_count(task.inputs[i].0.as_str(), task.inputs[i].1 as i64) {
                    enough = false;
                }
                i = i + 1;
            }
            if !enough {
                log.add_entry("Does not have enough material yet...");
                return false;
            }
            let ghost m0 = actual@;
            let mut i: usize = 0;
            proof {
                assert(task.inputs@.take(0) =~= Seq::<(String, u32)>::empty());
            }
            while i < task.inputs.len()
                invariant
                    actual.wf(),
                    i <= task.inputs@.len(),
                    actual@ == consumed(m0, task.inputs@.take(i as int)),
                decreases task.inputs@.len() - i,
            {
                proof {
                    assert(task.inputs@.take(i + 1).drop_last() =~= task.inputs@.take(i as int));
                    assert(task.inputs@.take(i + 1).last() == task.inputs@[i as int]);
                }
                actual.take(task.inputs[i].0.as_str(), task.inputs[i].1 as i64);
                i = i + 1;
            }
            proof {
                assert(task.inputs@.take(task.inputs@.len() as int) =~= task.inputs@);
            }
            self.has_used_material = true;
        }
        self.progress_points = self.progress_points.saturating_add(config.progress_per_tick);
        let note = with_number("Working progress at ", self.progress_points as i128, " points");
        log.add_entry(note.as_str());
        if self.progress_points > task.work_points {
            let ghost m1 = actual@;
            let mut i: usize = 0;
            proof {
                assert(task.outputs@.take(0) =~= Seq::<(String, u32)>::empty());
            }
            while i < task.outputs.len()
                invariant
                    actual.wf(),
                    i <= task.outputs@.len(),
                    actual@ == produced(m1, task.outputs@.take(i as int)),
                decreases task.outputs@.len() - i,
            {
                proof {
                    assert(task.outputs@.take(i + 1).drop_last() =~= task.outputs@.take(i as int));
                    assert(task.outputs@.take(i + 1).last() == task.outputs@[i as int]);
                }
                let kind = task.outputs[i].0.as_str();
                let n = task.outputs[i].1;
                let c = actual.count(kind);
                if c <= i64::MAX - n as i64 {
                    actual.add(kind, n as i64);
                }
                i = i + 1;
            }
            proof {
                assert(task.outputs@.take(task.outputs@.len() as int) =~= task.outputs@);
            }
            return true;
        }
        false
    }
}

impl WorkAction {
    /// One tick of an actor at work on `task`, on behalf of actor `me` with
    /// account `account`. Without a task nothing happens. Otherwise: the
    /// handles of listings that no longer resolve are dropped; the target store
    /// is set from the task's inputs; for each kind short of its target one unit
    /// is bought (the cheapest listing), and for each kind over its target the
    /// surplus not yet listed is listed; then one tick of production runs on the
    /// store as trading left it. When the cycle ends the result is `Done` with a
    /// fresh work action.
    pub fn tick(
        &mut self,
        me: u64,
        account: AccountId,
        task: &Option<Task>,
        log: &mut LogBook,
        submitted: &mut Vec<u64>,
        actual: &mut Store,
        target: &mut Store,
        market: &mut Market,
        ledger: &mut Ledger,
        owner_accounts: &Vec<AccountId>,
        config: &Config,
    ) -> (r: ActionResult)
        requires
            old(log).wf(),
            old(actual).wf(),
            old(target).wf(),
            old(market).wf(),
            old(ledger).wf(),
        ensures
            final(log).wf(),
            final(actual).wf(),
            final(target).wf(),
            final(market).wf(),
            final(ledger).wf(),
            task is None ==> {
                &&& r is InProgress
                &&& *final(self) == *old(self)
                &&& final(log)@ == old(log)@
                &&& final(submitted)@ == old(submitted)@
                &&& final(actual)@ == old(actual)@
                &&& final(target)@ == old(target)@
                &&& *final(market) == *old(market)
                &&& *final(ledger) == *old(ledger)
            },
            pending_grown(&*old(market), &*final(market)),
            task is Some ==> {
                let t = task->Some_0;
                &&& final(target)@ == target_of(t.inputs@, config.safety_factor_percent)
                &&& old(market).next_listing_id() <= final(market).next_listing_id()
                &&& forall|x: u64| old(submitted)@.contains(x) && old(market).resolves(x)
                    ==> #[trigger] final(submitted)@.contains(x)
                &&& forall|x: u64| #[trigger] final(submitted)@.contains(x) ==> (old(submitted)@.contains(x)
                    && old(market).resolves(x)) || (old(market).next_listing_id() <= x
                    < final(market).next_listing_id())
                &&& exists|traded: Map<Seq<char>, int>| #[trigger] work_step(
                    *old(self),
                    *final(self),
                    &t,
                    traded,
                    final(actual)@,
                    config,
                    r is Done,
                )
                &&& exists|
                    deltas: Seq<(String, i128)>,
                    ss: Seq<Map<Seq<char>, int>>,
                    ms: Seq<Market>,
                    ls: Seq<Ledger>,
                    subs: Seq<Seq<u64>>,
                    gs: Seq<Seq<Seq<char>>>,
                | {
                    let traded = ss[deltas.len() as int];
                    &&& #[trigger] trading(
                        me,
                        account,
                        final(target)@,
                        old(actual)@,
                        &*old(market),
                        &*old(ledger),
                        old(submitted)@,
                        &*final(market),
                        &*final(ledger),
                        final(submitted)@,
                        deltas,
                        ss,
                        ms,
                        ls,
                        subs,
                        old(log)@,
                        gs,
                        owner_accounts@,
                        config,
                    )
                    &&& work_step(*old(self), *final(self), &t, traded, final(actual)@, config, r is Done)
                    &&& final(log)@ == logged(gs[deltas.len() as int], work_note(*old(self), &t, traded, config))
                }
                &&& r is Done ==> r->Done_0 is Work && !r->Done_0->Work_0.used_material()
                    && r->Done_0->Work_0.progress() == 0
            },
    {
        let t = match task {
            Some(t) => t,
            None => {
                proof {
                    lemma_pending_grown_refl(&*market);
                }
                return ActionResult::InProgress;
            },
        };
        prune_listings(submitted, market);
        update_storage_target(target, t, config.safety_factor_percent);
        let deltas = get_storage_deltas(target, actual);
        let ghost pruned = submitted@;
        let ghost next0 = market.next_listing_id();
        proof {
            lemma_pending_grown_refl(&*market);
        }
        assert(forall|x: u64| #[trigger] pruned.contains(x) <==> old(submitted)@.contains(x) && old(market).resolves(x));
        let ghost mut ss: Seq<Map<Seq<char>, int>> = seq![actual@];
        let ghost mut ms: Seq<Market> = seq![*market];
        let ghost mut ls: Seq<Ledger> = seq![*ledger];
        let ghost mut subs: Seq<Seq<u64>> = seq![submitted@];
        let ghost mut gs: Seq<Seq<Seq<char>>> = seq![log@];
        let mut i: usize = 0;
        while i < deltas.len()
            invariant
                ss.len() == i + 1 && ms.len() == i + 1 && ls.len() == i + 1 && subs.len() == i + 1,
                gs.len() == i + 1 && gs[0] == old(log)@ && gs[i as int] == log@,
                ss[0] == old(actual)@ && ms[0] == *old(market) && ls[0] == *old(ledger) && subs[0] == pruned,
                ss[i as int] == actual@ && ms[i as int] == *market && ls[i as int] == *ledger
                    && subs[i as int] == submitted@,
                forall|j: int| 0 <= j < i ==> #[trigger] trade_step(
                    deltas@[j],
                    me,
                    account,
                    ss[j],
                    ss[j + 1],
                    &ms[j],
                    &ms[j + 1],
                    &ls[j],
                    &ls[j + 1],
                    subs[j],
                    subs[j + 1],
                    gs[j],
                    gs[j + 1],
                    owner_accounts@,
                    config,
                ),
                log.wf(),
                actual.wf(),
                target.wf(),
                market.wf(),
                ledger.wf(),
                target@ == target_of(t.inputs@, config.safety_factor_percent),
                i <= deltas@.len(),
                next0 <= market.next_listing_id(),
                next0 == old(market).next_listing_id(),
                pending_grown(&*old(market), &*market),
                forall|x: u64| pruned.contains(x) ==> #[trigger] submitted@.contains(x),
                forall|x: u64| #[trigger] submitted@.contains(x) ==> pruned.contains(x) || (next0 <= x
                    < market.next_listing_id()),
            decreases deltas@.len() - i,
        {
            let ghost step_start = *market;
            let kind = deltas[i].0.as_str();
            let amount = deltas[i].1;
            if amount > 0 {
                let note = joined(with_number("Need to buy ", amount, " of "), kind);
                log.add_entry(note.as_str());
                buy_shortage(kind, account, actual, market, ledger, owner_accounts);
                proof {
                    assert(market.pending().subrange(0, step_start.pending().len() as int) =~= market.pending());
                    lemma_pending_grown_trans(&*old(market), &step_start, &*market);
                }
            } else if amount < 0 && amount >= -(u64::MAX as i128) {
                let ghost s0 = submitted@;
                let ghost n0 = market.next_listing_id();
                let ghost pl0 = market.pending().len();
                list_surplus(kind, -amount, me, submitted, actual, market, log, config);
                proof {
                    lemma_pending_grown_trans(&*old(market), &step_start, &*market);
                    assert forall|x: u64| pruned.contains(x) implies #[trigger] submitted@.contains(x) by {
                        assert(s0.contains(x));
                        let j = choose|j: int| 0 <= j < s0.len() && s0[j] == x;
                        assert(submitted@.subrange(0, s0.len() as int)[j] == x);
                    }
                    assert forall|x: u64| #[trigger] submitted@.contains(x) implies pruned.contains(x) || (next0 <= x
                        < market.next_listing_id()) by {
                        let j = choose|j: int| 0 <= j < submitted@.len() && submitted@[j] == x;
                        if j < s0.len() {
                            assert(submitted@.subrange(0, s0.len() as int)[j] == x);
                            assert(s0.contains(x));
                        } else {
                            let m = j - s0.len();
                            let l = market.pending()[pl0 + m];
                            assert(submitted@[s0.len() + m] == l.id);
                        }
                    }
                }
            }
            proof {
                ss = ss.push(actual@);
                ms = ms.push(*market);
                ls = ls.push(*ledger);
                subs = subs.push(submitted@);
                gs = gs.push(log@);
                assert forall|j: int| 0 <= j < i + 1 implies #[trigger] trade_step(
                    deltas@[j],
                    me,
                    account,
                    ss[j],
                    ss[j + 1],
                    &ms[j],
                    &ms[j + 1],
                    &ls[j],
                    &ls[j + 1],
                    subs[j],
                    subs[j + 1],
                    gs[j],
                    gs[j + 1],
                    owner_accounts@,
                    config,
                ) by {
                }
            }
            i = i + 1;
        }
        let ghost traded = actual@;
        let ghost before = *self;
        let done = self.work(t, actual, log, config);
        let r = if done {
            ActionResult::Done(Action::Work(WorkAction::new()))
        } else {
            ActionResult::InProgress
        };
        proof {
            assert(work_step(before, *self, t, traded, actual@, config, r is Done));
            assert(deltas_of(target@, old(actual)@, deltas@));
            assert(ss[deltas@.len() as int] == traded);
            assert(trading(me, account, target@, old(actual)@, &*old(market), &*old(ledger), old(submitted)@,
                &*market, &*ledger, submitted@, deltas@, ss, ms, ls, subs, old(log)@, gs, owner_accounts@, config));
            assert forall|x: u64| #[trigger] submitted@.contains(x) implies (old(submitted)@.contains(x)
                && old(market).resolves(x)) || (old(market).next_listing_id() <= x
                < market.next_listing_id()) by {
                if pruned.contains(x) {
                }
            }
        }
        r
    }
}

/// An action that does nothing.
#[derive(Clone, Copy, PartialEq, Eq, Structural, Debug)]
pub struct IdleAction {
    step: u8,
}

impl IdleAction {
    /// An idle action at its first step.
    pub fn new() -> (r: IdleAction)
        ensures
            r.steps_done() == 0,
    {
        IdleAction { step: 0 }
    }

    /// How many steps of idling were done.
    pub closed spec fn steps_done(&self) -> u8 {
        self.step
    }

    /// Idling never ends and changes nothing.
    pub fn tick(&mut self) -> (r: ActionResult)
        ensures
            r is InProgress,
            *final(self) == *old(self),
    {
        ActionResult::InProgress
    }
}

pub open spec fn chat_note(step: u8) -> Seq<char> {
    "Chatting for the "@ + decimal(step as int) + " time"@
}

/// An action that chats for four ticks, then starts over.
#[derive(Clone, Copy, PartialEq, Eq, Structural, Debug)]
pub struct ChatAction {
    step: u8,
}

impl ChatAction {
    pub fn new() -> (r: ChatAction)
        ensures
            r.steps_done() == 0,
            r.wf(),
    {
        ChatAction { step: 0 }
    }

    /// How many ticks of chat were done.
    pub closed spec fn steps_done(&self) -> u8 {
        self.step
    }

    pub closed spec fn wf(&self) -> bool {
        self.step < 4
    }

    /// Logs the chat, counts the tick, and after the fourth one is done with
    /// a fresh chat.
    pub fn tick(&mut self, log: &mut LogBook) -> (r: ActionResult)
        requires
            old(self).wf(),
            old(log).wf(),
        ensures
            final(self).wf() || r is Done,
            final(log).wf(),
            final(log)@ == logged(old(log)@, chat_note(old(self).steps_done())),
            final(self).steps_done() == old(self).steps_done() + 1,
            r is Done <==> final(self).steps_done() >= 4,
            r is Done ==> r->Done_0 is Chat && r->Done_0->Chat_0.steps_done() == 0 && r->Done_0->Chat_0.wf(),
    {
        let note = with_number("Chatting for the ", self.step as i128, " time");
        log.add_entry(note.as_str());
        self.step = self.step + 1;
        if self.step < 4 {
            return ActionResult::InProgress;
        }
        ActionResult::Done(Action::Chat(ChatAction::new()))
    }
}

/// What an actor is doing.
#[derive(Clone, Copy, PartialEq, Eq, Structural, Debug)]
pub enum Action {
    Work(WorkAction),
    Idle(IdleAction),
    Chat(ChatAction),
}

impl Action {
    pub open spec fn wf(&self) -> bool {
        match self {
            Action::Chat(c) => c.wf(),
            _ => true,
        }
    }
}

/// What a tick of an action reports: still at it, or done, with the action
/// to take over.
pub enum ActionResult {
    InProgress,
    Done(Action),
}

} // verus!
