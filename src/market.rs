use std::collections::HashMap;
use std::collections::VecDeque;
use rand::seq::SliceRandom;
use vstd::prelude::*;
use crate::ledger::AccountId;
use crate::ledger::Ledger;
use crate::ledger::transfer_outcome;

verus! {

/// Relies on uuid's `Uuid::new_v4` and `Uuid::as_u128`: a random identifier.
/// Nothing is known of its value.
#[verifier::external_body]
fn random_item_id() -> (r: u128) {
    uuid::Uuid::new_v4().as_u128()
}

/// Relies on rand's `SliceRandom::choose` with `thread_rng`: a random element
/// of the slice, or nothing when it is empty.
#[verifier::external_body]
fn choose_kind(kinds: &Vec<String>) -> (r: Option<String>)
    ensures
        r is None <==> kinds@.len() == 0,
        r is Some ==> exists|i: int| 0 <= i < kinds@.len() && #[trigger] kinds@[i]@ == r->Some_0@,
{
    kinds.choose(&mut rand::thread_rng()).cloned()
}

/// One unit of a good: an identifier and its kind.
pub struct Item {
    pub id: u128,
    pub kind: String,
}

impl Item {
    /// A new item of kind `kind` with a fresh random identifier.
    pub fn new(kind: &str) -> (r: Item)
        ensures
            r.kind@ == kind@,
    {
        Item { id: random_item_id(), kind: kind.to_string() }
    }

    /// An item of a kind drawn at random among apples, oranges and bananas.
    pub fn create_random_item() -> (r: Item)
        ensures
            r.kind@ == "Apple"@ || r.kind@ == "Orange"@ || r.kind@ == "Banana"@,
    {
        let mut kinds: Vec<String> = Vec::new();
        kinds.push("Apple".to_string());
        kinds.push("Orange".to_string());
        kinds.push("Banana".to_string());
        match choose_kind(&kinds) {
            Some(kind) => Item { id: random_item_id(), kind },
            None => Item { id: random_item_id(), kind: "Apple".to_string() },
        }
    }

    /// A copy of this item.
    pub fn duplicate(&self) -> (r: Item)
        ensures
            r == *self,
    {
        Item { id: self.id, kind: self.kind.clone() }
    }
}

/// An offer of one item at a price. The owner, if any, is an actor id.
pub struct Listing {
    pub id: u64,
    pub owner: Option<u64>,
    pub item: Item,
    pub price: i64,
}

impl Listing {
    /// A copy of this listing.
    pub fn duplicate(&self) -> (r: Listing)
        ensures
            r == *self,
    {
        Listing { id: self.id, owner: self.owner, item: self.item.duplicate(), price: self.price }
    }
}

/// The listings of one kind, by id.
struct KindIndex {
    kind: String,
    ids: Vec<u64>,
}

/// The market: listings wait in a queue until the next tick commits them to
/// the active set, which is indexed by id, by item kind and by owner.
pub struct Market {
    listings_by_id: HashMap<u64, Listing>,
    listings_by_item_kind: Vec<KindIndex>,
    listings_by_owner_id: HashMap<u64, Vec<u64>>,
    listing_queue: VecDeque<Listing>,
    next_id: u64,
}

/// The ids of `ids` other than `id`, in their order.
fn without_id(ids: &Vec<u64>, id: u64) -> (r: Vec<u64>)
    ensures
        forall|j: int| 0 <= j < r@.len() ==> #[trigger] r@[j] != id && ids@.contains(r@[j]),
        forall|x: u64| #[trigger] ids@.contains(x) && x != id ==> r@.contains(x),
        ids@.no_duplicates() ==> r@.no_duplicates(),
        r@.len() <= ids@.len(),
{
    let mut r: Vec<u64> = Vec::new();
    let mut i: usize = 0;
    while i < ids.len()
        invariant
            i <= ids@.len(),
            r@.len() <= i,
            forall|j: int| 0 <= j < r@.len() ==> #[trigger] r@[j] != id && ids@.subrange(0, i as int).contains(r@[j]),
            forall|k: int| 0 <= k < i && ids@[k] != id ==> r@.contains(#[trigger] ids@[k]),
            ids@.no_duplicates() ==> r@.no_duplicates(),
        decreases ids@.len() - i,
    {
        let x = ids[i];
        let ghost r0 = r@;
        if x != id {
            proof {
                if ids@.no_duplicates() {
                    assert(!r@.contains(x)) by {
                        if r@.contains(x) {
                            let j = choose|j: int| 0 <= j < r@.len() && r@[j] == x;
                            let k = choose|k: int| 0 <= k < i && ids@.subrange(0, i as int)[k] == x;
                            assert(ids@[k] == ids@[i as int]);
                        }
                    }
                }
            }
            r.push(x);
            proof {
                assert(r@[r@.len() - 1] == x);
            }
        }
        proof {
            assert forall|j: int| 0 <= j < r@.len() implies #[trigger] r@[j] != id && ids@.subrange(0, i + 1).contains(r@[j]) by {
                if j < r0.len() {
                    assert(r@[j] == r0[j]);
                    let k = choose|k: int| 0 <= k < i && ids@.subrange(0, i as int)[k] == r0[j];
                    assert(ids@.subrange(0, i + 1)[k] == r@[j]);
                } else {
                    assert(ids@.subrange(0, i + 1)[i as int] == r@[j]);
                }
            }
            assert forall|k: int| 0 <= k < i + 1 && ids@[k] != id implies r@.contains(#[trigger] ids@[k]) by {
                if k < i {
                    let j = choose|j: int| 0 <= j < r0.len() && r0[j] == ids@[k];
                    assert(r@[j] == ids@[k]);
                } else {
                    assert(r@[r@.len() - 1] == ids@[k]);
                }
            }
        }
        i = i + 1;
    }
    proof {
        assert(ids@.subrange(0, ids@.len() as int) =~= ids@);
    }
    r
}

/// The pairs are in ascending order of their first component.
pub open spec fn ascending_by_price(v: Seq<(i64, u64)>) -> bool {
    forall|i: int, j: int| 0 <= i < j < v.len() ==> (#[trigger] v[i]).0 <= (#[trigger] v[j]).0
}

/// Inserts `e` after every pair whose price is not above its own, keeping
/// the order; returns the place it went to.
fn insert_by_price(v: &mut Vec<(i64, u64)>, e: (i64, u64)) -> (p: usize)
    requires
        ascending_by_price(old(v)@),
    ensures
        p <= old(v)@.len(),
        final(v)@ == old(v)@.insert(p as int, e),
        ascending_by_price(final(v)@),
{
    let mut p: usize = 0;
    while p < v.len() && v[p].0 <= e.0
        invariant
            p <= v@.len(),
            forall|j: int| 0 <= j < p ==> (#[trigger] v@[j]).0 <= e.0,
        decreases v@.len() - p,
    {
        p = p + 1;
    }
    let ghost v0 = v@;
    v.insert(p, e);
    proof {
        v0.insert_ensures(p as int, e);
        assert forall|i: int, j: int| 0 <= i < j < v@.len() implies (#[trigger] v@[i]).0 <= (#[trigger] v@[j]).0 by {
            if j < p {
            } else if j == p {
            } else if i < p {
                assert(v@[j] == v0[j - 1]);
                assert(v0[p as int].0 > e.0);
                assert(v0[p as int].0 <= v0[j - 1].0);
            } else if i == p {
                assert(v@[j] == v0[j - 1]);
                assert(v0[p as int].0 <= v0[j - 1].0);
            } else {
                assert(v@[j] == v0[j - 1]);
                assert(v@[i] == v0[i - 1]);
            }
        }
    }
    p
}

impl Market {
    /// The active listings, by id.
    pub closed spec fn active(&self) -> Map<u64, Listing> {
        self.listings_by_id@
    }

    /// The listings that wait for the next tick, oldest first.
    pub closed spec fn pending(&self) -> Seq<Listing> {
        self.listing_queue@
    }

    /// The id that the next listing will get.
    pub closed spec fn next_listing_id(&self) -> u64 {
        self.next_id
    }

    /// `id` names a listing that waits in the queue.
    pub open spec fn is_pending(&self, id: u64) -> bool {
        exists|i: int| 0 <= i < self.pending().len() && #[trigger] self.pending()[i].id == id
    }

    /// `id` names a listing that is pending or active.
    pub open spec fn resolves(&self, id: u64) -> bool {
        self.active().contains_key(id) || self.is_pending(id)
    }

    /// The listing that `id` names, when it resolves: the active one, or
    /// else the pending one.
    pub open spec fn listing_of(&self, id: u64) -> Listing {
        if self.active().contains_key(id) {
            self.active()[id]
        } else {
            self.pending()[choose|i: int| 0 <= i < self.pending().len() && #[trigger] self.pending()[i].id == id]
        }
    }

    /// An active listing of kind `kind`.
    pub open spec fn active_of_kind(&self, id: u64, kind: Seq<char>) -> bool {
        self.active().contains_key(id) && self.active()[id].item.kind@ == kind
    }

    /// Some active listing has kind `kind`.
    pub open spec fn kind_listed(&self, kind: Seq<char>) -> bool {
        exists|id: u64| #[trigger] self.active_of_kind(id, kind)
    }

    /// An active listing owned by `owner`.
    pub open spec fn active_of_owner(&self, id: u64, owner: u64) -> bool {
        self.active().contains_key(id) && self.active()[id].owner == Some(owner)
    }

    spec fn kinds_wf(&self) -> bool {
        let ix = self.listings_by_item_kind@;
        &&& forall|a: int, b: int|
            0 <= a < ix.len() && 0 <= b < ix.len() && a != b ==> #[trigger] ix[a].kind@ != #[trigger] ix[b].kind@
        &&& forall|a: int, j: int|
            0 <= a < ix.len() && 0 <= j < ix[a].ids@.len() ==> self.active_of_kind(
                #[trigger] ix[a].ids@[j],
                ix[a].kind@,
            )
        &&& forall|a: int| 0 <= a < ix.len() ==> (#[trigger] ix[a].ids@).no_duplicates()
        &&& forall|a: int| 0 <= a < ix.len() ==> (#[trigger] ix[a].ids@).len() > 0
        &&& forall|id: u64| #[trigger] self.active().contains_key(id) ==> exists|a: int|
            0 <= a < ix.len() && #[trigger] ix[a].ids@.contains(id)
    }

    spec fn owners_wf(&self) -> bool {
        let ox = self.listings_by_owner_id@;
        &&& forall|o: u64, j: int|
            #[trigger] ox.contains_key(o) && 0 <= j < ox[o]@.len() ==> self.active_of_owner(
                #[trigger] ox[o]@[j],
                o,
            )
        &&& forall|o: u64| #[trigger] ox.contains_key(o) ==> ox[o]@.no_duplicates()
        &&& forall|id: u64|
            #[trigger] self.active().contains_key(id) && self.active()[id].owner is Some ==> {
                let o = self.active()[id].owner->Some_0;
                ox.contains_key(o) && ox[o]@.contains(id)
            }
    }

    spec fn ids_wf(&self) -> bool {
        &&& forall|id: u64| #[trigger] self.active().contains_key(id) ==> self.active()[id].id == id
            && id < self.next_id
        &&& forall|i: int|
            0 <= i < self.pending().len() ==> (#[trigger] self.pending()[i]).id < self.next_id
                && !self.active().contains_key(self.pending()[i].id)
        &&& forall|i: int, j: int|
            0 <= i < self.pending().len() && 0 <= j < self.pending().len() && i != j
                ==> #[trigger] self.pending()[i].id != #[trigger] self.pending()[j].id
    }

    /// The market's indexes agree with its active listings.
    pub closed spec fn wf(&self) -> bool {
        &&& self.ids_wf()
        &&& self.kinds_wf()
        &&& self.owners_wf()
    }

    /// An empty market.
    pub fn new() -> (r: Market)
        ensures
            r.wf(),
            r.active() == Map::<u64, Listing>::empty(),
            r.pending() == Seq::<Listing>::empty(),
            r.next_listing_id() == 0,
    {
        Market {
            listings_by_id: HashMap::new(),
            listings_by_item_kind: Vec::new(),
            listings_by_owner_id: HashMap::new(),
            listing_queue: VecDeque::new(),
            next_id: 0,
        }
    }

    /// Whether one more listing can get an id.
    pub fn can_list(&self) -> (r: bool)
        ensures
            r == (self.next_listing_id() < u64::MAX),
    {
        self.next_id < u64::MAX
    }

    /// Lists `item` at `price` for `owner`: the listing waits in the queue,
    /// and only the next tick makes it active. Returns its handle, which
    /// resolves at once.
    pub fn list_item(&mut self, owner: Option<u64>, item: Item, price: i64) -> (r: u64)
        requires
            old(self).wf(),
            old(self).next_listing_id() < u64::MAX,
        ensures
            final(self).wf(),
            r == old(self).next_listing_id(),
            !old(self).resolves(r),
            final(self).resolves(r),
            final(self).pending() == old(self).pending().push(Listing { id: r, owner, item, price }),
            final(self).active() == old(self).active(),
            final(self).next_listing_id() == old(self).next_listing_id() + 1,
    {
        let id = self.next_id;
        self.listing_queue.push_back(Listing { id, owner, item, price });
        self.next_id = self.next_id + 1;
        proof {
            assert(self.pending()[self.pending().len() - 1].id == id);
            assert forall|i: int| 0 <= i < old(self).pending().len() implies #[trigger] old(self).pending()[i].id != id by {
            }
        }
        id
    }

    /// The place of `kind` in the kind index, if it is there.
    fn find_kind(&self, kind: &String) -> (r: Option<usize>)
        ensures
            match r {
                Some(a) => a < self.listings_by_item_kind@.len()
                    && self.listings_by_item_kind@[a as int].kind@ == kind@,
                None => forall|a: int|
                    0 <= a < self.listings_by_item_kind@.len() ==> #[trigger] self.listings_by_item_kind@[a].kind@
                        != kind@,
            },
    {
        let mut a: usize = 0;
        while a < self.listings_by_item_kind.len()
            invariant
                a <= self.listings_by_item_kind@.len(),
                forall|b: int| 0 <= b < a ==> #[trigger] self.listings_by_item_kind@[b].kind@ != kind@,
            decreases self.listings_by_item_kind@.len() - a,
        {
            if self.listings_by_item_kind[a].kind == *kind {
                return Some(a);
            }
            a = a + 1;
        }
        None
    }

    /// Makes listing `l`, which is neither active nor pending, active and
    /// enters it in both indexes.
    fn commit(&mut self, l: Listing)
        requires
            old(self).wf(),
            !old(self).active().contains_key(l.id),
            l.id < old(self).next_listing_id(),
            !old(self).is_pending(l.id),
        ensures
            final(self).wf(),
            final(self).active() == old(self).active().insert(l.id, l),
            final(self).pending() == old(self).pending(),
            final(self).next_listing_id() == old(self).next_listing_id(),
    {
        let id = l.id;
        let owner = l.owner;
        let kind = l.item.kind.clone();
        let ghost l_spec = l;
        self.listings_by_id.insert(id, l);
        proof {
            assert forall|x: u64| #[trigger] self.active().contains_key(x) implies self.active()[x].id == x
                && x < self.next_id by {
                if x != id {
                    assert(old(self).active().contains_key(x));
                }
            }
            assert forall|i: int| 0 <= i < self.pending().len() implies (#[trigger] self.pending()[i]).id < self.next_id
                && !self.active().contains_key(self.pending()[i].id) by {
                assert(old(self).pending()[i].id != id);
            }
            assert(self.ids_wf());
        }
        let ghost mid = self.listings_by_item_kind@;
        match self.find_kind(&kind) {
            Some(a) => {
                self.listings_by_item_kind[a].ids.push(id);
                proof {
                    let ix = self.listings_by_item_kind@;
                    assert forall|b: int, j: int|
                        0 <= b < ix.len() && 0 <= j < ix[b].ids@.len() implies self.active_of_kind(
                            #[trigger] ix[b].ids@[j],
                            ix[b].kind@,
                        ) by {
                        if b != a as int || j < mid[b].ids@.len() {
                            assert(ix[b].ids@[j] == mid[b].ids@[j]);
                            assert(old(self).active_of_kind(mid[b].ids@[j], mid[b].kind@));
                        }
                    }
                    assert(!mid[a as int].ids@.contains(id)) by {
                        if mid[a as int].ids@.contains(id) {
                            let j = choose|j: int| 0 <= j < mid[a as int].ids@.len() && mid[a as int].ids@[j] == id;
                            assert(old(self).active_of_kind(mid[a as int].ids@[j], mid[a as int].kind@));
                        }
                    }
                    assert forall|b: int| 0 <= b < ix.len() implies (#[trigger] ix[b].ids@).no_duplicates() by {
                        assert(mid[b].ids@.no_duplicates());
                    }
                    assert forall|x: u64| #[trigger] self.active().contains_key(x) implies exists|b: int|
                        0 <= b < ix.len() && #[trigger] ix[b].ids@.contains(x) by {
                        if x == id {
                            assert(ix[a as int].ids@[ix[a as int].ids@.len() - 1] == x);
                            assert(ix[a as int].ids@.contains(x));
                        } else {
                            assert(old(self).active().contains_key(x));
                            let b = choose|b: int| 0 <= b < mid.len() && #[trigger] mid[b].ids@.contains(x);
                            let j = choose|j: int| 0 <= j < mid[b].ids@.len() && mid[b].ids@[j] == x;
                            assert(ix[b].ids@[j] == x);
                            assert(ix[b].ids@.contains(x));
                        }
                    }
                    assert(self.kinds_wf());
                }
            },
            None => {
                let mut ids: Vec<u64> = Vec::new();
                ids.push(id);
                self.listings_by_item_kind.push(KindIndex { kind, ids });
                proof {
                    let ix = self.listings_by_item_kind@;
                    let n = mid.len() as int;
                    assert(ix[n].ids@ =~= seq![id]);
                    assert forall|b: int, j: int|
                        0 <= b < ix.len() && 0 <= j < ix[b].ids@.len() implies self.active_of_kind(
                            #[trigger] ix[b].ids@[j],
                            ix[b].kind@,
                        ) by {
                        if b < n {
                            assert(old(self).active_of_kind(mid[b].ids@[j], mid[b].kind@));
                        }
                    }
                    assert forall|b: int| 0 <= b < ix.len() implies (#[trigger] ix[b].ids@).no_duplicates() by {
                        if b < n {
                            assert(mid[b].ids@.no_duplicates());
                        }
                    }
                    assert forall|x: u64| #[trigger] self.active().contains_key(x) implies exists|b: int|
                        0 <= b < ix.len() && #[trigger] ix[b].ids@.contains(x) by {
                        if x == id {
                            assert(ix[n].ids@[0] == x);
                            assert(ix[n].ids@.contains(x));
                        } else {
                            assert(old(self).active().contains_key(x));
                            let b = choose|b: int| 0 <= b < mid.len() && #[trigger] mid[b].ids@.contains(x);
                            assert(ix[b] == mid[b]);
                        }
                    }
                    assert(self.kinds_wf());
                }
            },
        }
        let ghost ox0 = self.listings_by_owner_id@;
        match owner {
            Some(o) => {
                let mut v = match self.listings_by_owner_id.remove(&o) {
                    Some(v) => v,
                    None => Vec::new(),
                };
                let ghost v0 = v@;
                assert(ox0.contains_key(o) ==> v0 == ox0[o]@);
                assert(!ox0.contains_key(o) ==> v0 == Seq::<u64>::empty());
                assert(!v0.contains(id)) by {
                    if v0.contains(id) {
                        let j = choose|j: int| 0 <= j < v0.len() && v0[j] == id;
                        assert(old(self).active_of_owner(ox0[o]@[j], o));
                    }
                }
                v.push(id);
                self.listings_by_owner_id.insert(o, v);
                proof {
                    let ox = self.listings_by_owner_id@;
                    assert forall|p: u64, j: int|
                        #[trigger] ox.contains_key(p) && 0 <= j < ox[p]@.len() implies self.active_of_owner(
                            #[trigger] ox[p]@[j],
                            p,
                        ) by {
                        if p != o || j < v0.len() {
                            assert(old(self).active_of_owner(ox0[p]@[j], p));
                        }
                    }
                    assert forall|p: u64| #[trigger] ox.contains_key(p) implies ox[p]@.no_duplicates() by {
                        if p != o {
                            assert(ox0[p]@.no_duplicates());
                        }
                    }
                    assert forall|x: u64|
                        #[trigger] self.active().contains_key(x) && self.active()[x].owner is Some implies {
                        let q = self.active()[x].owner->Some_0;
                        ox.contains_key(q) && ox[q]@.contains(x)
                    } by {
                        let q = self.active()[x].owner->Some_0;
                        if x == id {
                            assert(ox[o]@[v0.len() as int] == x);
                        } else {
                            assert(old(self).active().contains_key(x));
                            if q == o {
                                let j = choose|j: int| 0 <= j < v0.len() && v0[j] == x;
                                assert(ox[o]@[j] == x);
                            }
                        }
                    }
                    assert(self.owners_wf());
                }
            },
            None => {
                proof {
                    let ox = self.listings_by_owner_id@;
                    assert forall|p: u64, j: int|
                        #[trigger] ox.contains_key(p) && 0 <= j < ox[p]@.len() implies self.active_of_owner(
                            #[trigger] ox[p]@[j],
                            p,
                        ) by {
                        assert(old(self).active_of_owner(ox0[p]@[j], p));
                    }
                    assert forall|x: u64|
                        #[trigger] self.active().contains_key(x) && self.active()[x].owner is Some implies {
                        let q = self.active()[x].owner->Some_0;
                        ox.contains_key(q) && ox[q]@.contains(x)
                    } by {
                        if x != id {
                            assert(old(self).active().contains_key(x));
                        }
                    }
                    assert(self.owners_wf());
                }
            },
        }
        assert(self.ids_wf());
        assert(self.kinds_wf());
    }

    /// Commits every pending listing, oldest first: each becomes active and
    /// is entered in both indexes. The queue is left empty.
    pub fn tick(&mut self)
        requires
            old(self).wf(),
        ensures
            final(self).wf(),
            final(self).pending() == Seq::<Listing>::empty(),
            final(self).next_listing_id() == old(self).next_listing_id(),
            forall|id: u64| #[trigger] final(self).active().contains_key(id) <==> old(self).resolves(id),
            forall|id: u64| #[trigger] old(self).active().contains_key(id)
                ==> final(self).active()[id] == old(self).active()[id],
            forall|i: int| 0 <= i < old(self).pending().len()
                ==> final(self).active()[#[trigger] old(self).pending()[i].id] == old(self).pending()[i],
            committed(&*old(self), &*final(self)),
    {
        let ghost q0 = old(self).pending();
        let ghost a0 = old(self).active();
        let ghost k: int = 0;
        while self.listing_queue.len() > 0
            invariant
                self.wf(),
                0 <= k <= q0.len(),
                self.pending() == q0.subrange(k, q0.len() as int),
                self.next_id == old(self).next_id,
                forall|id: u64| #[trigger] self.active().contains_key(id) <==> a0.contains_key(id)
                    || exists|j: int| 0 <= j < k && q0[j].id == id,
                forall|id: u64| #[trigger] a0.contains_key(id) ==> self.active()[id] == a0[id],
                forall|j: int| 0 <= j < k ==> self.active()[#[trigger] q0[j].id] == q0[j],
                forall|i: int| 0 <= i < q0.len() ==> !a0.contains_key(#[trigger] q0[i].id),
                forall|i: int, j: int|
                    0 <= i < q0.len() && 0 <= j < q0.len() && i != j ==> #[trigger] q0[i].id != #[trigger] q0[j].id,
            decreases self.pending().len(),
        {
            let ghost before = self.active();
            let ghost pq = self.pending();
            let ghost kix = self.listings_by_item_kind@;
            assert(self.kinds_wf());
            let l = match self.listing_queue.pop_front() {
                Some(l) => l,
                None => { return; },
            };
            proof {
                assert(l == q0[k]);
                assert(!before.contains_key(l.id)) by {
                    if exists|j: int| 0 <= j < k && q0[j].id == l.id {
                        let j = choose|j: int| 0 <= j < k && q0[j].id == l.id;
                        assert(q0[j].id != q0[k].id);
                    }
                }
                assert(!self.is_pending(l.id)) by {
                    if self.is_pending(l.id) {
                        let i = choose|i: int| 0 <= i < self.pending().len() && #[trigger] self.pending()[i].id == l.id;
                        assert(self.pending()[i] == q0[k + 1 + i]);
                    }
                }
                assert forall|i: int| 0 <= i < self.pending().len() implies (#[trigger] self.pending()[i]).id < self.next_id
                    && !self.active().contains_key(self.pending()[i].id) by {
                    assert(pq[i + 1] == self.pending()[i]);
                }
                assert(l.id < self.next_id) by {
                    assert(pq[0] == l);
                }
                assert forall|i: int, j: int|
                    0 <= i < self.pending().len() && 0 <= j < self.pending().len() && i != j
                    implies #[trigger] self.pending()[i].id != #[trigger] self.pending()[j].id by {
                    assert(pq[i + 1] == self.pending()[i]);
                    assert(pq[j + 1] == self.pending()[j]);
                }
                assert(self.ids_wf());
                assert(kix == self.listings_by_item_kind@);
                assert(before == self.active());
                assert(self.kinds_wf());
                assert(self.owners_wf());
                assert(self.wf());
            }
            self.commit(l);
            proof {
                k = k + 1;
                assert forall|id: u64| #[trigger] self.active().contains_key(id) <==> a0.contains_key(id)
                    || exists|j: int| 0 <= j < k && q0[j].id == id by {
                    if exists|j: int| 0 <= j < k && q0[j].id == id {
                        let j = choose|j: int| 0 <= j < k && q0[j].id == id;
                        if j < k - 1 {
                            assert(before.contains_key(id));
                        }
                    }
                    if before.contains_key(id) && !a0.contains_key(id) {
                        let j = choose|j: int| 0 <= j < k - 1 && q0[j].id == id;
                        assert(0 <= j < k && q0[j].id == id);
                    }
                    if id == q0[k - 1].id {
                        assert(0 <= k - 1 < k && q0[k - 1].id == id);
                    }
                }
                assert forall|j: int| 0 <= j < k implies self.active()[#[trigger] q0[j].id] == q0[j] by {
                    if j < k - 1 {
                        assert(q0[j].id != q0[k - 1].id);
                    }
                }
            }
        }
        proof {
            assert(k == q0.len());
            assert forall|id: u64| #[trigger] self.active().contains_key(id) <==> old(self).resolves(id) by {
                if exists|j: int| 0 <= j < k && q0[j].id == id {
                    let j = choose|j: int| 0 <= j < k && q0[j].id == id;
                    assert(old(self).pending()[j].id == id);
                }
                if old(self).is_pending(id) {
                    let j = choose|j: int| 0 <= j < old(self).pending().len() && #[trigger] old(self).pending()[j].id == id;
                    assert(q0[j].id == id);
                }
            }
        }
    }

    /// Takes the active listing `id` off the market, out of the primary map
    /// and both indexes. A handle that names no active listing (one already
    /// taken off, bought, or still pending) changes nothing.
    pub fn unlist_item(&mut self, id: u64)
        requires
            old(self).wf(),
        ensures
            final(self).wf(),
            final(self).active() == old(self).active().remove(id),
            final(self).pending() == old(self).pending(),
            final(self).next_listing_id() == old(self).next_listing_id(),
    {
        let l = match self.listings_by_id.remove(&id) {
            Some(l) => l,
            None => {
                proof {
                    assert(old(self).active().remove(id) =~= old(self).active());
                    assert(self.active() =~= old(self).active());
                    assert(self.ids_wf());
                    assert(old(self).kinds_wf());
                    assert(self.listings_by_item_kind@ == old(self).listings_by_item_kind@);
                    assert(self.listings_by_id@ == old(self).listings_by_id@);
                    assert(self.kinds_wf());
                    assert(self.owners_wf());
                }
                return;
            },
        };
        proof {
            assert forall|i: int| 0 <= i < self.pending().len() implies (#[trigger] self.pending()[i]).id < self.next_id
                && !self.active().contains_key(self.pending()[i].id) by {
            }
            assert(self.ids_wf());
        }
        let ghost ix0 = self.listings_by_item_kind@;
        match self.find_kind(&l.item.kind) {
            Some(a) => {
                let rest = without_id(&self.listings_by_item_kind[a].ids, id);
                if rest.len() == 0 {
                    self.listings_by_item_kind.remove(a);
                    proof {
                        let ix = self.listings_by_item_kind@;
                        assert forall|b: int, j: int|
                            0 <= b < ix.len() && 0 <= j < ix[b].ids@.len() implies self.active_of_kind(
                                #[trigger] ix[b].ids@[j],
                                ix[b].kind@,
                            ) by {
                            let ob = if b < a { b } else { b + 1 };
                            assert(ix[b] == ix0[ob]);
                            assert(old(self).active_of_kind(ix0[ob].ids@[j], ix0[ob].kind@));
                            assert(ix0[ob].ids@[j] != id) by {
                                if ix0[ob].ids@[j] == id {
                                    assert(ix0[a as int].ids@.contains(id)) by {
                                        assert(ix0[ob].kind@ == l.item.kind@);
                                    }
                                }
                            }
                        }
                        assert forall|b: int| 0 <= b < ix.len() implies (#[trigger] ix[b].ids@).no_duplicates() by {
                            let ob = if b < a { b } else { b + 1 };
                            assert(ix[b] == ix0[ob]);
                        }
                        assert forall|b: int| 0 <= b < ix.len() implies (#[trigger] ix[b].ids@).len() > 0 by {
                            let ob = if b < a { b } else { b + 1 };
                            assert(ix[b] == ix0[ob]);
                        }
                        assert forall|b: int, c: int|
                            0 <= b < ix.len() && 0 <= c < ix.len() && b != c implies #[trigger] ix[b].kind@
                            != #[trigger] ix[c].kind@ by {
                            let ob = if b < a { b } else { b + 1 };
                            let oc = if c < a { c } else { c + 1 };
                            assert(ix[b] == ix0[ob]);
                            assert(ix[c] == ix0[oc]);
                        }
                        assert forall|x: u64| #[trigger] self.active().contains_key(x) implies exists|b: int|
                            0 <= b < ix.len() && #[trigger] ix[b].ids@.contains(x) by {
                            assert(old(self).active().contains_key(x));
                            let ob = choose|b: int| 0 <= b < ix0.len() && #[trigger] ix0[b].ids@.contains(x);
                            if ob == a as int {
                                assert(rest@.contains(x));
                            } else {
                                let b = if ob < a { ob } else { ob - 1 };
                                assert(ix[b] == ix0[ob]);
                            }
                        }
                        assert(self.kinds_wf());
                    }
                } else {
                    self.listings_by_item_kind[a].ids = rest;
                    proof {
                        let ix = self.listings_by_item_kind@;
                        assert forall|b: int, j: int|
                            0 <= b < ix.len() && 0 <= j < ix[b].ids@.len() implies self.active_of_kind(
                                #[trigger] ix[b].ids@[j],
                                ix[b].kind@,
                            ) by {
                            if b == a as int {
                                let x = ix[b].ids@[j];
                                let k = choose|k: int| 0 <= k < ix0[b].ids@.len() && ix0[b].ids@[k] == x;
                                assert(old(self).active_of_kind(ix0[b].ids@[k], ix0[b].kind@));
                            } else {
                                assert(ix[b] == ix0[b]);
                                assert(old(self).active_of_kind(ix0[b].ids@[j], ix0[b].kind@));
                                assert(ix0[b].ids@[j] != id) by {
                                    if ix0[b].ids@[j] == id {
                                        assert(ix0[b].kind@ == l.item.kind@);
                                    }
                                }
                            }
                        }
                        assert forall|b: int| 0 <= b < ix.len() implies (#[trigger] ix[b].ids@).no_duplicates() by {
                            assert(ix0[b].ids@.no_duplicates());
                        }
                        assert forall|b: int, c: int|
                            0 <= b < ix.len() && 0 <= c < ix.len() && b != c implies #[trigger] ix[b].kind@
                            != #[trigger] ix[c].kind@ by {
                            assert(ix0[b].kind@ != ix0[c].kind@);
                        }
                        assert forall|x: u64| #[trigger] self.active().contains_key(x) implies exists|b: int|
                            0 <= b < ix.len() && #[trigger] ix[b].ids@.contains(x) by {
                            assert(old(self).active().contains_key(x));
                            let ob = choose|b: int| 0 <= b < ix0.len() && #[trigger] ix0[b].ids@.contains(x);
                            if ob == a as int {
                                assert(rest@.contains(x));
                                assert(ix[ob].ids@ == rest@);
                                assert(ix[ob].ids@.contains(x));
                            } else {
                                assert(ix[ob] == ix0[ob]);
                            }
                        }
                        assert(self.kinds_wf());
                    }
                }
            },
            None => {
                proof {
                    let ix = self.listings_by_item_kind@;
                    assert forall|b: int, j: int|
                        0 <= b < ix.len() && 0 <= j < ix[b].ids@.len() implies self.active_of_kind(
                            #[trigger] ix[b].ids@[j],
                            ix[b].kind@,
                        ) by {
                        assert(old(self).active_of_kind(ix0[b].ids@[j], ix0[b].kind@));
                    }
                    assert forall|x: u64| #[trigger] self.active().contains_key(x) implies exists|b: int|
                        0 <= b < ix.len() && #[trigger] ix[b].ids@.contains(x) by {
                        assert(old(self).active().contains_key(x));
                    }
                    assert(self.kinds_wf());
                }
            },
        }
        assert(self.ids_wf());
        assert(self.kinds_wf());
        let ghost ox0 = self.listings_by_owner_id@;
        match l.owner {
            Some(o) => {
                match self.listings_by_owner_id.remove(&o) {
                    Some(v) => {
                        let rest = without_id(&v, id);
                        self.listings_by_owner_id.insert(o, rest);
                        proof {
                            let ox = self.listings_by_owner_id@;
                            assert forall|p: u64, j: int|
                                #[trigger] ox.contains_key(p) && 0 <= j < ox[p]@.len() implies self.active_of_owner(
                                    #[trigger] ox[p]@[j],
                                    p,
                                ) by {
                                if p == o {
                                    let x = ox[p]@[j];
                                    let k = choose|k: int| 0 <= k < v@.len() && v@[k] == x;
                                    assert(old(self).active_of_owner(ox0[p]@[k], p));
                                } else {
                                    assert(old(self).active_of_owner(ox0[p]@[j], p));
                                }
                            }
                            assert forall|q: u64| #[trigger] ox.contains_key(q) implies ox[q]@.no_duplicates() by {
                                assert(ox0[q]@.no_duplicates());
                            }
                            assert forall|x: u64|
                                #[trigger] self.active().contains_key(x) && self.active()[x].owner is Some implies {
                                let q = self.active()[x].owner->Some_0;
                                ox.contains_key(q) && ox[q]@.contains(x)
                            } by {
                                assert(old(self).active().contains_key(x));
                                let q = self.active()[x].owner->Some_0;
                                if q == o {
                                    assert(v@.contains(x));
                                }
                            }
                            assert(self.owners_wf());
                        }
                    },
                    None => {
                        proof {
                            let ox = self.listings_by_owner_id@;
                            assert(ox == ox0);
                            assert forall|p: u64, j: int|
                                #[trigger] ox.contains_key(p) && 0 <= j < ox[p]@.len() implies self.active_of_owner(
                                    #[trigger] ox[p]@[j],
                                    p,
                                ) by {
                                assert(old(self).active_of_owner(ox0[p]@[j], p));
                                if ox0[p]@[j] == id {
                                    assert(ox0.contains_key(o));
                                }
                            }
                            assert forall|x: u64|
                                #[trigger] self.active().contains_key(x) && self.active()[x].owner is Some implies {
                                let q = self.active()[x].owner->Some_0;
                                ox.contains_key(q) && ox[q]@.contains(x)
                            } by {
                                assert(old(self).active().contains_key(x));
                            }
                            assert(self.owners_wf());
                        }
                    },
                }
            },
            None => {
                proof {
                    let ox = self.listings_by_owner_id@;
                    assert forall|p: u64, j: int|
                        #[trigger] ox.contains_key(p) && 0 <= j < ox[p]@.len() implies self.active_of_owner(
                            #[trigger] ox[p]@[j],
                            p,
                        ) by {
                        assert(old(self).active_of_owner(ox0[p]@[j], p));
                    }
                    assert forall|x: u64|
                        #[trigger] self.active().contains_key(x) && self.active()[x].owner is Some implies {
                        let q = self.active()[x].owner->Some_0;
                        ox.contains_key(q) && ox[q]@.contains(x)
                    } by {
                        assert(old(self).active().contains_key(x));
                    }
                    assert(self.owners_wf());
                }
            },
        }
        assert(self.ids_wf());
        assert(self.kinds_wf());
    }

    /// The active listings of kind `kind`, cheapest first, each once. Pending
    /// listings are not among them.
    pub fn get_listings_of_kind(&self, kind: &str) -> (r: Vec<u64>)
        requires
            self.wf(),
        ensures
            forall|id: u64| r@.contains(id) <==> self.active_of_kind(id, kind@),
            r@.no_duplicates(),
            forall|i: int, j: int|
                0 <= i < j < r@.len() ==> self.active()[#[trigger] r@[i]].price <= self.active()[#[trigger] r@[j]].price,
    {
        let key = kind.to_string();
        let a = match self.find_kind(&key) {
            Some(a) => a,
            None => {
                let r: Vec<u64> = Vec::new();
                proof {
                    assert forall|id: u64| !self.active_of_kind(id, kind@) by {
                        if self.active_of_kind(id, kind@) {
                            let ix = self.listings_by_item_kind@;
                            let b = choose|b: int| 0 <= b < ix.len() && #[trigger] ix[b].ids@.contains(id);
                            let j = choose|j: int| 0 <= j < ix[b].ids@.len() && ix[b].ids@[j] == id;
                            assert(self.active_of_kind(ix[b].ids@[j], ix[b].kind@));
                        }
                    }
                }
                return r;
            },
        };
        let ids = &self.listings_by_item_kind[a].ids;
        let ghost ix = self.listings_by_item_kind@;
        let mut sorted: Vec<(i64, u64)> = Vec::new();
        let mut i: usize = 0;
        while i < ids.len()
            invariant
                self.wf(),
                ix == self.listings_by_item_kind@,
                a < ix.len(),
                *ids == ix[a as int].ids,
                ix[a as int].kind@ == kind@,
                i <= ids@.len(),
                sorted@.len() == i,
                ascending_by_price(sorted@),
                forall|j: int| 0 <= j < sorted@.len() ==> {
                    &&& self.active().contains_key((#[trigger] sorted@[j]).1)
                    &&& self.active()[sorted@[j].1].price == sorted@[j].0
                    &&& ids@.subrange(0, i as int).contains(sorted@[j].1)
                },
                forall|k: int| #![trigger ids@[k]] 0 <= k < i ==> exists|j: int| 0 <= j < sorted@.len() && (#[trigger] sorted@[j]).1 == ids@[k],
                forall|j1: int, j2: int| 0 <= j1 < sorted@.len() && 0 <= j2 < sorted@.len() && j1 != j2
                    ==> (#[trigger] sorted@[j1]).1 != (#[trigger] sorted@[j2]).1,
            decreases ids@.len() - i,
        {
            let id = ids[i];
            proof {
                assert(self.active_of_kind(ix[a as int].ids@[i as int], ix[a as int].kind@));
            }
            match self.listings_by_id.get(&id) {
                Some(l) => {
                    let ghost s0 = sorted@;
                    let p = insert_by_price(&mut sorted, (l.price, id));
                    proof {
                        s0.insert_ensures(p as int, (l.price, id));
                        assert forall|j: int| 0 <= j < sorted@.len() implies {
                            &&& self.active().contains_key((#[trigger] sorted@[j]).1)
                            &&& self.active()[sorted@[j].1].price == sorted@[j].0
                            &&& ids@.subrange(0, i + 1).contains(sorted@[j].1)
                        } by {
                            if j == p {
                                assert(ids@.subrange(0, i + 1)[i as int] == id);
                            } else {
                                let oj = if j < p { j } else { j - 1 };
                                assert(sorted@[j] == s0[oj]);
                                let k = choose|k: int| 0 <= k < i && ids@.subrange(0, i as int)[k] == s0[oj].1;
                                assert(ids@.subrange(0, i + 1)[k] == s0[oj].1);
                            }
                        }
                        assert forall|k: int| #![trigger ids@[k]] 0 <= k < i + 1 implies exists|j: int|
                            0 <= j < sorted@.len() && (#[trigger] sorted@[j]).1 == ids@[k] by {
                            if k == i {
                                assert(sorted@[p as int].1 == ids@[k]);
                            } else {
                                let oj = choose|j: int| 0 <= j < s0.len() && (#[trigger] s0[j]).1 == ids@[k];
                                let nj = if oj < p { oj } else { oj + 1 };
                                assert(sorted@[nj] == s0[oj]);
                            }
                        }
                        assert forall|j: int| 0 <= j < s0.len() implies (#[trigger] s0[j]).1 != id by {
                            let k = choose|k: int| 0 <= k < i && ids@.subrange(0, i as int)[k] == s0[j].1;
                            assert(ids@[k] == ids@.subrange(0, i as int)[k]);
                            assert(ix[a as int].ids@.no_duplicates());
                        }
                        assert forall|j1: int, j2: int| 0 <= j1 < sorted@.len() && 0 <= j2 < sorted@.len() && j1 != j2
                            implies (#[trigger] sorted@[j1]).1 != (#[trigger] sorted@[j2]).1 by {
                            let o1 = if j1 < p { j1 } else { j1 - 1 };
                            let o2 = if j2 < p { j2 } else { j2 - 1 };
                            if j1 != p {
                                assert(sorted@[j1] == s0[o1]);
                            }
                            if j2 != p {
                                assert(sorted@[j2] == s0[o2]);
                            }
                        }
                    }
                },
                None => {},
            }
            i = i + 1;
        }
        let mut r: Vec<u64> = Vec::new();
        let mut j: usize = 0;
        while j < sorted.len()
            invariant
                j <= sorted@.len(),
                r@.len() == j,
                forall|k: int| 0 <= k < j ==> r@[k] == (#[trigger] sorted@[k]).1,
            decreases sorted@.len() - j,
        {
            r.push(sorted[j].1);
            j = j + 1;
        }
        proof {
            assert(ids@.subrange(0, ids@.len() as int) =~= ids@);
            assert forall|id: u64| r@.contains(id) <==> self.active_of_kind(id, kind@) by {
                if r@.contains(id) {
                    let k = choose|k: int| 0 <= k < r@.len() && r@[k] == id;
                    assert(sorted@[k].1 == id);
                    let m = choose|m: int| 0 <= m < ids@.len() && ids@.subrange(0, ids@.len() as int)[m] == id;
                    assert(self.active_of_kind(ix[a as int].ids@[m], ix[a as int].kind@));
                }
                if self.active_of_kind(id, kind@) {
                    let b = choose|b: int| 0 <= b < ix.len() && #[trigger] ix[b].ids@.contains(id);
                    let m = choose|m: int| 0 <= m < ix[b].ids@.len() && ix[b].ids@[m] == id;
                    assert(self.active_of_kind(ix[b].ids@[m], ix[b].kind@));
                    assert(b == a as int);
                    let k = choose|k: int| 0 <= k < sorted@.len() && (#[trigger] sorted@[k]).1 == ids@[m];
                    assert(r@[k] == id);
                }
            }
            assert forall|x: int, y: int| 0 <= x < r@.len() && 0 <= y < r@.len() && x != y
                implies r@[x] != r@[y] by {
                assert(r@[x] == sorted@[x].1);
                assert(r@[y] == sorted@[y].1);
            }
            assert forall|x: int, y: int|
                0 <= x < y < r@.len() implies self.active()[#[trigger] r@[x]].price <= self.active()[#[trigger] r@[y]].price by {
                assert(r@[x] == sorted@[x].1);
                assert(r@[y] == sorted@[y].1);
            }
        }
        r
    }

    /// The active listings of `owner`, each once.
    pub fn get_listings_of_owner(&self, owner: u64) -> (r: Vec<u64>)
        requires
            self.wf(),
        ensures
            forall|id: u64| r@.contains(id) <==> self.active_of_owner(id, owner),
            r@.no_duplicates(),
    {
        match self.listings_by_owner_id.get(&owner) {
            Some(v) => {
                let r = v.clone();
                proof {
                    assert(r@ =~= v@);
                    let ox = self.listings_by_owner_id@;
                    assert forall|id: u64| r@.contains(id) <==> self.active_of_owner(id, owner) by {
                        if r@.contains(id) {
                            let j = choose|j: int| 0 <= j < r@.len() && r@[j] == id;
                            assert(self.active_of_owner(ox[owner]@[j], owner));
                        }
                    }
                }
                r
            },
            None => {
                let r: Vec<u64> = Vec::new();
                proof {
                    assert forall|id: u64| r@.contains(id) <==> self.active_of_owner(id, owner) by {
                        if self.active_of_owner(id, owner) {
                            assert(self.active().contains_key(id));
                        }
                    }
                }
                r
            },
        }
    }

    /// The kinds that have at least one active listing, each once.
    pub fn get_listed_item_kinds(&self) -> (r: Vec<String>)
        requires
            self.wf(),
        ensures
            forall|i: int| 0 <= i < r@.len() ==> self.kind_listed(#[trigger] r@[i]@),
            forall|k: Seq<char>| #[trigger] self.kind_listed(k) ==> exists|i: int| 0 <= i < r@.len() && #[trigger] r@[i]@ == k,
            forall|i: int, j: int| 0 <= i < r@.len() && 0 <= j < r@.len() && i != j ==> #[trigger] r@[i]@ != #[trigger] r@[j]@,
    {
        let ghost ix = self.listings_by_item_kind@;
        let mut r: Vec<String> = Vec::new();
        let mut a: usize = 0;
        while a < self.listings_by_item_kind.len()
            invariant
                ix == self.listings_by_item_kind@,
                a <= ix.len(),
                r@.len() == a,
                forall|b: int| 0 <= b < a ==> (#[trigger] r@[b])@ == ix[b].kind@,
            decreases ix.len() - a,
        {
            r.push(self.listings_by_item_kind[a].kind.clone());
            a = a + 1;
        }
        proof {
            assert forall|i: int| 0 <= i < r@.len() implies self.kind_listed(#[trigger] r@[i]@) by {
                let id = ix[i].ids@[0];
                assert(self.active_of_kind(ix[i].ids@[0], ix[i].kind@));
                assert(self.active_of_kind(id, r@[i]@));
            }
            assert forall|k: Seq<char>| #[trigger] self.kind_listed(k) implies exists|i: int| 0 <= i < r@.len() && #[trigger] r@[i]@ == k by {
                {
                    let id = choose|id: u64| #[trigger] self.active_of_kind(id, k);
                    let b = choose|b: int| 0 <= b < ix.len() && #[trigger] ix[b].ids@.contains(id);
                    let m = choose|m: int| 0 <= m < ix[b].ids@.len() && ix[b].ids@[m] == id;
                    assert(self.active_of_kind(ix[b].ids@[m], ix[b].kind@));
                    assert(r@[b]@ == k);
                }
            }
            assert forall|i: int, j: int| 0 <= i < r@.len() && 0 <= j < r@.len() && i != j
                implies #[trigger] r@[i]@ != #[trigger] r@[j]@ by {
                assert(ix[i].kind@ != ix[j].kind@);
            }
        }
        r
    }

    /// A copy of the active listing `id`, if there is one.
    pub fn get_listing(&self, id: u64) -> (r: Option<Listing>)
        requires
            self.wf(),
        ensures
            r is Some <==> self.active().contains_key(id),
            r is Some ==> r->Some_0 == self.active()[id],
    {
        match self.listings_by_id.get(&id) {
            Some(l) => Some(l.duplicate()),
            None => None,
        }
    }

    /// Whether `id` names a listing that is pending or active.
    pub fn is_listed(&self, id: u64) -> (r: bool)
        requires
            self.wf(),
        ensures
            r == self.resolves(id),
    {
        if self.listings_by_id.contains_key(&id) {
            return true;
        }
        let mut i: usize = 0;
        while i < self.listing_queue.len()
            invariant
                i <= self.pending().len(),
                forall|j: int| 0 <= j < i ==> (#[trigger] self.pending()[j]).id != id,
                !self.active().contains_key(id),
            decreases self.pending().len() - i,
        {
            if self.listing_queue[i].id == id {
                return true;
            }
            i = i + 1;
        }
        false
    }

    /// Whether listing `id` can be bought: it resolves (pending or active),
    /// it has an owner, and that owner's account (from `owner_accounts`, by
    /// actor id) is an account of `ledger`.
    pub open spec fn can_buy(&self, ledger: &Ledger, id: u64, owner_accounts: Seq<AccountId>) -> bool {
        let l = self.listing_of(id);
        &&& self.resolves(id)
        &&& l.owner is Some
        &&& l.owner->Some_0 < owner_accounts.len()
        &&& ledger.resolves(owner_accounts[l.owner->Some_0 as int])
    }

    /// Takes the pending listing `id` out of the queue, keeping the order of
    /// the others; returns its place, or nothing when no listing with that id
    /// is pending (and then nothing changes).
    fn withdraw_pending(&mut self, id: u64) -> (r: Option<usize>)
        requires
            old(self).wf(),
        ensures
            final(self).wf(),
            final(self).active() == old(self).active(),
            final(self).next_listing_id() == old(self).next_listing_id(),
            match r {
                Some(i) => i < old(self).pending().len() && old(self).pending()[i as int].id == id
                    && final(self).pending() == old(self).pending().remove(i as int),
                None => !old(self).is_pending(id) && *final(self) == *old(self),
            },
    {
        let mut i: usize = 0;
        while i < self.listing_queue.len()
            invariant
                self.wf(),
                i <= self.pending().len(),
                forall|j: int| 0 <= j < i ==> (#[trigger] self.pending()[j]).id != id,
                *self == *old(self),
            decreases self.pending().len() - i,
        {
            if self.listing_queue[i].id == id {
                let ghost q0 = self.pending();
                self.listing_queue.remove(i);
                proof {
                    q0.remove_ensures(i as int);
                    assert forall|a: int| 0 <= a < self.pending().len() implies (#[trigger] self.pending()[a]).id < self.next_id
                        && !self.active().contains_key(self.pending()[a].id) by {
                        let oa = if a < i { a } else { a + 1 };
                        assert(self.pending()[a] == q0[oa]);
                    }
                    assert forall|a: int, b: int|
                        0 <= a < self.pending().len() && 0 <= b < self.pending().len() && a != b
                        implies #[trigger] self.pending()[a].id != #[trigger] self.pending()[b].id by {
                        let oa = if a < i { a } else { a + 1 };
                        let ob = if b < i { b } else { b + 1 };
                        assert(self.pending()[a] == q0[oa]);
                        assert(self.pending()[b] == q0[ob]);
                    }
                    assert(self.ids_wf());
                    assert(self.kinds_wf());
                    assert(self.owners_wf());
                }
                return Some(i);
            }
            i = i + 1;
        }
        None
    }

    /// Buys listing `id`, pending or active, for the account `buyer`. The
    /// listing's owner is an actor id, and `owner_accounts` gives each
    /// actor's account by id. Fails, changing nothing, when the handle does
    /// not resolve, the listing has no owner, its owner has no entry in
    /// `owner_accounts`, or that entry names no account of the ledger.
    /// Otherwise the price is settled through the ledger (the buyer pays a
    /// price that is not negative; the seller pays the buyer the amount of a
    /// negative one) and the listing leaves the market, queue and indexes
    /// alike, whether or not the ledger accepted the transfer.
    pub fn buy_listing(&mut self, id: u64, buyer: AccountId, owner_accounts: &Vec<AccountId>, ledger: &mut Ledger) -> (r: bool)
        requires
            old(self).wf(),
            old(ledger).wf(),
        ensures
            final(self).wf(),
            final(ledger).wf(),
            r == old(self).can_buy(&*old(ledger), id, owner_accounts@),
            !r ==> *final(self) == *old(self) && *final(ledger) == *old(ledger),
            r ==> withdrawn(&*old(self), &*final(self), id),
            r ==> settled(&*old(ledger), &*final(ledger), old(self).listing_of(id), buyer, owner_accounts@),
    {
        let (owner, price) = match self.find_listing(id) {
            Some(l) => (l.owner, l.price),
            None => {
                return false;
            },
        };
        let owner = match owner {
            Some(o) => o,
            None => {
                return false;
            },
        };
        if owner >= owner_accounts.len() as u64 {
            return false;
        }
        let seller = owner_accounts[owner as usize];
        if !ledger.has_account(seller) {
            return false;
        }
        if price >= 0 {
            ledger.process_transaction(buyer, seller, price as u64);
        } else {
            let amount: i128 = -(price as i128);
            ledger.process_transaction(seller, buyer, amount as u64);
        }
        if self.listings_by_id.contains_key(&id) {
            self.unlist_item(id);
            proof {
                assert(!self.is_pending(id)) by {
                    if self.is_pending(id) {
                        let i = choose|i: int| 0 <= i < self.pending().len() && #[trigger] self.pending()[i].id == id;
                        assert(old(self).pending()[i].id == id);
                    }
                }
            }
        } else {
            let ghost before = *self;
            let place = self.withdraw_pending(id);
            proof {
                assert(before == *old(self));
                assert(old(self).is_pending(id));
                let i = place->Some_0 as int;
                before.pending().remove_ensures(i);
                assert(old(self).pending()[i].id == id);
                assert(old(self).active().remove(id) =~= old(self).active());
                assert(!self.is_pending(id)) by {
                    if self.is_pending(id) {
                        let j = choose|j: int| 0 <= j < self.pending().len() && #[trigger] self.pending()[j].id == id;
                        let oj = if j < i { j } else { j + 1 };
                        assert(self.pending()[j] == before.pending()[oj]);
                    }
                }
            }
        }
        true
    }

    /// How many more listings can get an id.
    pub fn remaining_ids(&self) -> (r: u64)
        ensures
            r == u64::MAX - self.next_listing_id(),
    {
        u64::MAX - self.next_id
    }

    /// A copy of the listing that `id` names, pending or active.
    pub fn find_listing(&self, id: u64) -> (r: Option<Listing>)
        requires
            self.wf(),
        ensures
            r is Some <==> self.resolves(id),
            r is Some ==> r->Some_0 == self.listing_of(id),
    {
        match self.listings_by_id.get(&id) {
            Some(l) => {
                return Some(l.duplicate());
            },
            None => {},
        }
        let mut i: usize = 0;
        while i < self.listing_queue.len()
            invariant
                self.wf(),
                i <= self.pending().len(),
                forall|j: int| 0 <= j < i ==> (#[trigger] self.pending()[j]).id != id,
                !self.active().contains_key(id),
            decreases self.pending().len() - i,
        {
            if self.listing_queue[i].id == id {
                proof {
                    let c = choose|k: int| 0 <= k < self.pending().len() && #[trigger] self.pending()[k].id == id;
                    if c != i as int {
                        assert(self.ids_wf());
                        assert(self.pending()[c].id != self.pending()[i as int].id);
                    }
                }
                return Some(self.listing_queue[i].duplicate());
            }
            i = i + 1;
        }
        None
    }
}

/// `later` keeps the pending listings of `earlier` in place and has added
/// only listings with newer ids after them.
pub open spec fn pending_grown(earlier: &Market, later: &Market) -> bool {
    &&& earlier.next_listing_id() <= later.next_listing_id()
    &&& earlier.pending().len() <= later.pending().len()
    &&& later.pending().subrange(0, earlier.pending().len() as int) == earlier.pending()
    &&& forall|i: int| earlier.pending().len() <= i < later.pending().len()
        ==> (#[trigger] later.pending()[i]).id >= earlier.next_listing_id()
}

/// `after` is `before` with every pending listing made active: nothing
/// waits any more, the active listings are the old active ones and the
/// formerly pending ones, and ids go on from where they were.
pub open spec fn committed(before: &Market, after: &Market) -> bool {
    &&& after.pending().len() == 0
    &&& after.next_listing_id() == before.next_listing_id()
    &&& forall|id: u64| #[trigger] after.active().contains_key(id) <==> before.resolves(id)
    &&& forall|id: u64| #[trigger] before.active().contains_key(id) ==> after.active()[id] == before.active()[id]
    &&& forall|i: int| 0 <= i < before.pending().len()
        ==> after.active()[#[trigger] before.pending()[i].id] == before.pending()[i]
}

pub proof fn lemma_pending_grown_refl(m: &Market)
    ensures
        pending_grown(m, m),
{
    assert(m.pending().subrange(0, m.pending().len() as int) =~= m.pending());
}

pub proof fn lemma_pending_grown_trans(a: &Market, b: &Market, c: &Market)
    requires
        pending_grown(a, b),
        pending_grown(b, c),
    ensures
        pending_grown(a, c),
{
    assert(c.pending().subrange(0, a.pending().len() as int) =~= b.pending().subrange(0, a.pending().len() as int)) by {
        assert forall|i: int| 0 <= i < a.pending().len() implies c.pending()[i] == b.pending()[i] by {
            assert(c.pending().subrange(0, b.pending().len() as int)[i] == c.pending()[i]);
        }
    }
    assert forall|i: int| a.pending().len() <= i < c.pending().len()
        implies (#[trigger] c.pending()[i]).id >= a.next_listing_id() by {
        if i < b.pending().len() {
            assert(c.pending().subrange(0, b.pending().len() as int)[i] == c.pending()[i]);
            assert(b.pending()[i].id >= a.next_listing_id());
        }
    }
}

/// Listing `id` has left `after`: it is neither active nor pending, the
/// other active listings stay, an active listing leaves the queue as it was,
/// and a pending one is taken out of it with the others kept in order.
pub open spec fn withdrawn(before: &Market, after: &Market, id: u64) -> bool {
    &&& after.active() == before.active().remove(id)
    &&& after.next_listing_id() == before.next_listing_id()
    &&& !after.resolves(id)
    &&& before.active().contains_key(id) ==> after.pending() == before.pending()
    &&& !before.active().contains_key(id) ==> exists|i: int|
        0 <= i < before.pending().len() && #[trigger] before.pending()[i].id == id
            && after.pending() == before.pending().remove(i)
}

/// How the ledger settles the purchase of listing `l` by `buyer`: the buyer
/// pays a price that is not negative to the owner's account, and the owner
/// pays the buyer the amount of a negative one.
pub open spec fn settled(before: &Ledger, after: &Ledger, l: Listing, buyer: AccountId, owner_accounts: Seq<AccountId>) -> bool {
    let seller = owner_accounts[l.owner->Some_0 as int];
    if l.price >= 0 {
        transfer_outcome(before, after, buyer, seller, l.price as u64)
    } else {
        transfer_outcome(before, after, seller, buyer, (-l.price) as u64)
    }
}

/// A listing is not seen by kind queries before the tick after it was
/// listed, and is seen by them after that tick: `before` is the market right
/// after `list_item` returned `id`, `after` the market after the next tick.
pub proof fn lemma_listing_visible_after_tick(before: &Market, after: &Market, id: u64, kind: Seq<char>)
    requires
        before.is_pending(id),
        !before.active().contains_key(id),
        forall|i: int| 0 <= i < before.pending().len() && #[trigger] before.pending()[i].id == id
            ==> before.pending()[i].item.kind@ == kind,
        forall|x: u64| #[trigger] after.active().contains_key(x) <==> before.resolves(x),
        forall|i: int| 0 <= i < before.pending().len()
            ==> after.active()[#[trigger] before.pending()[i].id] == before.pending()[i],
    ensures
        !before.active_of_kind(id, kind),
        after.active_of_kind(id, kind),
{
    let i = choose|i: int| 0 <= i < before.pending().len() && #[trigger] before.pending()[i].id == id;
    assert(after.active()[before.pending()[i].id] == before.pending()[i]);
}

/// Taking a listing off twice does no more than taking it off once, and
/// taking off one that was already bought does nothing: a market whose
/// active listings no longer hold `id` is left as it is.
pub proof fn lemma_unlist_idempotent(first: &Market, second: &Market, id: u64)
    requires
        !first.active().contains_key(id),
        second.active() == first.active().remove(id),
    ensures
        second.active() == first.active(),
{
    assert(first.active().remove(id) =~= first.active());
}

} // verus!
