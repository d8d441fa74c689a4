use vstd::prelude::*;

verus! {

/// The count that a kind has in a model of a store: absent kinds count zero.
pub open spec fn count_in(m: Map<Seq<char>, int>, kind: Seq<char>) -> int {
    if m.contains_key(kind) {
        m[kind]
    } else {
        0
    }
}

/// The model of a store after a kind's count is made `n`: a zero count is not kept.
pub open spec fn with_count(m: Map<Seq<char>, int>, kind: Seq<char>, n: int) -> Map<Seq<char>, int> {
    if n == 0 {
        m.remove(kind)
    } else {
        m.insert(kind, n)
    }
}

/// What `take` hands out of a count `c` when `n` units are asked for:
/// nothing from a zero count or for a negative request.
pub open spec fn taken_from(c: int, n: int) -> int {
    if c == 0 || n < 0 {
        0
    } else if n <= c {
        n
    } else {
        c
    }
}

/// Setting a count changes that kind's count alone.
pub proof fn lemma_with_count(m: Map<Seq<char>, int>, kind: Seq<char>, n: int, other: Seq<char>)
    ensures
        count_in(with_count(m, kind, n), other) == if other == kind {
            n
        } else {
            count_in(m, other)
        },
{
}

/// The model of a store after a run of changes, each of which makes one
/// kind's count a given value (what `add`, `set` and `take` each do).
pub open spec fn after_changes(m: Map<Seq<char>, int>, changes: Seq<(Seq<char>, int)>) -> Map<Seq<char>, int>
    decreases changes.len(),
{
    if changes.len() == 0 {
        m
    } else {
        with_count(after_changes(m, changes.drop_last()), changes.last().0, changes.last().1)
    }
}

/// A kind that a store does not hold counts zero, so the store does not have it.
pub proof fn lemma_absent_kind_is_zero(s: &Store, kind: Seq<char>)
    requires
        !s@.contains_key(kind),
    ensures
        s.count_spec(kind) == 0,
        !(s.count_spec(kind) >= 1),
{
}

/// Starting from an empty store (new or just cleared), a kind that no later
/// change names still counts zero, and the store does not have it.
pub proof fn lemma_untouched_kind_is_zero(changes: Seq<(Seq<char>, int)>, kind: Seq<char>)
    requires
        forall|i: int| 0 <= i < changes.len() ==> (#[trigger] changes[i]).0 != kind,
    ensures
        count_in(after_changes(Map::empty(), changes), kind) == 0,
        !(count_in(after_changes(Map::empty(), changes), kind) >= 1),
    decreases changes.len(),
{
    if changes.len() > 0 {
        let rest = changes.drop_last();
        assert forall|i: int| 0 <= i < rest.len() implies (#[trigger] rest[i]).0 != kind by {
            assert(rest[i] == changes[i]);
        }
        lemma_untouched_kind_is_zero(rest, kind);
        assert(changes[changes.len() - 1].0 != kind);
    }
}

/// Taking `n` from a non-negative count `c` hands out `min(n, c)` and leaves
/// `c - min(n, c)`, which is never negative.
pub proof fn lemma_take_is_min(m: Map<Seq<char>, int>, kind: Seq<char>, n: int)
    requires
        n >= 0,
        count_in(m, kind) >= 0,
    ensures
        taken_from(count_in(m, kind), n) == if n <= count_in(m, kind) {
            n
        } else {
            count_in(m, kind)
        },
        count_in(
            with_count(m, kind, count_in(m, kind) - taken_from(count_in(m, kind), n)),
            kind,
        ) == count_in(m, kind) - taken_from(count_in(m, kind), n) >= 0,
{
}

/// Adding `n` units of a kind and then taking `n` units of it hands out `n`
/// and brings its count back to where it was, when that count was not negative.
pub proof fn lemma_add_then_take(m: Map<Seq<char>, int>, kind: Seq<char>, n: int)
    requires
        n >= 0,
        count_in(m, kind) >= 0,
    ensures
        ({
            let added = with_count(m, kind, count_in(m, kind) + n);
            let r = taken_from(count_in(added, kind), n);
            &&& r == n
            &&& count_in(with_count(added, kind, count_in(added, kind) - r), kind) == count_in(m, kind)
            &&& forall|other: Seq<char>|
                #[trigger] count_in(with_count(added, kind, count_in(added, kind) - r), other) == count_in(m, other)
        }),
{
}

/// An inventory: a signed count for each item kind. Kinds never stored, or
/// brought back to zero, count zero and are not listed.
pub struct Store {
    items: Vec<(String, i64)>,
    model: Ghost<Map<Seq<char>, int>>,
}

impl View for Store {
    type V = Map<Seq<char>, int>;

    /// The nonzero counts, by kind.
    closed spec fn view(&self) -> Map<Seq<char>, int> {
        self.model@
    }
}

impl Store {
    pub closed spec fn wf(&self) -> bool {
        &&& forall|i: int|
            0 <= i < self.items@.len() ==> {
                &&& #[trigger] self.model@.contains_key(self.items@[i].0@)
                &&& self.model@[self.items@[i].0@] == self.items@[i].1 as int
                &&& self.items@[i].1 != 0
            }
        &&& forall|k: Seq<char>|
            #[trigger] self.model@.contains_key(k) ==> exists|i: int|
                0 <= i < self.items@.len() && #[trigger] self.items@[i].0@ == k
        &&& forall|i: int, j: int|
            0 <= i < self.items@.len() && 0 <= j < self.items@.len() && i != j
                ==> #[trigger] self.items@[i].0@ != #[trigger] self.items@[j].0@
    }

    /// The count of `kind`; zero when it is absent.
    pub open spec fn count_spec(&self, kind: Seq<char>) -> int {
        count_in(self@, kind)
    }

    /// Every count in the store fits a signed 64-bit counter.
    pub proof fn lemma_counts_fit(&self, kind: Seq<char>)
        requires
            self.wf(),
        ensures
            i64::MIN <= self.count_spec(kind) <= i64::MAX,
            self@.contains_key(kind) ==> self@[kind] != 0,
    {
        if self@.contains_key(kind) {
            let i = choose|i: int| 0 <= i < self.items@.len() && #[trigger] self.items@[i].0@ == kind;
            assert(self.model@.contains_key(self.items@[i].0@));
        }
    }

    /// An empty store.
    pub fn new() -> (s: Self)
        ensures
            s.wf(),
            s@ == Map::<Seq<char>, int>::empty(),
    {
        Store { items: Vec::new(), model: Ghost(Map::empty()) }
    }

    /// The position of `kind` among the entries, if it is stored.
    fn find(&self, kind: &str) -> (r: Option<usize>)
        requires
            self.wf(),
        ensures
            match r {
                Some(i) => i < self.items@.len() && self.items@[i as int].0@ == kind@
                    && self@.contains_key(kind@),
                None => !self@.contains_key(kind@),
            },
    {
        let key = kind.to_string();
        let mut i: usize = 0;
        while i < self.items.len()
            invariant
                self.wf(),
                key@ == kind@,
                i <= self.items@.len(),
                forall|j: int| 0 <= j < i ==> self.items@[j].0@ != kind@,
            decreases self.items@.len() - i,
        {
            if self.items[i].0 == key {
                assert(self.model@.contains_key(self.items@[i as int].0@));
                return Some(i);
            }
            i = i + 1;
        }
        None
    }

    /// Makes the count of `kind` equal to `n`, dropping the entry when `n` is zero.
    fn put(&mut self, kind: &str, n: i64)
        requires
            old(self).wf(),
        ensures
            final(self).wf(),
            final(self)@ == with_count(old(self)@, kind@, n as int),
    {
        let ghost old_model = self.model@;
        match self.find(kind) {
            Some(i) => {
                if n == 0 {
                    let ghost old_items = self.items@;
                    self.items.swap_remove(i);
                    self.model = Ghost(old_model.remove(kind@));
                    assert forall|j: int| 0 <= j < self.items@.len() implies {
                        &&& #[trigger] self.model@.contains_key(self.items@[j].0@)
                        &&& self.model@[self.items@[j].0@] == self.items@[j].1 as int
                        &&& self.items@[j].1 != 0
                    } by {
                        let oj = if j == i as int { old_items.len() - 1 } else { j };
                        assert(self.items@[j] == old_items[oj]);
                        assert(old(self).model@.contains_key(old(self).items@[oj].0@));
                        assert(old_items[oj].0@ != old_items[i as int].0@);
                    }
                    assert forall|a: int, b: int|
                        0 <= a < self.items@.len() && 0 <= b < self.items@.len() && a != b
                        implies #[trigger] self.items@[a].0@ != #[trigger] self.items@[b].0@ by {
                        let oa = if a == i as int { old_items.len() - 1 } else { a };
                        let ob = if b == i as int { old_items.len() - 1 } else { b };
                        assert(self.items@[a] == old_items[oa]);
                        assert(self.items@[b] == old_items[ob]);
                    }
                    assert forall|k: Seq<char>| #[trigger] self.model@.contains_key(k) implies exists|j: int|
                        0 <= j < self.items@.len() && #[trigger] self.items@[j].0@ == k by {
                        let j0 = choose|j: int| 0 <= j < old(self).items@.len() && #[trigger] old(self).items@[j].0@ == k;
                        if j0 == old(self).items@.len() - 1 {
                            assert(self.items@[i as int].0@ == k);
                        } else {
                            assert(self.items@[j0].0@ == k);
                        }
                    }
                    assert(self.wf());
                } else {
                    let key = self.items[i].0.clone();
                    self.items.set(i, (key, n));
                    self.model = Ghost(old_model.insert(kind@, n as int));
                    assert forall|k: Seq<char>| #[trigger] self.model@.contains_key(k) implies exists|j: int|
                        0 <= j < self.items@.len() && #[trigger] self.items@[j].0@ == k by {
                        if k != kind@ {
                            let j0 = choose|j: int| 0 <= j < old(self).items@.len() && #[trigger] old(self).items@[j].0@ == k;
                            assert(self.items@[j0].0@ == k);
                        } else {
                            assert(self.items@[i as int].0@ == k);
                        }
                    }
                    assert forall|j: int| 0 <= j < self.items@.len() implies {
                        &&& #[trigger] self.model@.contains_key(self.items@[j].0@)
                        &&& self.model@[self.items@[j].0@] == self.items@[j].1 as int
                        &&& self.items@[j].1 != 0
                    } by {
                        if j != i as int {
                            assert(self.items@[j] == old(self).items@[j]);
                            assert(old(self).model@.contains_key(old(self).items@[j].0@));
                            assert(old(self).items@[j].0@ != old(self).items@[i as int].0@);
                        }
                    }
                    assert forall|a: int, b: int|
                        0 <= a < self.items@.len() && 0 <= b < self.items@.len() && a != b
                        implies #[trigger] self.items@[a].0@ != #[trigger] self.items@[b].0@ by {
                        assert(old(self).items@[a].0@ != old(self).items@[b].0@);
                    }
                }
            },
            None => {
                if n != 0 {
                    self.items.push((kind.to_string(), n));
                    self.model = Ghost(old_model.insert(kind@, n as int));
                    assert forall|k: Seq<char>| #[trigger] self.model@.contains_key(k) implies exists|j: int|
                        0 <= j < self.items@.len() && #[trigger] self.items@[j].0@ == k by {
                        if k != kind@ {
                            let j0 = choose|j: int| 0 <= j < old(self).items@.len() && #[trigger] old(self).items@[j].0@ == k;
                            assert(self.items@[j0].0@ == k);
                        } else {
                            assert(self.items@[self.items@.len() - 1].0@ == k);
                        }
                    }
                    assert(self.wf());
                } else {
                    assert(with_count(old_model, kind@, 0) =~= old_model);
                }
            },
        }
    }

    /// True when the store holds at least one unit of `kind`.
    pub fn has(&self, kind: &str) -> (r: bool)
        requires
            self.wf(),
        ensures
            r == (self.count_spec(kind@) >= 1),
    {
        self.count(kind) >= 1
    }

    /// True when the store holds at least `n` of `kind`.
    pub fn has_count(&self, kind: &str, n: i64) -> (r: bool)
        requires
            self.wf(),
        ensures
            r == (self.count_spec(kind@) >= n),
    {
        self.count(kind) >= n
    }

    /// The count of `kind`; zero when nothing of it was ever stored.
    pub fn count(&self, kind: &str) -> (r: i64)
        requires
            self.wf(),
        ensures
            r as int == self.count_spec(kind@),
    {
        match self.find(kind) {
            Some(i) => {
                assert(self.model@.contains_key(self.items@[i as int].0@));
                self.items[i].1
            },
            None => 0,
        }
    }

    /// Adds `n` (which may be negative) to the count of `kind`.
    pub fn add(&mut self, kind: &str, n: i64)
        requires
            old(self).wf(),
            i64::MIN <= old(self).count_spec(kind@) + n <= i64::MAX,
        ensures
            final(self).wf(),
            final(self)@ == with_count(old(self)@, kind@, old(self).count_spec(kind@) + n),
    {
        let c = self.count(kind);
        self.put(kind, c + n);
    }

    /// Sets the count of `kind` to `n`.
    pub fn set(&mut self, kind: &str, n: i64)
        requires
            old(self).wf(),
        ensures
            final(self).wf(),
            final(self)@ == with_count(old(self)@, kind@, n as int),
    {
        self.put(kind, n);
    }

    /// Takes up to `n` units of `kind` out of the store and returns how many
    /// were taken: nothing when the count is zero or `n` is negative, else
    /// the smaller of `n` and the count.
    pub fn take(&mut self, kind: &str, n: i64) -> (r: i64)
        requires
            old(self).wf(),
        ensures
            final(self).wf(),
            r as int == taken_from(old(self).count_spec(kind@), n as int),
            final(self)@ == with_count(old(self)@, kind@, old(self).count_spec(kind@) - r),
    {
        let c = self.count(kind);
        if c == 0 || n < 0 {
            proof {
                self.lemma_counts_fit(kind@);
                assert(with_count(old(self)@, kind@, c as int) =~= old(self)@);
            }
            return 0;
        }
        let r = if n <= c { n } else { c };
        self.put(kind, c - r);
        r
    }

    /// Removes every count.
    pub fn clear(&mut self)
        requires
            old(self).wf(),
        ensures
            final(self).wf(),
            final(self)@ == Map::<Seq<char>, int>::empty(),
    {
        self.items.clear();
        self.model = Ghost(Map::empty());
    }

    /// The kinds with a nonzero count, each once.
    pub fn get_item_kinds(&self) -> (r: Vec<String>)
        requires
            self.wf(),
        ensures
            r@.len() == self@.dom().len(),
            forall|k: Seq<char>| self@.contains_key(k) <==> exists|i: int|
                0 <= i < r@.len() && #[trigger] r@[i]@ == k,
            forall|i: int, j: int|
                0 <= i < r@.len() && 0 <= j < r@.len() && i != j ==> #[trigger] r@[i]@ != #[trigger] r@[j]@,
    {
        let mut r: Vec<String> = Vec::new();
        let mut i: usize = 0;
        while i < self.items.len()
            invariant
                self.wf(),
                i <= self.items@.len(),
                r@.len() == i,
                forall|j: int| 0 <= j < i ==> #[trigger] r@[j]@ == self.items@[j].0@,
            decreases self.items@.len() - i,
        {
            r.push(self.items[i].0.clone());
            i = i + 1;
        }
        proof {
            self.lemma_dom_len();
            assert forall|k: Seq<char>| self@.contains_key(k) implies exists|i: int|
                0 <= i < r@.len() && #[trigger] r@[i]@ == k by {
                let j = choose|j: int| 0 <= j < self.items@.len() && #[trigger] self.items@[j].0@ == k;
                assert(r@[j]@ == k);
            }
            assert forall|a: int, b: int|
                0 <= a < r@.len() && 0 <= b < r@.len() && a != b
                implies #[trigger] r@[a]@ != #[trigger] r@[b]@ by {
                assert(self.items@[a].0@ != self.items@[b].0@);
            }
            assert forall|k: Seq<char>| (exists|i: int| 0 <= i < r@.len() && #[trigger] r@[i]@ == k)
                implies self@.contains_key(k) by {
                let j = choose|j: int| 0 <= j < r@.len() && #[trigger] r@[j]@ == k;
                assert(self.model@.contains_key(self.items@[j].0@));
            }
        }
        r
    }

    /// The number of kinds stored equals the number of entries.
    proof fn lemma_dom_len(&self)
        requires
            self.wf(),
        ensures
            self@.dom().len() == self.items@.len(),
            self@.dom().finite(),
    {
        let keys = self.items@.map_values(|e: (String, i64)| e.0@);
        assert forall|a: int, b: int| 0 <= a < keys.len() && 0 <= b < keys.len() && a != b
            implies keys[a] != keys[b] by {
            assert(self.items@[a].0@ != self.items@[b].0@);
        }
        assert(keys.no_duplicates());
        assert forall|k: Seq<char>| #[trigger] self@.dom().contains(k) <==> keys.to_set().contains(k) by {
            if self@.dom().contains(k) {
                let j = choose|j: int| 0 <= j < self.items@.len() && #[trigger] self.items@[j].0@ == k;
                assert(keys[j] == k);
            }
            if keys.to_set().contains(k) {
                let j = choose|j: int| 0 <= j < keys.len() && keys[j] == k;
                assert(self.model@.contains_key(self.items@[j].0@));
            }
        }
        assert(self@.dom() =~= keys.to_set());
        keys.unique_seq_to_set();
    }
}

} // verus!
