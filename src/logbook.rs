use std::collections::VecDeque;
use vstd::prelude::*;

verus! {

/// How many entries a log book keeps.
pub const LOG_CAPACITY: usize = 10;

/// A bounded log: the most recent entries first; once it is full, each new
/// entry evicts the oldest.
pub struct LogBook {
    entries: VecDeque<String>,
}

impl View for LogBook {
    type V = Seq<Seq<char>>;

    /// The entries, newest first.
    closed spec fn view(&self) -> Seq<Seq<char>> {
        self.entries@.map_values(|e: String| e@)
    }
}

/// The entries of a log after `entry` is added to `entries`.
pub open spec fn logged(entries: Seq<Seq<char>>, entry: Seq<char>) -> Seq<Seq<char>> {
    let all = seq![entry] + entries;
    if all.len() > LOG_CAPACITY {
        all.take(LOG_CAPACITY as int)
    } else {
        all
    }
}

impl LogBook {
    pub closed spec fn wf(&self) -> bool {
        self.entries@.len() <= LOG_CAPACITY
    }

    /// An empty log book.
    pub fn new() -> (r: LogBook)
        ensures
            r.wf(),
            r@ == Seq::<Seq<char>>::empty(),
    {
        let r = LogBook { entries: VecDeque::new() };
        assert(r@ =~= Seq::<Seq<char>>::empty());
        r
    }

    /// Adds `entry` as the newest entry, evicting the oldest when full.
    pub fn add_entry(&mut self, entry: &str)
        requires
            old(self).wf(),
        ensures
            final(self).wf(),
            final(self)@ == logged(old(self)@, entry@),
    {
        self.entries.push_front(entry.to_string());
        if self.entries.len() > LOG_CAPACITY {
            self.entries.pop_back();
        }
        assert(self@ =~= logged(old(self)@, entry@));
    }

    /// The entries, newest first.
    pub fn get_entries(&self) -> (r: Vec<String>)
        requires
            self.wf(),
        ensures
            r@.map_values(|e: String| e@) == self@,
    {
        let mut r: Vec<String> = Vec::new();
        let mut i: usize = 0;
        while i < self.entries.len()
            invariant
                i <= self.entries@.len(),
                r@.len() == i,
                forall|j: int| 0 <= j < i ==> (#[trigger] r@[j])@ == self.entries@[j]@,
            decreases self.entries@.len() - i,
        {
            r.push(self.entries[i].clone());
            i = i + 1;
        }
        assert(r@.map_values(|e: String| e@) =~= self@);
        r
    }
}

impl Default for LogBook {
    fn default() -> (r: LogBook)
        ensures
            r.wf(),
            r@ == Seq::<Seq<char>>::empty(),
    {
        LogBook::new()
    }
}

} // verus!
