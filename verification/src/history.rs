//! The feedback history: an append-only record of like/dislike signals,
//! keyed by item index. Each index appears at most once; scoring and
//! recommendation take a read-only view of it.

use vstd::prelude::*;

verus! {

/// One recorded decision, as the session layer keeps it: the shown name,
/// its index in the item list, and whether it was liked.
pub struct Choice {
    pub name: String,
    pub index: usize,
    pub liked: bool,
}

/// The history holds the index `idx` as a key.
pub open spec fn history_contains(h: Seq<(usize, bool)>, idx: int) -> bool {
    exists|k: int| 0 <= k < h.len() && h[k].0 == idx
}

/// No index appears twice.
pub open spec fn unique_keys(h: Seq<(usize, bool)>) -> bool {
    forall|k: int, l: int| 0 <= k < l < h.len() ==> h[k].0 != h[l].0
}

/// The accumulated feedback: pairs of item index and liked flag, in the
/// order they were recorded.
pub struct History {
    entries: Vec<(usize, bool)>,
}

impl View for History {
    type V = Seq<(usize, bool)>;

    closed spec fn view(&self) -> Seq<(usize, bool)> {
        self.entries@
    }
}

impl History {
    /// An empty history: no feedback yet.
    pub fn new() -> (h: History)
        ensures
            h@.len() == 0,
    {
        History { entries: Vec::new() }
    }

    /// How many decisions were recorded.
    pub fn len(&self) -> (n: usize)
        ensures
            n == self@.len(),
    {
        self.entries.len()
    }

    /// The decision recorded at position `k`, oldest first.
    pub fn entry(&self, k: usize) -> (e: (usize, bool))
        requires
            k < self@.len(),
        ensures
            e == self@[k as int],
    {
        let e = self.entries[k];
        (e.0, e.1)
    }

    /// Whether `idx` already has recorded feedback.
    pub fn contains(&self, idx: usize) -> (r: bool)
        ensures
            r == history_contains(self@, idx as int),
    {
        let n = self.entries.len();
        let mut k: usize = 0;
        while k < n
            invariant
                k <= n,
                n == self@.len(),
                forall|l: int| 0 <= l < k ==> self@[l].0 != idx,
            decreases n - k,
        {
            if self.entries[k].0 == idx {
                return true;
            }
            k = k + 1;
        }
        false
    }

    /// Records feedback for an index that has none yet. Feedback is
    /// write-once per index: overwriting is the caller's contract violation.
    pub fn push(&mut self, index: usize, liked: bool)
        requires
            !history_contains(old(self)@, index as int),
        ensures
            final(self)@ == old(self)@.push((index, liked)),
    {
        self.entries.push((index, liked));
    }
}

/// The index of the first name equal to `name` in the item list, used to
/// re-attach saved feedback to the current list; `None` when the saved
/// name no longer appears.
pub fn index_of_name(names: &[String], name: &String) -> (r: Option<usize>)
    ensures
        match r {
            Some(i) => {
                &&& i < names@.len()
                &&& names@[i as int]@ == name@
                &&& forall|j: int| 0 <= j < i ==> names@[j]@ != name@
            },
            None => forall|j: int| 0 <= j < names@.len() ==> names@[j]@ != name@,
        },
{
    let n = names.len();
    let mut k: usize = 0;
    while k < n
        invariant
            k <= n,
            n == names@.len(),
            forall|j: int| 0 <= j < k ==> names@[j]@ != name@,
        decreases n - k,
    {
        if names[k] == *name {
            return Some(k);
        }
        k = k + 1;
    }
    None
}

/// Recording a fresh index keeps every index unique.
pub proof fn lemma_push_keeps_unique(h: Seq<(usize, bool)>, index: usize, liked: bool)
    requires
        unique_keys(h),
        !history_contains(h, index as int),
    ensures
        unique_keys(h.push((index, liked))),
{
    let pushed = h.push((index, liked));
    assert forall|k: int, l: int| 0 <= k < l < pushed.len() implies pushed[k].0 != pushed[l].0 by {
        if l < h.len() {
            assert(h[k].0 != h[l].0);
        } else {
            assert(!(0 <= k < h.len() && h[k].0 == index));
        }
    }
}

} // verus!
