//! Debounced analysis: a document is analyzed a moment after its last
//! change, and only while it is still at the version that was scheduled.
use vstd::prelude::*;

use crate::session::Documents;

verus! {

/// An analysis due at a point in time (in milliseconds on the caller's clock).
#[derive(Debug, Clone, PartialEq, Eq)]
pub struct PendingAnalysis {
    pub uri: String,
    pub version: i32,
    pub due: u64,
}

/// The scheduled analyses, at most one per address.
#[derive(Debug)]
pub struct PendingAnalyses {
    entries: Vec<PendingAnalysis>,
}

/// The position of the analysis scheduled for `uri`.
pub open spec fn find_pending(entries: Seq<PendingAnalysis>, uri: Seq<char>) -> Option<int> {
    if exists|i: int| 0 <= i < entries.len() && #[trigger] entries[i].uri@ == uri {
        Some(choose|i: int| 0 <= i < entries.len() && #[trigger] entries[i].uri@ == uri)
    } else {
        None
    }
}

impl PendingAnalyses {
    /// The scheduled analyses, oldest first.
    pub closed spec fn view(self) -> Seq<PendingAnalysis> {
        self.entries@
    }

    /// No address is scheduled twice.
    pub closed spec fn wf(self) -> bool {
        forall|i: int, j: int|
            0 <= i < j < self.entries@.len() ==> #[trigger] self.entries@[i].uri@ != #[trigger] self.entries@[j].uri@
    }

    /// The analysis scheduled for `uri`, if any.
    pub open spec fn scheduled(self, uri: Seq<char>) -> Option<PendingAnalysis> {
        match find_pending(self@, uri) {
            Some(i) => Some(self@[i]),
            None => None,
        }
    }

    pub fn new() -> (r: Self)
        ensures
            r.wf(),
            r@.len() == 0,
    {
        PendingAnalyses { entries: Vec::new() }
    }

    fn position(&self, uri: &String) -> (r: Option<usize>)
        ensures
            match r {
                Some(i) => i < self@.len() && self@[i as int].uri@ == uri@,
                None => forall|i: int| 0 <= i < self@.len() ==> #[trigger] self@[i].uri@ != uri@,
            },
    {
        let mut i: usize = 0;
        while i < self.entries.len()
            invariant
                i <= self.entries@.len(),
                forall|k: int| 0 <= k < i ==> #[trigger] self.entries@[k].uri@ != uri@,
            decreases self.entries@.len() - i,
        {
            if crate::text::str_eq(self.entries[i].uri.as_str(), uri.as_str()) {
                return Some(i);
            }
            i = i + 1;
        }
        None
    }

    /// Schedules an analysis of `uri` at `version`, due at `due`; it
    /// replaces one scheduled before.
    pub fn schedule(&mut self, uri: String, version: i32, due: u64)
        requires
            old(self).wf(),
        ensures
            final(self).wf(),
            final(self).scheduled(uri@) == Some(PendingAnalysis { uri, version, due }),
            forall|u: Seq<char>| u != uri@ ==> #[trigger] final(self).scheduled(u) == old(self).scheduled(u),
    {
        let ghost key = uri@;
        let ghost before = self.entries@;
        let entry = PendingAnalysis { uri, version, due };
        let ghost placed = entry;
        let ghost mut p: int = 0;
        match self.position(&entry.uri) {
            Some(i) => {
                self.entries.set(i, entry);
                proof {
                    p = i as int;
                }
            },
            None => {
                self.entries.push(entry);
                proof {
                    p = before.len() as int;
                }
            },
        }
        proof {
            let now = self.entries@;
            assert forall|a: int, b: int| 0 <= a < b < now.len() implies #[trigger] now[a].uri@ != #[trigger] now[b].uri@ by {
                if a < before.len() && b < before.len() {
                    if now[a].uri@ == key || now[b].uri@ == key {
                        assert(before[a].uri@ == now[a].uri@ || before[b].uri@ == now[b].uri@ || a == b);
                    }
                }
            }
            assert forall|u: Seq<char>| u != key implies #[trigger] self.scheduled(u) == old(self).scheduled(u) by {
                if let Some(j) = find_pending(before, u) {
                    assert(now[j].uri@ == u);
                    assert(now[j] == before[j]);
                }
                if let Some(j) = find_pending(now, u) {
                    assert(now[j] == before[j]);
                    assert(before[j].uri@ == u);
                }
            }
            assert(now[p] == placed);
            assert(now[p].uri@ == key);
            let i = choose|i: int| 0 <= i < now.len() && #[trigger] now[i].uri@ == key;
            assert(now[i].uri@ == key);
            assert(i == p);
        }
    }
}


impl PendingAnalyses {
    /// Drops the analysis scheduled for `uri`, if any.
    pub fn cancel(&mut self, uri: &String)
        requires
            old(self).wf(),
        ensures
            final(self).wf(),
            final(self).scheduled(uri@) is None,
            forall|u: Seq<char>| u != uri@ ==> #[trigger] final(self).scheduled(u) == old(self).scheduled(u),
    {
        let ghost before = self.entries@;
        if let Some(i) = self.position(uri) {
            self.entries.remove(i);
            proof {
                let now = self.entries@;
                assert forall|k: int| 0 <= k < now.len() implies now[k] == before[if k < i { k } else { k + 1 }] by {}
                assert forall|a: int, b: int| 0 <= a < b < now.len() implies #[trigger] now[a].uri@ != #[trigger] now[b].uri@ by {
                    let a2 = if a < i { a } else { a + 1 };
                    let b2 = if b < i { b } else { b + 1 };
                    assert(now[a] == before[a2]);
                    assert(now[b] == before[b2]);
                }
                assert forall|k: int| 0 <= k < now.len() implies #[trigger] now[k].uri@ != uri@ by {
                    let k2 = if k < i { k } else { k + 1 };
                    assert(now[k] == before[k2]);
                }
                assert forall|u: Seq<char>| u != uri@ implies #[trigger] self.scheduled(u) == old(self).scheduled(u) by {
                    if let Some(j) = find_pending(before, u) {
                        let j2 = if j < i { j } else { j - 1 };
                        assert(now[j2] == before[j]);
                    }
                    if let Some(j) = find_pending(now, u) {
                        let j2 = if j < i { j } else { j + 1 };
                        assert(now[j] == before[j2]);
                    }
                }
            }
        }
    }

    /// Removes and returns the analyses due at `now`, in the order they were
    /// scheduled; the others stay.
    pub fn take_due(&mut self, now: u64) -> (r: Vec<PendingAnalysis>)
        requires
            old(self).wf(),
        ensures
            final(self).wf(),
            r@ == old(self)@.filter(|p: PendingAnalysis| p.due <= now),
            final(self)@ == old(self)@.filter(|p: PendingAnalysis| p.due > now),
    {
        let ghost all = self.entries@;
        let ghost due_pred = |p: PendingAnalysis| p.due <= now;
        let ghost rest_pred = |p: PendingAnalysis| p.due > now;
        let mut due: Vec<PendingAnalysis> = Vec::new();
        let mut rest: Vec<PendingAnalysis> = Vec::new();
        let mut i: usize = 0;
        while i < self.entries.len()
            invariant
                all == self.entries@,
                forall|a: int, b: int| 0 <= a < b < all.len() ==> #[trigger] all[a].uri@ != #[trigger] all[b].uri@,
                due_pred == (|p: PendingAnalysis| p.due <= now),
                rest_pred == (|p: PendingAnalysis| p.due > now),
                i <= all.len(),
                due@ == all.subrange(0, i as int).filter(due_pred),
                rest@ == all.subrange(0, i as int).filter(rest_pred),
                forall|k: int| 0 <= k < rest@.len() ==> exists|j: int| 0 <= j < i && #[trigger] rest@[k] == all[j],
                forall|a: int, b: int| 0 <= a < b < rest@.len() ==> #[trigger] rest@[a].uri@ != #[trigger] rest@[b].uri@,
            decreases all.len() - i,
        {
            proof {
                reveal_with_fuel(Seq::<_>::filter, 1);
                assert(all.subrange(0, i + 1).drop_last() =~= all.subrange(0, i as int));
            }
            let e = &self.entries[i];
            let p = PendingAnalysis { uri: e.uri.clone(), version: e.version, due: e.due };
            if p.due <= now {
                due.push(p);
            } else {
                proof {
                    assert forall|k: int| 0 <= k < rest@.len() implies #[trigger] rest@[k].uri@ != all[i as int].uri@ by {
                        let j = choose|j: int| 0 <= j < i && #[trigger] rest@[k] == all[j];
                        assert(all[j].uri@ != all[i as int].uri@);
                    }
                }
                rest.push(p);
                proof {
                    assert forall|k: int| 0 <= k < rest@.len() implies exists|j: int| 0 <= j < i + 1 && #[trigger] rest@[k] == all[j] by {
                        if k + 1 == rest@.len() {
                            assert(rest@[k] == all[i as int]);
                        } else {
                            let j = choose|j: int| 0 <= j < i && #[trigger] rest@[k] == all[j];
                            assert(rest@[k] == all[j]);
                        }
                    }
                }
            }
            i = i + 1;
        }
        proof {
            assert(all.subrange(0, i as int) =~= all);
        }
        self.entries = rest;
        due
    }
}


/// The scheduled analyses that are due and whose document is still open at
/// the scheduled version.
pub open spec fn publishable(documents: Documents, due: Seq<PendingAnalysis>) -> Seq<PendingAnalysis> {
    due.filter(|p: PendingAnalysis| documents.lookup(p.uri@) matches Some(d) && d.version == p.version)
}

/// Takes the analyses due at `now` and returns the addresses of those to
/// analyze and publish: an analysis scheduled for a version that is no
/// longer the open one is dropped, so results of an older version are never
/// published.
pub fn due_analyses(pending: &mut PendingAnalyses, documents: &Documents, now: u64) -> (r: Vec<PendingAnalysis>)
    requires
        old(pending).wf(),
    ensures
        final(pending).wf(),
        final(pending)@ == old(pending)@.filter(|p: PendingAnalysis| p.due > now),
        r@ == publishable(*documents, old(pending)@.filter(|p: PendingAnalysis| p.due <= now)),
        forall|i: int|
            0 <= i < r@.len() ==> (#[trigger] documents.lookup(r@[i].uri@) matches Some(d) && d.version == r@[i].version),
{
    let due = pending.take_due(now);
    let ghost pred = |p: PendingAnalysis| documents.lookup(p.uri@) matches Some(d) && d.version == p.version;
    let mut out: Vec<PendingAnalysis> = Vec::new();
    let mut i: usize = 0;
    while i < due.len()
        invariant
            i <= due@.len(),
            pred == (|p: PendingAnalysis| documents.lookup(p.uri@) matches Some(d) && d.version == p.version),
            out@ == due@.subrange(0, i as int).filter(pred),
        decreases due@.len() - i,
    {
        proof {
            reveal_with_fuel(Seq::<_>::filter, 1);
            assert(due@.subrange(0, i + 1).drop_last() =~= due@.subrange(0, i as int));
        }
        let p = &due[i];
        if documents.is_current(&p.uri, p.version) {
            out.push(PendingAnalysis { uri: p.uri.clone(), version: p.version, due: p.due });
        }
        i = i + 1;
    }
    proof {
        assert(due@.subrange(0, i as int) =~= due@);
        assert forall|k: int| 0 <= k < out@.len() implies (#[trigger] documents.lookup(out@[k].uri@) matches Some(d)
            && d.version == out@[k].version) by {
            due@.lemma_filter_pred(pred, k);
            assert(pred(out@[k]));
        }
    }
    out
}

} // verus!
