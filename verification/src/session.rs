//! The documents an editor has open: their versions, texts and cached
//! analyses, and the text changes the editor sends.
use vstd::prelude::*;
use vstd::string::StringSliceAdditionalSpecFns;
use vstd::utf8::*;

use crate::positions::{position_to_byte, spec_position_to_byte, Position};
use crate::text::{lemma_view_from_bytes, substr};
use crate::{analysis_of, analyze, Analysis};

verus! {

broadcast use {vstd::utf8::encode_utf8_valid_utf8, vstd::utf8::is_char_boundary_start_end_of_seq};

/// A change the editor made: the text between two positions, or the whole
/// text when no range is given, replaced by `text`.
#[derive(Debug, Clone, PartialEq, Eq)]
pub struct ContentChange {
    pub range: Option<(Position, Position)>,
    pub text: String,
}

#[derive(Debug)]
pub struct OpenDocument {
    pub version: i32,
    pub text: String,
    /// The analysis of `text`, once computed; cleared when the text changes.
    pub analysis: Option<Analysis>,
}

impl OpenDocument {
    /// The held analysis, if any, is an analysis of the text.
    pub open spec fn current(self) -> bool {
        self.analysis matches Some(a) ==> analysis_of(self.text@, a)
    }

    /// The analysis of the text: the held one, or a new one that is then held.
    /// Either way it is an analysis of the text, as `analyze` gives it.
    pub fn analysis(&mut self) -> (r: &Analysis)
        requires
            old(self).current(),
        ensures
            final(self).text == old(self).text,
            final(self).version == old(self).version,
            final(self).analysis == Some(*r),
            final(self).current(),
            analysis_of(final(self).text@, *r),
            match old(self).analysis {
                Some(a) => *r == a,
                None => true,
            },
    {
        if self.analysis.is_none() {
            self.analysis = Some(analyze(self.text.as_str()));
        }
        self.analysis.as_ref().unwrap()
    }
}


/// An open document and the address it is known by.
#[derive(Debug)]
pub struct OpenEntry {
    pub uri: String,
    pub document: OpenDocument,
}

/// The open documents, each address at most once.
#[derive(Debug)]
pub struct Documents {
    open: Vec<OpenEntry>,
}

/// The position of the entry for `uri`, if any.
pub open spec fn find_entry(entries: Seq<OpenEntry>, uri: Seq<char>, n: int) -> Option<int>
    decreases n,
{
    if n <= 0 {
        None
    } else {
        match find_entry(entries, uri, n - 1) {
            Some(i) => Some(i),
            None => if entries[n - 1].uri@ == uri {
                Some(n - 1)
            } else {
                None
            },
        }
    }
}

proof fn lemma_find_entry(entries: Seq<OpenEntry>, uri: Seq<char>, n: int)
    requires
        0 <= n <= entries.len(),
    ensures
        match find_entry(entries, uri, n) {
            Some(i) => 0 <= i < n && entries[i].uri@ == uri && forall|j: int| 0 <= j < i ==> #[trigger] entries[j].uri@ != uri,
            None => forall|j: int| 0 <= j < n ==> #[trigger] entries[j].uri@ != uri,
        },
    decreases n,
{
    if n > 0 {
        lemma_find_entry(entries, uri, n - 1);
    }
}

/// Every address occurs once.
pub open spec fn unique_uris(entries: Seq<OpenEntry>) -> bool {
    forall|i: int, j: int| 0 <= i < j < entries.len() ==> #[trigger] entries[i].uri@ != #[trigger] entries[j].uri@
}

proof fn lemma_find_agree(a: Seq<OpenEntry>, b: Seq<OpenEntry>, u: Seq<char>, n: int)
    requires
        n <= a.len(),
        n <= b.len(),
        forall|j: int| 0 <= j < n ==> #[trigger] a[j].uri@ == b[j].uri@,
    ensures
        find_entry(a, u, n) == find_entry(b, u, n),
    decreases n,
{
    if n > 0 {
        lemma_find_agree(a, b, u, n - 1);
    }
}

/// Removing entry `i`, whose address is not `u`, shifts where `u` is found.
proof fn lemma_find_remove(a: Seq<OpenEntry>, i: int, u: Seq<char>, n: int)
    requires
        0 <= i < n <= a.len(),
        a[i].uri@ != u,
    ensures
        find_entry(a.remove(i), u, n - 1) == match find_entry(a, u, n) {
            Some(j) => Some(if j < i { j } else { j - 1 }),
            None => None,
        },
    decreases n,
{
    let r = a.remove(i);
    if n == i + 1 {
        lemma_find_agree(r, a, u, i);
        lemma_find_entry(a, u, i);
    } else {
        lemma_find_remove(a, i, u, n - 1);
        assert(r[n - 2] == a[n - 1]);
        lemma_find_entry(a, u, n - 1);
    }
}

impl Documents {
    /// The entries, in the order they were opened.
    pub closed spec fn entries(self) -> Seq<OpenEntry> {
        self.open@
    }

    /// No address is open twice, and each held analysis is one of its
    /// document's text.
    pub closed spec fn wf(self) -> bool {
        &&& unique_uris(self.open@)
        &&& forall|i: int| 0 <= i < self.open@.len() ==> (#[trigger] self.open@[i]).document.current()
    }

    /// The document open at `uri`, if any.
    pub closed spec fn lookup(self, uri: Seq<char>) -> Option<OpenDocument> {
        match find_entry(self.open@, uri, self.open@.len() as int) {
            Some(i) => Some(self.open@[i].document),
            None => None,
        }
    }

    fn find(&self, uri: &String) -> (r: Option<usize>)
        ensures
            match r {
                Some(i) => find_entry(self.open@, uri@, self.open@.len() as int) == Some(i as int) && i < self.open@.len(),
                None => find_entry(self.open@, uri@, self.open@.len() as int) is None,
            },
    {
        let mut i: usize = 0;
        while i < self.open.len()
            invariant
                i <= self.open@.len(),
                find_entry(self.open@, uri@, i as int) is None,
            decreases self.open@.len() - i,
        {
            if crate::text::str_eq(self.open[i].uri.as_str(), uri.as_str()) {
                proof {
                    lemma_find_entry(self.open@, uri@, i + 1);
                    lemma_find_stable(self.open@, uri@, i + 1, self.open@.len() as int);
                }
                return Some(i);
            }
            i = i + 1;
        }
        None
    }
}

proof fn lemma_find_stable(entries: Seq<OpenEntry>, uri: Seq<char>, n: int, m: int)
    requires
        find_entry(entries, uri, n) is Some,
        n <= m,
    ensures
        find_entry(entries, uri, m) == find_entry(entries, uri, n),
    decreases m - n,
{
    if n < m {
        lemma_find_stable(entries, uri, n, m - 1);
    }
}

/// The entries with the document of entry `i` replaced.
pub open spec fn replaced(entries: Seq<OpenEntry>, i: int, doc: OpenDocument) -> Seq<OpenEntry> {
    entries.update(i, OpenEntry { uri: entries[i].uri, document: doc })
}

proof fn lemma_replaced(entries: Seq<OpenEntry>, i: int, doc: OpenDocument)
    requires
        unique_uris(entries),
        0 <= i < entries.len(),
    ensures
        replaced(entries, i, doc).len() == entries.len(),
        unique_uris(replaced(entries, i, doc)),
        forall|u: Seq<char>|
            find_entry(replaced(entries, i, doc), u, entries.len() as int) == find_entry(
                entries,
                u,
                entries.len() as int,
            ),
{
    let r = replaced(entries, i, doc);
    assert forall|u: Seq<char>| find_entry(r, u, entries.len() as int) == find_entry(entries, u, entries.len() as int) by {
        lemma_find_agree(r, entries, u, entries.len() as int);
    }
    assert forall|a: int, b: int| 0 <= a < b < r.len() implies #[trigger] r[a].uri@ != #[trigger] r[b].uri@ by {
        assert(r[a].uri@ == entries[a].uri@);
        assert(r[b].uri@ == entries[b].uri@);
    }
}

impl Default for Documents {
    fn default() -> (r: Self)
        ensures
            r.wf(),
            forall|uri: Seq<char>| #[trigger] r.lookup(uri) is None,
    {
        Documents { open: Vec::new() }
    }
}


/// The text after one change: the whole text replaced, or the bytes between
/// the two positions replaced when both convert and are in order; otherwise
/// the text unchanged.
pub open spec fn apply_change(text: Seq<char>, change: ContentChange) -> Seq<char> {
    match change.range {
        None => change.text@,
        Some(range) => {
            let b = encode_utf8(text);
            match spec_position_to_byte(b, range.0) {
                Some(s) => match spec_position_to_byte(b, range.1) {
                    Some(e) => if s <= e {
                        decode_utf8(b.subrange(0, s)) + change.text@ + decode_utf8(b.subrange(e, b.len() as int))
                    } else {
                        text
                    },
                    None => text,
                },
                None => text,
            }
        },
    }
}

/// The text after the changes, applied in order.
pub open spec fn apply_changes(text: Seq<char>, changes: Seq<ContentChange>) -> Seq<char>
    decreases changes.len(),
{
    if changes.len() == 0 {
        text
    } else {
        apply_change(apply_changes(text, changes.drop_last()), changes.last())
    }
}

/// Both ends of a range as byte offsets, when both convert and are in order.
fn range_to_bytes(text: &str, start: Position, end: Position) -> (r: Option<(usize, usize)>)
    ensures
        match r {
            Some((s, e)) => spec_position_to_byte(text.spec_bytes(), start) == Some(s as int)
                && spec_position_to_byte(text.spec_bytes(), end) == Some(e as int) && s <= e <= text.spec_bytes().len()
                && is_char_boundary(text.spec_bytes(), s as int) && is_char_boundary(text.spec_bytes(), e as int),
            None => !(spec_position_to_byte(text.spec_bytes(), start) matches Some(s) && spec_position_to_byte(
                text.spec_bytes(),
                end,
            ) matches Some(e) && s <= e),
        },
{
    let s = match position_to_byte(text, start) {
        Some(s) => s,
        None => return None,
    };
    let e = match position_to_byte(text, end) {
        Some(e) => e,
        None => return None,
    };
    if s <= e {
        Some((s, e))
    } else {
        None
    }
}

/// `text` after one change.
fn changed_text(text: String, change: &ContentChange) -> (r: String)
    ensures
        r@ == apply_change(text@, *change),
{
    match &change.range {
        None => change.text.clone(),
        Some(range) => {
            let t = text.as_str();
            proof {
                lemma_view_from_bytes(t);
            }
            match range_to_bytes(t, range.0, range.1) {
                Some((s, e)) => {
                    let n = t.as_bytes().len();
                    let head = substr(t, 0, s);
                    let tail = substr(t, e, n);
                    proof {
                        lemma_view_from_bytes(head);
                        lemma_view_from_bytes(tail);
                    }
                    let mut r = String::from_str(head);
                    r.append(change.text.as_str());
                    r.append(tail);
                    r
                },
                None => text,
            }
        },
    }
}

impl Documents {
    pub fn open(&mut self, uri: String, version: i32, text: String)
        requires
            old(self).wf(),
        ensures
            final(self).wf(),
            final(self).lookup(uri@) matches Some(d) && d.version == version && d.text == text && d.analysis is None,
            forall|u: Seq<char>| u != uri@ ==> #[trigger] final(self).lookup(u) == old(self).lookup(u),
    {
        let ghost key = uri@;
        let document = OpenDocument { version, text, analysis: None };
        match self.find(&uri) {
            Some(i) => {
                let ghost before = self.open@;
                self.open.set(i, OpenEntry { uri, document });
                proof {
                    assert forall|j: int| 0 <= j < self.open@.len() implies (#[trigger] self.open@[j]).document.current() by {
                        if j != i {
                            assert(self.open@[j] == before[j]);
                        }
                    }
                    lemma_find_entry(before, key, before.len() as int);
                    assert forall|u: Seq<char>| #[trigger] find_entry(self.open@, u, self.open@.len() as int)
                        == find_entry(before, u, before.len() as int) by {
                        lemma_find_agree(self.open@, before, u, before.len() as int);
                    }
                    assert forall|a: int, b: int| 0 <= a < b < self.open@.len() implies #[trigger] self.open@[a].uri@
                        != #[trigger] self.open@[b].uri@ by {
                        assert(self.open@[a].uri@ == before[a].uri@);
                        assert(self.open@[b].uri@ == before[b].uri@);
                    }
                    assert forall|u: Seq<char>| u != key implies #[trigger] self.lookup(u) == old(self).lookup(u) by {
                        lemma_find_entry(self.open@, u, self.open@.len() as int);
                    }
                }
            },
            None => {
                let ghost before = self.open@;
                self.open.push(OpenEntry { uri, document });
                proof {
                    assert forall|j: int| 0 <= j < self.open@.len() implies (#[trigger] self.open@[j]).document.current() by {
                        if j < before.len() {
                            assert(self.open@[j] == before[j]);
                        }
                    }
                    lemma_find_entry(before, key, before.len() as int);
                    assert forall|u: Seq<char>| u != key implies #[trigger] find_entry(
                        self.open@,
                        u,
                        self.open@.len() as int,
                    ) == find_entry(before, u, before.len() as int) by {
                        lemma_find_agree(self.open@, before, u, before.len() as int);
                    }
                    lemma_find_agree(self.open@, before, key, before.len() as int);
                    assert forall|u: Seq<char>| u != key implies #[trigger] self.lookup(u) == old(self).lookup(u) by {
                        lemma_find_entry(self.open@, u, self.open@.len() as int);
                        lemma_find_entry(before, u, before.len() as int);
                    }
                    assert forall|a: int, b: int| 0 <= a < b < self.open@.len() implies #[trigger] self.open@[a].uri@
                        != #[trigger] self.open@[b].uri@ by {
                        if b == before.len() {
                            assert(self.open@[a].uri@ == before[a].uri@);
                        } else {
                            assert(self.open@[a].uri@ == before[a].uri@);
                            assert(self.open@[b].uri@ == before[b].uri@);
                        }
                    }
                }
            },
        }
    }

    /// Applies the changes of a newer version of an open document; changes
    /// to an unknown document or of a version not newer than the held one
    /// are ignored.
    pub fn change(&mut self, uri: &String, version: i32, changes: Vec<ContentChange>) -> (r: Option<&OpenDocument>)
        requires
            old(self).wf(),
        ensures
            final(self).wf(),
            forall|u: Seq<char>| u != uri@ ==> #[trigger] final(self).lookup(u) == old(self).lookup(u),
            match old(self).lookup(uri@) {
                Some(d) => if version > d.version {
                    r matches Some(n) && final(self).lookup(uri@) == Some(*n) && n.version == version && n.text@
                        == apply_changes(d.text@, changes@) && n.analysis is None
                } else {
                    r is None && final(self).lookup(uri@) == Some(d)
                },
                None => r is None && final(self).lookup(uri@) is None,
            },
    {
        let i = match self.find(uri) {
            Some(i) => i,
            None => return None,
        };
        proof {
            lemma_find_entry(self.open@, uri@, self.open@.len() as int);
        }
        if version <= self.open[i].document.version {
            return None;
        }
        let ghost before = self.open@;
        let ghost old_text = self.open@[i as int].document.text@;
        let mut text = self.open[i].document.text.clone();
        let mut k: usize = 0;
        while k < changes.len()
            invariant
                k <= changes@.len(),
                text@ == apply_changes(old_text, changes@.take(k as int)),
            decreases changes@.len() - k,
        {
            proof {
                assert(changes@.take(k + 1).drop_last() =~= changes@.take(k as int));
            }
            text = changed_text(text, &changes[k]);
            k = k + 1;
        }
        proof {
            assert(changes@.take(k as int) =~= changes@);
        }
        let entry_uri = self.open[i].uri.clone();
        self.open.set(i, OpenEntry { uri: entry_uri, document: OpenDocument { version, text, analysis: None } });
        proof {
            assert forall|j: int| 0 <= j < self.open@.len() implies (#[trigger] self.open@[j]).document.current() by {
                if j != i {
                    assert(self.open@[j] == before[j]);
                }
            }
            assert forall|u: Seq<char>| #[trigger] find_entry(self.open@, u, self.open@.len() as int) == find_entry(
                before,
                u,
                before.len() as int,
            ) by {
                lemma_find_agree(self.open@, before, u, before.len() as int);
            }
            assert forall|a: int, b: int| 0 <= a < b < self.open@.len() implies #[trigger] self.open@[a].uri@
                != #[trigger] self.open@[b].uri@ by {
                assert(self.open@[a].uri@ == before[a].uri@);
                assert(self.open@[b].uri@ == before[b].uri@);
            }
            assert forall|u: Seq<char>| u != uri@ implies #[trigger] self.lookup(u) == old(self).lookup(u) by {
                lemma_find_entry(self.open@, u, self.open@.len() as int);
            }
        }
        Some(&self.open[i].document)
    }

    pub fn close(&mut self, uri: &String)
        requires
            old(self).wf(),
        ensures
            final(self).wf(),
            final(self).lookup(uri@) is None,
            forall|u: Seq<char>| u != uri@ ==> #[trigger] final(self).lookup(u) == old(self).lookup(u),
    {
        if let Some(i) = self.find(uri) {
            let ghost before = self.open@;
            self.open.remove(i);
            proof {
                lemma_find_entry(before, uri@, before.len() as int);
                assert forall|u: Seq<char>| u != uri@ implies #[trigger] find_entry(
                    self.open@,
                    u,
                    self.open@.len() as int,
                ) == match find_entry(before, u, before.len() as int) {
                    Some(j) => Some(if j < i { j } else { j - 1 }),
                    None => None,
                } by {
                    lemma_find_remove(before, i as int, u, before.len() as int);
                }
                lemma_find_entry(self.open@, uri@, self.open@.len() as int);
                assert forall|u: Seq<char>| u != uri@ implies #[trigger] self.lookup(u) == old(self).lookup(u) by {
                    lemma_find_remove(before, i as int, u, before.len() as int);
                    lemma_find_entry(before, u, before.len() as int);
                    if let Some(j) = find_entry(before, u, before.len() as int) {
                        if j < i {
                            assert(self.open@[j] == before[j]);
                        } else {
                            assert(self.open@[j - 1] == before[j]);
                        }
                    }
                }
                assert forall|j: int| 0 <= j < self.open@.len() implies (#[trigger] self.open@[j]).document.current() by {
                    if j < i {
                        assert(self.open@[j] == before[j]);
                    } else {
                        assert(self.open@[j] == before[j + 1]);
                    }
                }
                assert forall|j: int| 0 <= j < self.open@.len() implies #[trigger] self.open@[j].uri@ != uri@ by {
                    if j < i {
                        assert(self.open@[j] == before[j]);
                    } else {
                        assert(self.open@[j] == before[j + 1]);
                    }
                }
                assert forall|a: int, b: int| 0 <= a < b < self.open@.len() implies #[trigger] self.open@[a].uri@
                    != #[trigger] self.open@[b].uri@ by {
                    let a2 = if a < i { a } else { a + 1 };
                    let b2 = if b < i { b } else { b + 1 };
                    assert(self.open@[a] == before[a2]);
                    assert(self.open@[b] == before[b2]);
                }
            }
        } else {
            proof {
                lemma_find_entry(self.open@, uri@, self.open@.len() as int);
            }
        }
    }

    pub fn get(&self, uri: &String) -> (r: Option<&OpenDocument>)
        ensures
            match r {
                Some(d) => self.lookup(uri@) == Some(*d),
                None => self.lookup(uri@) is None,
            },
    {
        match self.find(uri) {
            Some(i) => Some(&self.open[i].document),
            None => None,
        }
    }

    /// Whether `uri` is open at exactly `version`.
    pub fn is_current(&self, uri: &String, version: i32) -> (r: bool)
        ensures
            r == (self.lookup(uri@) matches Some(d) && d.version == version),
    {
        match self.get(uri) {
            Some(d) => d.version == version,
            None => false,
        }
    }

    /// The document open at `uri`, to be changed in place.
    pub fn get_mut(&mut self, uri: &String) -> (r: Option<&mut OpenDocument>)
        requires
            old(self).wf(),
        ensures
            match r {
                Some(d) => old(self).lookup(uri@) == Some(*d) && d.current() && (final(d).current() ==> final(self).wf())
                    && final(self).lookup(uri@) == Some(*final(d)) && forall|u: Seq<char>|
                    u != uri@ ==> #[trigger] final(self).lookup(u) == old(self).lookup(u),
                None => old(self).lookup(uri@) is None && *final(self) == *old(self),
            },
    {
        match self.find(uri) {
            Some(i) => {
                let ghost before = self.open@;
                proof {
                    lemma_find_entry(before, uri@, before.len() as int);
                }
                let d = &mut self.open[i].document;
                proof {
                    lemma_replaced(before, i as int, *final(d));
                    assert forall|u: Seq<char>| u != uri@ implies #[trigger] find_entry(
                        replaced(before, i as int, *final(d)),
                        u,
                        before.len() as int,
                    ) matches Some(j) ==> replaced(before, i as int, *final(d))[j].document == before[j].document by {
                        lemma_find_entry(before, u, before.len() as int);
                    }
                }
                Some(d)
            },
            None => None,
        }
    }
}

} // verus!
