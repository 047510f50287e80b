//! The dedup registry: which identities have been written, under which file
//! number and for which feed, across runs.

use vstd::prelude::*;
use crate::event::same_text;
use crate::identity::EventIdentity;

verus! {

/// One identity that has a file in the output directory.
#[derive(Clone, Debug)]
pub struct RegistryEntry {
    pub hash: i128,
    pub uid: String,
    pub feed: String,
    pub file: u64,
}

pub struct EntryView {
    pub hash: i128,
    pub uid: Seq<char>,
    pub feed: Seq<char>,
    pub file: u64,
}

impl View for RegistryEntry {
    type V = EntryView;

    open spec fn view(&self) -> EntryView {
        EntryView { hash: self.hash, uid: self.uid@, feed: self.feed@, file: self.file }
    }
}

/// The registry: its entries and the next file number to hand out.
pub struct Registry {
    pub entries: Vec<RegistryEntry>,
    pub next_file: u64,
}

pub struct RegistryView {
    pub entries: Seq<EntryView>,
    pub next_file: u64,
}

pub open spec fn entry_views(v: Seq<RegistryEntry>) -> Seq<EntryView> {
    v.map_values(|e: RegistryEntry| e@)
}

impl View for Registry {
    type V = RegistryView;

    open spec fn view(&self) -> RegistryView {
        RegistryView { entries: entry_views(self.entries@), next_file: self.next_file }
    }
}

/// An identity seen in a run: hash, upstream uid, feed name.
pub type Sighting = (i128, Seq<char>, Seq<char>);

pub open spec fn has_hash(es: Seq<EntryView>, h: i128) -> bool {
    exists|i: int| 0 <= i < es.len() && es[i].hash == h
}

/// No two entries share a hash, and every file number is below the next one.
pub open spec fn registry_wf(r: RegistryView) -> bool {
    &&& forall|i: int, j: int|
        0 <= i < j < r.entries.len() ==> r.entries[i].hash != r.entries[j].hash
    &&& forall|i: int| 0 <= i < r.entries.len() ==> r.entries[i].file < r.next_file
}

/// The registry after one identity is offered: unchanged where its hash is
/// known, else with a new entry under the next file number.
pub open spec fn offered(r: RegistryView, s: Sighting) -> RegistryView {
    if has_hash(r.entries, s.0) {
        r
    } else {
        RegistryView {
            entries: r.entries.push(EntryView { hash: s.0, uid: s.1, feed: s.2, file: r.next_file }),
            next_file: (r.next_file + 1) as u64,
        }
    }
}

/// The registry after a sequence of identities is offered in order.
pub open spec fn offered_all(r: RegistryView, ss: Seq<Sighting>) -> RegistryView
    decreases ss.len(),
{
    if ss.len() == 0 {
        r
    } else {
        offered(offered_all(r, ss.drop_last()), ss.last())
    }
}

/// An entry survives a run where its hash was seen or its feed failed.
pub open spec fn survives(e: EntryView, seen: Seq<i128>, failed: Seq<Seq<char>>) -> bool {
    seen.contains(e.hash) || failed.contains(e.feed)
}

/// The entries that survive, in order.
pub open spec fn surviving(es: Seq<EntryView>, seen: Seq<i128>, failed: Seq<Seq<char>>) -> Seq<
    EntryView,
>
    decreases es.len(),
{
    if es.len() == 0 {
        Seq::empty()
    } else {
        let p = surviving(es.drop_last(), seen, failed);
        if survives(es.last(), seen, failed) {
            p.push(es.last())
        } else {
            p
        }
    }
}

/// The stale entries, in order.
pub open spec fn stale(es: Seq<EntryView>, seen: Seq<i128>, failed: Seq<Seq<char>>) -> Seq<
    EntryView,
>
    decreases es.len(),
{
    if es.len() == 0 {
        Seq::empty()
    } else {
        let p = stale(es.drop_last(), seen, failed);
        if survives(es.last(), seen, failed) {
            p
        } else {
            p.push(es.last())
        }
    }
}

pub open spec fn files_of(es: Seq<EntryView>) -> Seq<u64> {
    es.map_values(|e: EntryView| e.file)
}

pub open spec fn hashes_of(ss: Seq<Sighting>) -> Seq<i128> {
    ss.map_values(|s: Sighting| s.0)
}

pub open spec fn names_of(v: Seq<String>) -> Seq<Seq<char>> {
    v.map_values(|s: String| s@)
}

/// A whole run: every identity is offered, then the entries that were not
/// seen (and whose feed did not fail) are dropped.
pub open spec fn after_run(r: RegistryView, ss: Seq<Sighting>, failed: Seq<Seq<char>>) -> RegistryView {
    let a = offered_all(r, ss);
    RegistryView { entries: surviving(a.entries, hashes_of(ss), failed), next_file: a.next_file }
}

/// The files a run removes.
pub open spec fn removed_in_run(r: RegistryView, ss: Seq<Sighting>, failed: Seq<Seq<char>>) -> Seq<u64> {
    files_of(stale(offered_all(r, ss).entries, hashes_of(ss), failed))
}

/// How one identity was handled.
#[derive(Clone, Copy, Debug, PartialEq, Eq, Structural)]
pub enum Admission {
    /// Already in the registry under this file: nothing is written.
    Unchanged(u64),
    /// New: to be written under this file.
    New(u64),
}

impl Registry {
    /// An empty registry.
    pub fn new() -> (r: Registry)
        ensures
            r@.entries.len() == 0,
            r@.next_file == 0,
            registry_wf(r@),
    {
        Registry { entries: Vec::new(), next_file: 0 }
    }

    /// The entry with this hash, if any.
    pub fn lookup(&self, hash: i128) -> (r: Option<&RegistryEntry>)
        ensures
            r matches Some(e) ==> e.hash == hash && self@.entries.contains(e@),
            r is None <==> !has_hash(self@.entries, hash),
    {
        let mut k: usize = 0;
        while k < self.entries.len()
            invariant
                k <= self.entries.len(),
                forall|j: int| 0 <= j < k ==> self.entries@[j].hash != hash,
            decreases self.entries.len() - k,
        {
            if self.entries[k].hash == hash {
                assert(self@.entries[k as int] == self.entries@[k as int]@);
                return Some(&self.entries[k]);
            }
            k = k + 1;
        }
        assert forall|i: int| 0 <= i < self@.entries.len() implies self@.entries[i].hash != hash by {
            assert(self@.entries[i] == self.entries@[i]@);
        }
        None
    }

    /// Offers an identity seen in feed `feed`: a known hash leaves the
    /// registry as it is; a new one is recorded under the next file number.
    pub fn offer(&mut self, identity: &EventIdentity, feed: &str) -> (r: Admission)
        requires
            registry_wf(old(self)@),
            old(self).next_file < u64::MAX,
        ensures
            registry_wf(final(self)@),
            final(self)@ == offered(old(self)@, (identity.hash, identity.original_uid@, feed@)),
            has_hash(old(self)@.entries, identity.hash) ==> exists|i: int|
                0 <= i < old(self)@.entries.len() && old(self)@.entries[i].hash == identity.hash
                    && r == Admission::Unchanged(old(self)@.entries[i].file),
            !has_hash(old(self)@.entries, identity.hash) ==> r == Admission::New(
                old(self).next_file,
            ),
    {
        match self.lookup(identity.hash) {
            Some(e) => {
                let f = e.file;
                proof {
                    let i = choose|i: int| 0 <= i < self@.entries.len() && self@.entries[i] == e@;
                    assert(self@.entries[i].hash == identity.hash);
                }
                Admission::Unchanged(f)
            },
            None => {
                let f = self.next_file;
                let e = RegistryEntry {
                    hash: identity.hash,
                    uid: identity.original_uid.clone(),
                    feed: feed.to_owned(),
                    file: f,
                };
                self.entries.push(e);
                self.next_file = f + 1;
                assert(self@.entries =~= old(self)@.entries.push(
                    EntryView { hash: identity.hash, uid: identity.original_uid@, feed: feed@, file: f },
                ));
                Admission::New(f)
            },
        }
    }

    /// The entries that are stale after a run that saw the hashes `seen` and
    /// in which the feeds `failed` could not be read.
    pub fn stale_entries(&self, seen: &Vec<i128>, failed: &Vec<String>) -> (r: Vec<RegistryEntry>)
        ensures
            entry_views(r@) == stale(self@.entries, seen@, names_of(failed@)),
    {
        let mut out: Vec<RegistryEntry> = Vec::new();
        let mut k: usize = 0;
        let ghost es = self@.entries;
        while k < self.entries.len()
            invariant
                k <= self.entries.len(),
                es == self@.entries,
                entry_views(out@) == stale(es.subrange(0, k as int), seen@, names_of(failed@)),
            decreases self.entries.len() - k,
        {
            assert(es.subrange(0, k + 1).drop_last() =~= es.subrange(0, k as int));
            assert(es[k as int] == self.entries@[k as int]@);
            let keep = survives_exec(&self.entries[k], seen, failed);
            if !keep {
                let e = RegistryEntry {
                    hash: self.entries[k].hash,
                    uid: self.entries[k].uid.clone(),
                    feed: self.entries[k].feed.clone(),
                    file: self.entries[k].file,
                };
                out.push(e);
                assert(entry_views(out@) =~= stale(es.subrange(0, k + 1), seen@, names_of(failed@)));
            }
            k = k + 1;
        }
        assert(es.subrange(0, self.entries.len() as int) =~= es);
        out
    }

    /// Drops the stale entries (see `stale_entries`) and returns their file
    /// numbers, in registry order.
    pub fn remove_stale(&mut self, seen: &Vec<i128>, failed: &Vec<String>) -> (r: Vec<u64>)
        requires
            registry_wf(old(self)@),
        ensures
            registry_wf(final(self)@),
            final(self)@.entries == surviving(old(self)@.entries, seen@, names_of(failed@)),
            final(self).next_file == old(self).next_file,
            r@ == files_of(stale(old(self)@.entries, seen@, names_of(failed@))),
    {
        let mut kept: Vec<RegistryEntry> = Vec::new();
        let mut files: Vec<u64> = Vec::new();
        let mut k: usize = 0;
        let ghost es = self@.entries;
        let ghost fs = names_of(failed@);
        while k < self.entries.len()
            invariant
                k <= self.entries.len(),
                es == self@.entries,
                fs == names_of(failed@),
                entry_views(kept@) == surviving(es.subrange(0, k as int), seen@, fs),
                files@ == files_of(stale(es.subrange(0, k as int), seen@, fs)),
            decreases self.entries.len() - k,
        {
            assert(es.subrange(0, k + 1).drop_last() =~= es.subrange(0, k as int));
            assert(es[k as int] == self.entries@[k as int]@);
            let keep = survives_exec(&self.entries[k], seen, failed);
            if keep {
                let e = RegistryEntry {
                    hash: self.entries[k].hash,
                    uid: self.entries[k].uid.clone(),
                    feed: self.entries[k].feed.clone(),
                    file: self.entries[k].file,
                };
                kept.push(e);
                assert(entry_views(kept@) =~= surviving(es.subrange(0, k + 1), seen@, fs));
            } else {
                files.push(self.entries[k].file);
                assert(files@ =~= files_of(stale(es.subrange(0, k + 1), seen@, fs)));
            }
            k = k + 1;
        }
        assert(es.subrange(0, self.entries.len() as int) =~= es);
        proof {
            lemma_surviving_members(es, seen@, fs);
            lemma_surviving_unique(es, seen@, fs);
        }
        self.entries = kept;
        files
    }
}

fn survives_exec(e: &RegistryEntry, seen: &Vec<i128>, failed: &Vec<String>) -> (r: bool)
    ensures
        r == survives(e@, seen@, names_of(failed@)),
{
    let mut k: usize = 0;
    while k < seen.len()
        invariant
            k <= seen.len(),
            forall|j: int| 0 <= j < k ==> seen@[j] != e.hash,
        decreases seen.len() - k,
    {
        if seen[k] == e.hash {
            assert(seen@[k as int] == e.hash);
            return true;
        }
        k = k + 1;
    }
    let mut j: usize = 0;
    while j < failed.len()
        invariant
            j <= failed.len(),
            !seen@.contains(e.hash),
            forall|i: int| 0 <= i < j ==> failed@[i]@ != e.feed@,
        decreases failed.len() - j,
    {
        if same_text(failed[j].as_str(), e.feed.as_str()) {
            assert(names_of(failed@)[j as int] == e.feed@);
            return true;
        }
        j = j + 1;
    }
    assert(!names_of(failed@).contains(e.feed@)) by {
        assert forall|i: int| 0 <= i < failed@.len() implies names_of(failed@)[i] != e.feed@ by {
            assert(names_of(failed@)[i] == failed@[i]@);
        }
    }
    false
}

/// Every surviving entry is one of the entries, and survives.
pub proof fn lemma_surviving_members(es: Seq<EntryView>, seen: Seq<i128>, failed: Seq<Seq<char>>)
    ensures
        forall|i: int|
            0 <= i < surviving(es, seen, failed).len() ==> es.contains(
                #[trigger] surviving(es, seen, failed)[i],
            ) && survives(surviving(es, seen, failed)[i], seen, failed),
    decreases es.len(),
{
    if es.len() > 0 {
        lemma_surviving_members(es.drop_last(), seen, failed);
        let p = surviving(es.drop_last(), seen, failed);
        assert forall|i: int| 0 <= i < p.len() implies es.contains(#[trigger] p[i]) by {
            let j = choose|j: int| 0 <= j < es.drop_last().len() && es.drop_last()[j] == p[i];
            assert(es[j] == p[i]);
        }
        assert(es[es.len() - 1] == es.last());
    }
}

proof fn lemma_surviving_unique(es: Seq<EntryView>, seen: Seq<i128>, failed: Seq<Seq<char>>)
    requires
        forall|i: int, j: int| 0 <= i < j < es.len() ==> es[i].hash != es[j].hash,
    ensures
        forall|i: int, j: int|
            0 <= i < j < surviving(es, seen, failed).len() ==> surviving(es, seen, failed)[i].hash
                != surviving(es, seen, failed)[j].hash,
    decreases es.len(),
{
    if es.len() > 0 {
        let d = es.drop_last();
        assert forall|i: int, j: int| 0 <= i < j < d.len() implies d[i].hash != d[j].hash by {
            assert(d[i] == es[i] && d[j] == es[j]);
        }
        lemma_surviving_unique(d, seen, failed);
        lemma_surviving_members(d, seen, failed);
        let p = surviving(d, seen, failed);
        assert forall|i: int| 0 <= i < p.len() implies p[i].hash != es.last().hash by {
            assert(d.contains(p[i]));
            let k = choose|k: int| 0 <= k < d.len() && d[k] == p[i];
            assert(es[k] == p[i]);
        }
    }
}

/// Offering identities only appends: the earlier entries stay in place.
pub proof fn lemma_offered_keeps(r: RegistryView, ss: Seq<Sighting>)
    ensures
        offered_all(r, ss).entries.len() >= r.entries.len(),
        forall|i: int| 0 <= i < r.entries.len() ==> #[trigger] offered_all(r, ss).entries[i] == r.entries[i],
    decreases ss.len(),
{
    if ss.len() > 0 {
        lemma_offered_keeps(r, ss.drop_last());
    }
}

/// Every offered hash is in the registry afterwards.
pub proof fn lemma_offered_known(r: RegistryView, ss: Seq<Sighting>)
    ensures
        forall|k: int| 0 <= k < ss.len() ==> has_hash(offered_all(r, ss).entries, #[trigger] ss[k].0),
    decreases ss.len(),
{
    if ss.len() > 0 {
        let d = ss.drop_last();
        lemma_offered_known(r, d);
        let a = offered_all(r, d);
        let b = offered_all(r, ss);
        assert(b == offered(a, ss.last()));
        assert forall|k: int| 0 <= k < ss.len() implies has_hash(b.entries, #[trigger] ss[k].0) by {
            if k < ss.len() - 1 {
                assert(d[k] == ss[k]);
                let i = choose|i: int| 0 <= i < a.entries.len() && a.entries[i].hash == d[k].0;
                assert(b.entries[i] == a.entries[i]);
            } else if !has_hash(a.entries, ss.last().0) {
                assert(b.entries[a.entries.len() as int].hash == ss.last().0);
            }
        }
    }
}

/// Offering only known hashes changes nothing.
pub proof fn lemma_offered_known_is_noop(r: RegistryView, ss: Seq<Sighting>)
    requires
        forall|k: int| 0 <= k < ss.len() ==> has_hash(r.entries, #[trigger] ss[k].0),
    ensures
        offered_all(r, ss) == r,
    decreases ss.len(),
{
    if ss.len() > 0 {
        let d = ss.drop_last();
        assert forall|k: int| 0 <= k < d.len() implies has_hash(r.entries, #[trigger] d[k].0) by {
            assert(d[k] == ss[k]);
        }
        lemma_offered_known_is_noop(r, d);
        assert(has_hash(r.entries, ss[ss.len() - 1].0));
    }
}

/// Entries that all survive are all kept, and none is stale.
pub proof fn lemma_all_survive(es: Seq<EntryView>, seen: Seq<i128>, failed: Seq<Seq<char>>)
    requires
        forall|i: int| 0 <= i < es.len() ==> survives(#[trigger] es[i], seen, failed),
    ensures
        surviving(es, seen, failed) == es,
        stale(es, seen, failed).len() == 0,
    decreases es.len(),
{
    if es.len() > 0 {
        let d = es.drop_last();
        assert forall|i: int| 0 <= i < d.len() implies survives(#[trigger] d[i], seen, failed) by {
            assert(d[i] == es[i]);
        }
        lemma_all_survive(d, seen, failed);
        assert(survives(es[es.len() - 1], seen, failed));
        assert(d.push(es.last()) =~= es);
    }
}

/// An entry whose hash was seen is still known after the stale ones go.
pub proof fn lemma_seen_survives(es: Seq<EntryView>, seen: Seq<i128>, failed: Seq<Seq<char>>, h: i128)
    requires
        has_hash(es, h),
        seen.contains(h),
    ensures
        has_hash(surviving(es, seen, failed), h),
    decreases es.len(),
{
    let d = es.drop_last();
    let p = surviving(d, seen, failed);
    if es.last().hash == h {
        assert(surviving(es, seen, failed) == p.push(es.last()));
        assert(surviving(es, seen, failed)[p.len() as int].hash == h);
    } else {
        let i = choose|i: int| 0 <= i < es.len() && es[i].hash == h;
        assert(d[i] == es[i]);
        lemma_seen_survives(d, seen, failed, h);
        let j = choose|j: int| 0 <= j < p.len() && p[j].hash == h;
        let q = surviving(es, seen, failed);
        if survives(es.last(), seen, failed) {
            assert(q[j] == p[j]);
        }
    }
}

/// An entry that does not survive is among the stale ones.
pub proof fn lemma_stale_holds(es: Seq<EntryView>, seen: Seq<i128>, failed: Seq<Seq<char>>, e: EntryView)
    requires
        es.contains(e),
        !survives(e, seen, failed),
    ensures
        stale(es, seen, failed).contains(e),
    decreases es.len(),
{
    let d = es.drop_last();
    let p = stale(d, seen, failed);
    if es.last() == e {
        assert(stale(es, seen, failed)[p.len() as int] == e);
    } else {
        let i = choose|i: int| 0 <= i < es.len() && es[i] == e;
        assert(d[i] == es[i]);
        lemma_stale_holds(d, seen, failed, e);
        let j = choose|j: int| 0 <= j < p.len() && p[j] == e;
        if !survives(es.last(), seen, failed) {
            assert(stale(es, seen, failed)[j] == p[j]);
        }
    }
}

/// Running twice on an unchanged feed: in the second run every identity is
/// found in the registry, nothing new is recorded or written, nothing is
/// removed, and the registry ends as it was.
pub proof fn lemma_rerun_is_idle(r: RegistryView, ss: Seq<Sighting>, failed: Seq<Seq<char>>)
    ensures
        forall|k: int|
            0 <= k < ss.len() ==> has_hash(after_run(r, ss, failed).entries, #[trigger] ss[k].0),
        offered_all(after_run(r, ss, failed), ss) == after_run(r, ss, failed),
        removed_in_run(after_run(r, ss, failed), ss, failed).len() == 0,
        after_run(after_run(r, ss, failed), ss, failed) == after_run(r, ss, failed),
{
    let a = offered_all(r, ss);
    let seen = hashes_of(ss);
    let r1 = after_run(r, ss, failed);
    lemma_offered_known(r, ss);
    assert forall|k: int| 0 <= k < ss.len() implies has_hash(r1.entries, #[trigger] ss[k].0) by {
        assert(seen[k] == ss[k].0);
        lemma_seen_survives(a.entries, seen, failed, ss[k].0);
    }
    lemma_offered_known_is_noop(r1, ss);
    lemma_surviving_members(a.entries, seen, failed);
    lemma_all_survive(r1.entries, seen, failed);
    assert(stale(r1.entries, seen, failed).len() == 0);
}

/// An identity in the registry that a run no longer sees, from a feed that
/// did not fail, leaves the registry in that run and its file is among the
/// removed ones.
pub proof fn lemma_unseen_is_removed(
    r: RegistryView,
    ss: Seq<Sighting>,
    failed: Seq<Seq<char>>,
    e: EntryView,
)
    requires
        r.entries.contains(e),
        !hashes_of(ss).contains(e.hash),
        !failed.contains(e.feed),
    ensures
        !after_run(r, ss, failed).entries.contains(e),
        removed_in_run(r, ss, failed).contains(e.file),
{
    let a = offered_all(r, ss);
    let seen = hashes_of(ss);
    lemma_offered_keeps(r, ss);
    let i = choose|i: int| 0 <= i < r.entries.len() && r.entries[i] == e;
    assert(a.entries[i] == e);
    lemma_surviving_members(a.entries, seen, failed);
    lemma_stale_holds(a.entries, seen, failed, e);
    let st = stale(a.entries, seen, failed);
    let j = choose|j: int| 0 <= j < st.len() && st[j] == e;
    assert(files_of(st)[j] == e.file);
}

/// Offering two sequences one after the other is offering their concatenation.
pub proof fn lemma_offered_concat(r: RegistryView, a: Seq<Sighting>, b: Seq<Sighting>)
    ensures
        offered_all(offered_all(r, a), b) == offered_all(r, a + b),
    decreases b.len(),
{
    if b.len() == 0 {
        assert(a + b =~= a);
    } else {
        lemma_offered_concat(r, a, b.drop_last());
        assert((a + b).drop_last() =~= a + b.drop_last());
        assert((a + b).last() == b.last());
    }
}

} // verus!
