//! One synchronisation run: feeds are parsed, their events identified,
//! offered to the registry, transformed and rendered; what the output
//! directory must gain and lose is handed back as a plan.

use vstd::prelude::*;
use crate::event::{RawEvent, index_of, same_text, views_of};
use crate::ical::{
    calendar_begin, event_views, parse_events, parsed_events_of, serialize_event, serialized_of,
    unfold, unfolded_of,
};
use crate::identity::{compute_identity, end_of, identity_hash, start_of, summary_of, uid_of};
use crate::registry::{
    Admission, EntryView, Registry, RegistryEntry, RegistryView, Sighting, after_run, entry_views,
    has_hash, hashes_of, lemma_offered_concat, names_of, offered_all, registry_wf, removed_in_run,
    stale,
};
use crate::render::{post_process, post_processed};
use crate::text::{chars_of, starts_with, string_of};
use crate::transform::{TransformedEvent, transform, transformed_properties, without_name};

verus! {

/// The identity an event is offered under for feed `feed`, if it has one.
pub open spec fn sighting_of(ev: RawEvent, feed: Seq<char>) -> Option<Sighting> {
    if start_of(ev) is Some && end_of(ev) is Some && summary_of(ev) is Some {
        Some(
            (
                identity_hash(start_of(ev)->0, end_of(ev)->0, summary_of(ev)->0) as i128,
                match uid_of(ev) {
                    Some(u) => u,
                    None => Seq::empty(),
                },
                feed,
            ),
        )
    } else {
        None
    }
}

/// The identities of the events of a feed that have one, in order.
pub open spec fn sightings(evs: Seq<RawEvent>, feed: Seq<char>) -> Seq<Sighting>
    decreases evs.len(),
{
    if evs.len() == 0 {
        Seq::empty()
    } else {
        let p = sightings(evs.drop_last(), feed);
        match sighting_of(evs.last(), feed) {
            Some(s) => p.push(s),
            None => p,
        }
    }
}

/// Whether `t` is a record made from serialised calendar text.
pub open spec fn is_record_text(t: Seq<char>) -> bool {
    exists|s: Seq<char>| starts_with(s, calendar_begin()) && t == post_processed(s)
}

/// The record text of an event with these properties, where it has both a
/// `DTSTAMP` and a `UID`.
pub open spec fn record_of(props: Seq<crate::event::PropertyView>, multi: Seq<crate::event::PropertyView>) -> Seq<char> {
    post_processed(serialized_of(props, multi))
}

pub open spec fn stamped(props: Seq<crate::event::PropertyView>) -> bool {
    index_of(props, "DTSTAMP"@) is Some && index_of(props, "UID"@) is Some
}

/// The text of the record for one transformed event: the post-processed
/// serialisation of its body.
pub fn render_record(t: &TransformedEvent) -> (r: String)
    ensures
        is_record_text(r@),
        stamped(views_of(t.body.properties@)) ==> r@ == record_of(
            views_of(t.body.properties@),
            views_of(t.body.multi_properties@),
        ),
{
    let text = serialize_event(&t.body);
    let cs = chars_of(text.as_str());
    let out = post_process(&cs);
    assert(starts_with(text@, calendar_begin()) && out@ == post_processed(text@));
    string_of(&out)
}

/// What parsing text `t` may give: the parser's events, or an error exactly
/// where the parser refuses the unfolded text.
pub open spec fn parse_outcome(t: Seq<char>, r: Result<Vec<RawEvent>, String>) -> bool {
    &&& (r is Err <==> parsed_events_of(unfolded_of(t)) is None)
    &&& (r matches Ok(evs) ==> parsed_events_of(unfolded_of(t)) == Some(event_views(evs@)))
}

/// Unfolds feed text and parses it into its events, in order.
pub fn parse_feed(text: &str) -> (r: Result<Vec<RawEvent>, String>)
    ensures
        parse_outcome(text@, r),
{
    let unfolded = unfold(text);
    parse_events(unfolded.as_str())
}

/// The events of a feed that are new when offered in order to `r`.
pub open spec fn fresh_events(r: RegistryView, evs: Seq<RawEvent>, feed: Seq<char>) -> Seq<RawEvent>
    decreases evs.len(),
{
    if evs.len() == 0 {
        Seq::empty()
    } else {
        let p = fresh_events(r, evs.drop_last(), feed);
        match sighting_of(evs.last(), feed) {
            Some(s) => if has_hash(offered_all(r, sightings(evs.drop_last(), feed)).entries, s.0) {
                p
            } else {
                p.push(evs.last())
            },
            None => p,
        }
    }
}

/// A transformed event always has a `UID`, and keeps the upstream `DTSTAMP`.
pub proof fn lemma_transformed_stamped(ps: Seq<crate::event::PropertyView>, uid: Option<Seq<char>>, category: Seq<char>)
    requires
        index_of(ps, "DTSTAMP"@) is Some,
    ensures
        stamped(transformed_properties(ps, uid, category)),
{
    let desc = match crate::event::value_of(ps, "DESCRIPTION"@) {
        Some(d) => d,
        None => Seq::empty(),
    };
    let d = "DTSTAMP"@;
    let p1 = crate::event::with_property(ps, "DESCRIPTION"@, crate::transform::marked_description(desc, crate::transform::marker_uid(uid)));
    crate::event::lemma_with_property_names(ps, "DESCRIPTION"@, crate::transform::marked_description(desc, crate::transform::marker_uid(uid)), d);
    let p2 = crate::event::with_property(p1, "CATEGORIES"@, category);
    crate::event::lemma_with_property_names(p1, "CATEGORIES"@, category, d);
    let p3 = crate::event::with_property(p2, "UID"@, ""@);
    crate::event::lemma_with_property_names(p2, "UID"@, ""@, d);
    let p4 = crate::event::with_property(p3, "TRANSP"@, ""@);
    crate::event::lemma_with_property_names(p3, "TRANSP"@, ""@, d);
    crate::event::lemma_with_property_names(p3, "TRANSP"@, ""@, "UID"@);
    crate::event::lemma_with_property_names(p4, "RRULE"@, ""@, d);
    crate::event::lemma_with_property_names(p4, "RRULE"@, ""@, "UID"@);
}

/// What the record written for event `ev` of feed `feed` holds.
pub open spec fn written_for(ev: RawEvent, feed: Seq<char>, t: Seq<char>) -> bool {
    let props = transformed_properties(views_of(ev.properties@), crate::identity::uid_of(ev), feed);
    let multi = without_name(views_of(ev.multi_properties@), "CATEGORIES"@);
    &&& is_record_text(t)
    &&& (index_of(views_of(ev.properties@), "DTSTAMP"@) is Some ==> t == record_of(props, multi))
}

/// A record to write: file number and text.
pub struct RecordWrite {
    pub file: u64,
    pub text: String,
}

/// What became of the events of one feed.
pub struct FeedOutcome {
    pub writes: Vec<RecordWrite>,
    pub new: usize,
    pub unchanged: usize,
    pub skipped: usize,
}

/// Offers each event of feed `feed` to the registry: events without start,
/// end or summary are skipped, known identities are left alone, and new ones
/// are recorded, transformed and rendered for writing. The hashes of all
/// identified events are appended to `seen`.
pub fn process_feed(
    reg: &mut Registry,
    feed: &str,
    events: &Vec<RawEvent>,
    seen: &mut Vec<i128>,
) -> (r: FeedOutcome)
    requires
        registry_wf(old(reg)@),
        old(reg).next_file + events.len() < u64::MAX,
    ensures
        registry_wf(final(reg)@),
        final(reg)@ == offered_all(old(reg)@, sightings(events@, feed@)),
        final(seen)@ == old(seen)@ + hashes_of(sightings(events@, feed@)),
        r.new + r.unchanged == sightings(events@, feed@).len(),
        r.new + r.unchanged + r.skipped == events.len(),
        r.writes.len() == r.new,
        final(reg).next_file == old(reg).next_file + r.new,
        forall|k: int| 0 <= k < r.writes.len() ==> #[trigger] r.writes@[k].file == old(reg).next_file + k,
        r.writes.len() == fresh_events(old(reg)@, events@, feed@).len(),
        forall|k: int|
            0 <= k < r.writes.len() ==> written_for(
                #[trigger] fresh_events(old(reg)@, events@, feed@)[k],
                feed@,
                r.writes@[k].text@,
            ),
{
    let mut writes: Vec<RecordWrite> = Vec::new();
    let mut new: usize = 0;
    let mut unchanged: usize = 0;
    let mut skipped: usize = 0;
    let mut k: usize = 0;
    let ghost r0 = reg@;
    let ghost seen0 = seen@;
    while k < events.len()
        invariant
            k <= events.len(),
            r0 == old(reg)@,
            seen0 == old(seen)@,
            registry_wf(reg@),
            reg@ == offered_all(r0, sightings(events@.subrange(0, k as int), feed@)),
            seen@ == seen0 + hashes_of(sightings(events@.subrange(0, k as int), feed@)),
            new + unchanged == sightings(events@.subrange(0, k as int), feed@).len(),
            new + unchanged + skipped == k,
            writes.len() == new,
            reg.next_file == r0.next_file + new,
            r0.next_file + events.len() < u64::MAX,
            forall|j: int| 0 <= j < writes.len() ==> #[trigger] writes@[j].file == r0.next_file + j,
            writes.len() == fresh_events(r0, events@.subrange(0, k as int), feed@).len(),
            forall|j: int|
                0 <= j < writes.len() ==> written_for(
                    #[trigger] fresh_events(r0, events@.subrange(0, k as int), feed@)[j],
                    feed@,
                    writes@[j].text@,
                ),
        decreases events.len() - k,
    {
        let ghost pre = events@.subrange(0, k as int);
        let ghost next = events@.subrange(0, k + 1);
        assert(next.drop_last() =~= pre);
        assert(next.last() == events@[k as int]);
        let ev = &events[k];
        match compute_identity(ev) {
            Err(missing) => {
                proof {
                    match missing {
                        crate::identity::MissingField::Start => {},
                        crate::identity::MissingField::End => {},
                        crate::identity::MissingField::Summary => {},
                    }
                }
                assert(sighting_of(*ev, feed@) is None);
                assert(sightings(next, feed@) == sightings(pre, feed@));
                assert(fresh_events(r0, next, feed@) == fresh_events(r0, pre, feed@));
                skipped = skipped + 1;
            },
            Ok(identity) => {
                let ghost s = sighting_of(*ev, feed@)->0;
                assert(sightings(next, feed@) == sightings(pre, feed@).push(s));
                assert(sightings(next, feed@).drop_last() =~= sightings(pre, feed@));
                let h = identity.hash;
                assert(s == (identity.hash, identity.original_uid@, feed@));
                assert(offered_all(r0, sightings(next, feed@)) == crate::registry::offered(
                    offered_all(r0, sightings(pre, feed@)),
                    s,
                ));
                let outcome = reg.offer(&identity, feed);
                seen.push(h);
                assert(hashes_of(sightings(next, feed@)) =~= hashes_of(sightings(pre, feed@)).push(h));
                match outcome {
                    Admission::Unchanged(_) => {
                        assert(fresh_events(r0, next, feed@) == fresh_events(r0, pre, feed@));
                        unchanged = unchanged + 1;
                    },
                    Admission::New(file) => {
                        let t = transform(ev, identity, feed);
                        let text = render_record(&t);
                        proof {
                            if index_of(views_of(ev.properties@), "DTSTAMP"@) is Some {
                                lemma_transformed_stamped(views_of(ev.properties@), uid_of(*ev), feed@);
                            }
                        }
                        let ghost fr = fresh_events(r0, pre, feed@);
                        assert(fresh_events(r0, next, feed@) == fr.push(*ev));
                        let ghost before = writes@;
                        writes.push(RecordWrite { file, text });
                        assert forall|j: int| 0 <= j < writes.len() implies written_for(
                            #[trigger] fresh_events(r0, next, feed@)[j],
                            feed@,
                            writes@[j].text@,
                        ) by {
                            if j < before.len() {
                                assert(writes@[j] == before[j]);
                                assert(fresh_events(r0, next, feed@)[j] == fr[j]);
                            }
                        }
                        new = new + 1;
                    },
                }
            },
        }
        k = k + 1;
    }
    assert(events@.subrange(0, events.len() as int) =~= events@);
    FeedOutcome { writes, new, unchanged, skipped }
}

/// A configured feed and what fetching it gave: its text, or the error.
pub struct FeedInput {
    pub name: String,
    pub fetched: Result<String, String>,
}

/// The counts reported for one feed; `failure` holds why the feed could not
/// be read, in which case the counts are zero.
pub struct FeedReport {
    pub name: String,
    pub new: usize,
    pub unchanged: usize,
    pub removed: usize,
    pub skipped: usize,
    pub failure: Option<String>,
}

/// What a run asks of the output directory, and what it reports.
pub struct SyncPlan {
    pub writes: Vec<RecordWrite>,
    pub removals: Vec<u64>,
    pub reports: Vec<FeedReport>,
}

/// The number of entries that belong to feed `feed`.
pub open spec fn count_feed(es: Seq<EntryView>, feed: Seq<char>) -> nat
    decreases es.len(),
{
    if es.len() == 0 {
        0
    } else {
        count_feed(es.drop_last(), feed) + if es.last().feed == feed {
            1nat
        } else {
            0nat
        }
    }
}

fn count_for_feed(stale: &Vec<RegistryEntry>, feed: &str) -> (r: usize)
    ensures
        r == count_feed(entry_views(stale@), feed@),
{
    let mut n: usize = 0;
    let mut k: usize = 0;
    let ghost es = entry_views(stale@);
    while k < stale.len()
        invariant
            k <= stale.len(),
            es == entry_views(stale@),
            n == count_feed(es.subrange(0, k as int), feed@),
            n <= k,
        decreases stale.len() - k,
    {
        assert(es.subrange(0, k + 1).drop_last() =~= es.subrange(0, k as int));
        assert(es[k as int] == stale@[k as int]@);
        if same_text(stale[k].feed.as_str(), feed) {
            n = n + 1;
        }
        k = k + 1;
    }
    assert(es.subrange(0, stale.len() as int) =~= es);
    n
}

/// A configured feed and what parsing it gave: its events, or why it could
/// not be fetched or parsed.
pub struct ParsedFeed {
    pub name: String,
    pub events: Result<Vec<RawEvent>, String>,
}

/// The identities a run sees, feed after feed.
pub open spec fn run_sightings(feeds: Seq<ParsedFeed>) -> Seq<Sighting>
    decreases feeds.len(),
{
    if feeds.len() == 0 {
        Seq::empty()
    } else {
        let p = run_sightings(feeds.drop_last());
        match feeds.last().events {
            Ok(evs) => p + sightings(evs@, feeds.last().name@),
            Err(_) => p,
        }
    }
}

/// The names of the feeds that could not be read, in order.
pub open spec fn run_failures(feeds: Seq<ParsedFeed>) -> Seq<Seq<char>>
    decreases feeds.len(),
{
    if feeds.len() == 0 {
        Seq::empty()
    } else {
        let p = run_failures(feeds.drop_last());
        match feeds.last().events {
            Ok(_) => p,
            Err(_) => p.push(feeds.last().name@),
        }
    }
}

/// The number of events over the feeds that were read.
pub open spec fn event_total(feeds: Seq<ParsedFeed>) -> int
    decreases feeds.len(),
{
    if feeds.len() == 0 {
        0
    } else {
        event_total(feeds.drop_last()) + match feeds.last().events {
            Ok(evs) => evs.len() as int,
            Err(_) => 0,
        }
    }
}

/// The events a run from `r0` over `ps` writes, each with its feed name,
/// feed after feed.
pub open spec fn run_fresh(r0: RegistryView, ps: Seq<ParsedFeed>) -> Seq<(RawEvent, Seq<char>)>
    decreases ps.len(),
{
    if ps.len() == 0 {
        Seq::empty()
    } else {
        let p = run_fresh(r0, ps.drop_last());
        match ps.last().events {
            Ok(evs) => p + fresh_events(
                offered_all(r0, run_sightings(ps.drop_last())),
                evs@,
                ps.last().name@,
            ).map_values(|e: RawEvent| (e, ps.last().name@)),
            Err(_) => p,
        }
    }
}

/// The report of feed `k` of a run from registry `r0`, but for its count
/// of removed entries: a feed that was read gets the counts of its events,
/// one that was not gets its error and zero counts.
pub open spec fn report_counts(r0: RegistryView, ps: Seq<ParsedFeed>, k: int, rep: FeedReport) -> bool {
    let before = offered_all(r0, run_sightings(ps.subrange(0, k)));
    &&& rep.name@ == ps[k].name@
    &&& match ps[k].events {
        Ok(evs) => {
            let ss = sightings(evs@, ps[k].name@);
            &&& rep.failure is None
            &&& rep.new == offered_all(before, ss).next_file - before.next_file
            &&& rep.new + rep.unchanged == ss.len()
            &&& rep.skipped == evs.len() - ss.len()
        },
        Err(e) => rep.failure == Some(e) && rep.new == 0 && rep.unchanged == 0 && rep.skipped == 0,
    }
}

/// The entries a run from `r0` over `ps` finds stale.
pub open spec fn run_stale(r0: RegistryView, ps: Seq<ParsedFeed>) -> Seq<EntryView> {
    stale(offered_all(r0, run_sightings(ps)).entries, hashes_of(run_sightings(ps)), run_failures(ps))
}

/// The full report of feed `k`: its counts, and as removed the number of
/// stale entries that belong to it.
pub open spec fn report_of(r0: RegistryView, ps: Seq<ParsedFeed>, k: int, rep: FeedReport) -> bool {
    report_counts(r0, ps, k, rep) && rep.removed == count_feed(run_stale(r0, ps), ps[k].name@)
}

proof fn lemma_event_total_nonneg(feeds: Seq<ParsedFeed>)
    ensures
        event_total(feeds) >= 0,
    decreases feeds.len(),
{
    if feeds.len() > 0 {
        lemma_event_total_nonneg(feeds.drop_last());
    }
}

/// Runs one synchronisation over parsed feeds: each feed that was read is
/// processed in order, each one that was not is reported as failed and its
/// registry entries are kept; then every entry neither seen in this run nor
/// belonging to a failed feed is dropped and its file listed for removal.
pub fn sync_parsed(reg: &mut Registry, feeds: &Vec<ParsedFeed>) -> (r: SyncPlan)
    requires
        registry_wf(old(reg)@),
        old(reg).next_file + event_total(feeds@) < u64::MAX,
    ensures
        registry_wf(final(reg)@),
        final(reg)@ == after_run(old(reg)@, run_sightings(feeds@), run_failures(feeds@)),
        r.removals@ == removed_in_run(old(reg)@, run_sightings(feeds@), run_failures(feeds@)),
        r.writes.len() == final(reg).next_file - old(reg).next_file,
        forall|k: int| 0 <= k < r.writes.len() ==> #[trigger] r.writes@[k].file == old(reg).next_file + k,
        r.reports.len() == feeds.len(),
        forall|k: int| 0 <= k < feeds.len() ==> report_of(old(reg)@, feeds@, k, #[trigger] r.reports@[k]),
        r.writes.len() == run_fresh(old(reg)@, feeds@).len(),
        forall|k: int|
            0 <= k < r.writes.len() ==> written_for(
                (#[trigger] run_fresh(old(reg)@, feeds@)[k]).0,
                run_fresh(old(reg)@, feeds@)[k].1,
                r.writes@[k].text@,
            ),
{
    let mut writes: Vec<RecordWrite> = Vec::new();
    let mut reports: Vec<FeedReport> = Vec::new();
    let mut seen: Vec<i128> = Vec::new();
    let mut failed: Vec<String> = Vec::new();
    let mut k: usize = 0;
    let ghost r0 = reg@;
    proof {
        lemma_event_total_nonneg(feeds@);
    }
    while k < feeds.len()
        invariant
            k <= feeds.len(),
            r0 == old(reg)@,
            registry_wf(reg@),
            reg@ == offered_all(r0, run_sightings(feeds@.subrange(0, k as int))),
            seen@ == hashes_of(run_sightings(feeds@.subrange(0, k as int))),
            names_of(failed@) == run_failures(feeds@.subrange(0, k as int)),
            r0.next_file + event_total(feeds@) < u64::MAX,
            reg.next_file + (event_total(feeds@) - event_total(feeds@.subrange(0, k as int))) < u64::MAX,
            event_total(feeds@) - event_total(feeds@.subrange(0, k as int)) >= 0,
            writes.len() == reg.next_file - r0.next_file,
            forall|j: int| 0 <= j < writes.len() ==> #[trigger] writes@[j].file == r0.next_file + j,
            reports.len() == k,
            forall|j: int| 0 <= j < k ==> report_counts(r0, feeds@, j, #[trigger] reports@[j]),
            writes.len() == run_fresh(r0, feeds@.subrange(0, k as int)).len(),
            forall|j: int|
                0 <= j < writes.len() ==> written_for(
                    (#[trigger] run_fresh(r0, feeds@.subrange(0, k as int))[j]).0,
                    run_fresh(r0, feeds@.subrange(0, k as int))[j].1,
                    writes@[j].text@,
                ),
        decreases feeds.len() - k,
    {
        let ghost pre = feeds@.subrange(0, k as int);
        assert(feeds@.subrange(0, k as int) == pre);
        let ghost next = feeds@.subrange(0, k + 1);
        assert(next.drop_last() =~= pre);
        assert(next.last() == feeds@[k as int]);
        proof {
            lemma_event_total_split(feeds@, k as int);
        }
        let feed = &feeds[k];
        let name = feed.name.clone();
        match &feed.events {
            Ok(events) => {
                let ghost ss = sightings(events@, feed.name@);
                let ghost before = writes@;
                let ghost n0 = reg.next_file;
                let ghost reg_before = reg@;
                assert(reg_before == offered_all(r0, run_sightings(next.drop_last())));
                let mut outcome = process_feed(reg, name.as_str(), events, &mut seen);
                proof {
                    lemma_offered_concat(r0, run_sightings(pre), ss);
                    assert(hashes_of(run_sightings(pre) + ss) =~= hashes_of(run_sightings(pre)) + hashes_of(ss));
                }
                let n = outcome.writes.len();
                let mut j: usize = 0;
                while j < n
                    invariant
                        j <= n,
                        n == outcome.writes.len(),
                        writes.len() == before.len() + j,
                        forall|i: int| 0 <= i < before.len() ==> #[trigger] writes@[i] == before[i],
                        forall|i: int| 0 <= i < j ==> #[trigger] writes@[before.len() + i].file == outcome.writes@[i].file
                            && writes@[before.len() + i].text == outcome.writes@[i].text,
                    decreases n - j,
                {
                    let w = RecordWrite { file: outcome.writes[j].file, text: outcome.writes[j].text.clone() };
                    writes.push(w);
                    j = j + 1;
                }
                assert forall|i: int| 0 <= i < writes.len() implies #[trigger] writes@[i].file == r0.next_file + i by {
                    if i >= before.len() {
                        assert(writes@[before.len() + (i - before.len())].file == outcome.writes@[i - before.len()].file);
                    } else {
                        assert(writes@[i] == before[i]);
                    }
                }
                let ghost fr = run_fresh(r0, next);
                let ghost fp = run_fresh(r0, pre);
                let ghost fe = fresh_events(reg_before, events@, feed.name@);
                assert(fr == fp + fe.map_values(|e: RawEvent| (e, feed.name@)));
                assert forall|i: int| 0 <= i < writes.len() implies written_for(
                    (#[trigger] fr[i]).0,
                    fr[i].1,
                    writes@[i].text@,
                ) by {
                    if i >= before.len() {
                        let q = i - before.len();
                        assert(writes@[before.len() + q].file == outcome.writes@[q].file);
                        assert(writes@[before.len() + q].text == outcome.writes@[q].text);
                        assert(fr[i] == (fe[q], feed.name@));
                    } else {
                        assert(writes@[i] == before[i]);
                        assert(fr[i] == fp[i]);
                    }
                }
                reports.push(
                    FeedReport {
                        name,
                        new: outcome.new,
                        unchanged: outcome.unchanged,
                        removed: 0,
                        skipped: outcome.skipped,
                        failure: None,
                    },
                );
            },
            Err(e) => {
                failed.push(feed.name.clone());
                assert(names_of(failed@) =~= run_failures(pre).push(feed.name@));
                assert(run_fresh(r0, next) == run_fresh(r0, pre));
                reports.push(
                    FeedReport {
                        name,
                        new: 0,
                        unchanged: 0,
                        removed: 0,
                        skipped: 0,
                        failure: Some(e.clone()),
                    },
                );
            },
        }
        k = k + 1;
    }
    assert(feeds@.subrange(0, feeds.len() as int) =~= feeds@);
    let stale = reg.stale_entries(&seen, &failed);
    let removals = reg.remove_stale(&seen, &failed);
    let mut j: usize = 0;
    while j < reports.len()
        invariant
            reports.len() == feeds.len(),
            j <= reports.len(),
            entry_views(stale@) == run_stale(r0, feeds@),
            forall|i: int| 0 <= i < feeds.len() ==> report_counts(r0, feeds@, i, #[trigger] reports@[i]),
            forall|i: int| 0 <= i < j ==> #[trigger] reports@[i].removed == count_feed(run_stale(r0, feeds@), feeds@[i].name@),
        decreases reports.len() - j,
    {
        let removed = count_for_feed(&stale, reports[j].name.as_str());
        reports[j].removed = removed;
        j = j + 1;
    }
    SyncPlan { writes, removals, reports }
}

proof fn lemma_event_total_split(feeds: Seq<ParsedFeed>, k: int)
    requires
        0 <= k < feeds.len(),
    ensures
        event_total(feeds.subrange(0, k + 1)) == event_total(feeds.subrange(0, k)) + match feeds[k].events {
            Ok(evs) => evs.len() as int,
            Err(_) => 0,
        },
        event_total(feeds.subrange(0, k + 1)) <= event_total(feeds),
    decreases feeds.len(),
{
    assert(feeds.subrange(0, k + 1).drop_last() =~= feeds.subrange(0, k));
    if k + 1 < feeds.len() {
        assert(feeds.drop_last().subrange(0, k + 1) =~= feeds.subrange(0, k + 1));
        assert(feeds.drop_last().subrange(0, k) =~= feeds.subrange(0, k));
        lemma_event_total_split(feeds.drop_last(), k);
        match feeds.last().events {
            Ok(evs) => {},
            Err(_) => {},
        }
    } else {
        assert(feeds.subrange(0, k + 1) =~= feeds);
    }
}

/// A fetched feed and the parsed feed it became: its text parsed, or its
/// fetch error carried over.
pub open spec fn parsed_from(f: FeedInput, p: ParsedFeed) -> bool {
    &&& p.name@ == f.name@
    &&& match f.fetched {
        Ok(t) => parse_outcome(t@, p.events),
        Err(e) => p.events == Err::<Vec<RawEvent>, String>(e),
    }
}

/// A run from `r0` to `r1` with plan `plan` over the fetched feeds, which
/// parsed into `ps`: where the registry can number every event it is the run
/// over `ps`; where it cannot, nothing changes and every feed is failed.
pub open spec fn run_matches(
    feeds: Seq<FeedInput>,
    ps: Seq<ParsedFeed>,
    r0: RegistryView,
    r1: RegistryView,
    plan: SyncPlan,
) -> bool {
    &&& ps.len() == feeds.len()
    &&& forall|k: int| 0 <= k < ps.len() ==> parsed_from(feeds[k], #[trigger] ps[k])
    &&& r0.next_file + event_total(ps) < u64::MAX ==> {
        &&& r1 == after_run(r0, run_sightings(ps), run_failures(ps))
        &&& plan.removals@ == removed_in_run(r0, run_sightings(ps), run_failures(ps))
        &&& plan.writes.len() == r1.next_file - r0.next_file
        &&& plan.writes.len() == run_fresh(r0, ps).len()
        &&& forall|k: int|
            0 <= k < plan.writes.len() ==> written_for(
                (#[trigger] run_fresh(r0, ps)[k]).0,
                run_fresh(r0, ps)[k].1,
                plan.writes@[k].text@,
            )
        &&& forall|k: int| 0 <= k < ps.len() ==> report_of(r0, ps, k, #[trigger] plan.reports@[k])
    }
    &&& r0.next_file + event_total(ps) >= u64::MAX ==> {
        &&& r1 == r0
        &&& plan.writes.len() == 0
        &&& plan.removals.len() == 0
        &&& forall|k: int| 0 <= k < ps.len() ==> (#[trigger] plan.reports@[k]).failure is Some
    }
}

/// Runs one synchronisation over the fetched feeds: each fetched text is
/// parsed, and the run goes on as `sync_parsed` says. Where the registry
/// could not number all the events, nothing changes and every feed is
/// reported as failed.
pub fn sync(reg: &mut Registry, feeds: &Vec<FeedInput>) -> (r: SyncPlan)
    requires
        registry_wf(old(reg)@),
    ensures
        registry_wf(final(reg)@),
        r.reports.len() == feeds.len(),
        forall|k: int| 0 <= k < feeds.len() ==> #[trigger] r.reports@[k].name@ == feeds@[k].name@,
        exists|ps: Seq<ParsedFeed>| run_matches(feeds@, ps, old(reg)@, final(reg)@, r),
{
    let mut parsed: Vec<ParsedFeed> = Vec::new();
    let mut total: u64 = 0;
    let mut fits: bool = true;
    let mut k: usize = 0;
    while k < feeds.len()
        invariant
            k <= feeds.len(),
            parsed.len() == k,
            forall|j: int| 0 <= j < k ==> parsed_from(feeds@[j], #[trigger] parsed@[j]),
            fits ==> total == event_total(parsed@),
            !fits ==> event_total(parsed@) >= u64::MAX,
        decreases feeds.len() - k,
    {
        let feed = &feeds[k];
        let events: Result<Vec<RawEvent>, String> = match &feed.fetched {
            Ok(text) => parse_feed(text.as_str()),
            Err(e) => Err(e.clone()),
        };
        let n: usize = match &events {
            Ok(evs) => evs.len(),
            Err(_) => 0,
        };
        let ghost before = parsed@;
        proof {
            lemma_event_total_nonneg(before);
        }
        parsed.push(ParsedFeed { name: feed.name.clone(), events });
        assert(parsed@.drop_last() =~= before);
        assert(event_total(parsed@) == event_total(before) + n);
        if fits && (n as u64) < u64::MAX - total {
            total = total + n as u64;
        } else {
            fits = false;
        }
        k = k + 1;
    }
    if fits && reg.next_file < u64::MAX - total {
        let r = sync_parsed(reg, &parsed);
        assert(run_matches(feeds@, parsed@, old(reg)@, reg@, r));
        r
    } else {
        let mut reports: Vec<FeedReport> = Vec::new();
        let mut j: usize = 0;
        while j < feeds.len()
            invariant
                j <= feeds.len(),
                reports.len() == j,
                forall|i: int| 0 <= i < j ==> #[trigger] reports@[i].name@ == feeds@[i].name@
                    && reports@[i].failure is Some,
            decreases feeds.len() - j,
        {
            reports.push(
                FeedReport {
                    name: feeds[j].name.clone(),
                    new: 0,
                    unchanged: 0,
                    removed: 0,
                    skipped: 0,
                    failure: Some("the registry has no file numbers left".to_owned()),
                },
            );
            j = j + 1;
        }
        let r = SyncPlan { writes: Vec::new(), removals: Vec::new(), reports };
        proof {
            lemma_event_total_nonneg(parsed@);
        }
        assert(old(reg).next_file + event_total(parsed@) >= u64::MAX);
        assert forall|i: int| 0 <= i < parsed@.len() implies (#[trigger] r.reports@[i]).failure is Some by {
            assert(reports@[i].name@ == feeds@[i].name@);
        }
        assert(run_matches(feeds@, parsed@, old(reg)@, reg@, r));
        r
    }
}

} // verus!
