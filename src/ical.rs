//! The calls into the icalendar crate: unfolding and parsing feed text into
//! events, and serialising one event.

use vstd::prelude::*;
use icalendar::Component;
use crate::event::{EventProperty, PropertyView, RawEvent, index_of, views_of};
use crate::text::starts_with;

verus! {

/// The pieces of `s` between the occurrences of `p`, found left to right,
/// as `str::split` yields them.
pub open spec fn split_pieces(s: Seq<char>, p: Seq<char>) -> Seq<Seq<char>>
    decreases s.len(),
{
    if p.len() == 0 || s.len() < p.len() {
        seq![s]
    } else if s.subrange(0, p.len() as int) == p {
        seq![Seq::empty()] + split_pieces(s.subrange(p.len() as int, s.len() as int), p)
    } else {
        let q = split_pieces(s.subrange(1, s.len() as int), p);
        q.update(0, seq![s[0]] + q[0])
    }
}

/// `s` split at each pattern in turn, each piece split further by the
/// patterns that follow, and every piece concatenated back.
pub open spec fn split_join(s: Seq<char>, pats: Seq<Seq<char>>) -> Seq<char>
    decreases pats.len(), 0nat,
{
    if pats.len() == 0 {
        s
    } else {
        split_join_all(split_pieces(s, pats[0]), pats.drop_first())
    }
}

pub open spec fn split_join_all(pieces: Seq<Seq<char>>, pats: Seq<Seq<char>>) -> Seq<char>
    decreases pats.len(), 1 + pieces.len(),
{
    if pieces.len() == 0 {
        Seq::empty()
    } else {
        split_join_all(pieces.drop_last(), pats) + split_join(pieces.last(), pats)
    }
}

/// The four fold markers icalendar removes: a line break followed by a
/// space or a tab.
pub open spec fn fold_markers() -> Seq<Seq<char>> {
    seq![seq!['\r', '\n', ' '], seq!['\n', ' '], seq!['\r', '\n', '\t'], seq!['\n', '\t']]
}

/// What icalendar's unfolding makes of a text.
pub open spec fn unfolded_of(s: Seq<char>) -> Seq<char> {
    split_join(s, fold_markers())
}

/// Relies on `icalendar::parser::unfold`, which splits the text at `\r\n `,
/// each piece at `\n `, then at `\r\n\t`, then at `\n\t`, and
/// concatenates the pieces.
#[verifier::external_body]
pub(crate) fn unfold(text: &str) -> (r: String)
    ensures
        r@ == unfolded_of(text@),
{
    icalendar::parser::unfold(text)
}

/// The events icalendar's parser reads from a text, each as its
/// single-valued and its repeatable properties; `None` where it refuses the
/// text.
pub uninterp spec fn parsed_events_of(t: Seq<char>) -> Option<
    Seq<(Seq<PropertyView>, Seq<PropertyView>)>,
>;

/// An event as the pair of its property views.
pub open spec fn event_view(e: RawEvent) -> (Seq<PropertyView>, Seq<PropertyView>) {
    (views_of(e.properties@), views_of(e.multi_properties@))
}

pub open spec fn event_views(v: Seq<RawEvent>) -> Seq<(Seq<PropertyView>, Seq<PropertyView>)> {
    v.map_values(|e: RawEvent| event_view(e))
}

/// Relies on `icalendar::parser::read_calendar`, the conversion of its result
/// into `icalendar::Calendar`, and `Calendar::events`: the event components
/// in order, each converted property by property. The parser and its maps
/// are deterministic, so the result depends on the text alone; an error
/// carries the parser's message.
#[verifier::external_body]
pub(crate) fn parse_events(text: &str) -> (r: Result<Vec<RawEvent>, String>)
    ensures
        r is Err <==> parsed_events_of(text@) is None,
        r matches Ok(evs) ==> parsed_events_of(text@) == Some(event_views(evs@)),
{
    let conv = |p: &icalendar::Property| EventProperty {
        name: p.key().to_string(),
        params: p.params().values().map(|q| (q.key().to_string(), q.value().to_string())).collect(),
        value: p.value().to_string(),
    };
    let cal = icalendar::Calendar::from(icalendar::parser::read_calendar(text)?);
    Ok(cal.events().map(|e| RawEvent {
        properties: e.properties().values().map(conv).collect(),
        multi_properties: e.multi_properties().values().flatten().map(conv).collect(),
    }).collect())
}

/// What icalendar writes for a calendar holding one event with these
/// properties, where the event has both a `DTSTAMP` and a `UID`.
pub uninterp spec fn serialized_of(props: Seq<PropertyView>, multi: Seq<PropertyView>) -> Seq<char>;

pub open spec fn calendar_begin() -> Seq<char> {
    "BEGIN:VCALENDAR\r\n"@
}

/// Relies on icalendar's `Display` for `Calendar` (`Calendar::fmt_write`):
/// the text opens with the `BEGIN:VCALENDAR` line. It stamps the current time
/// where the event has no `DTSTAMP` and a random uid where it has no `UID`;
/// with both present the text depends on the properties alone.
#[verifier::external_body]
pub(crate) fn serialize_event(ev: &RawEvent) -> (r: String)
    ensures
        starts_with(r@, calendar_begin()),
        index_of(views_of(ev.properties@), "DTSTAMP"@) is Some && index_of(
            views_of(ev.properties@),
            "UID"@,
        ) is Some ==> r@ == serialized_of(views_of(ev.properties@), views_of(ev.multi_properties@)),
{
    let conv = |p: &EventProperty| {
        let mut q = icalendar::Property::new(p.name.as_str(), p.value.as_str());
        p.params.iter().for_each(|(k, v)| { q.add_parameter(k, v); });
        q
    };
    let mut event = icalendar::Event::new();
    ev.properties.iter().for_each(|p| { event.append_property(conv(p)); });
    ev.multi_properties.iter().for_each(|p| { event.append_multi_property(conv(p)); });
    icalendar::Calendar::new().push(event).done().to_string()
}

} // verus!
