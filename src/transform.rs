//! The downstream-safe form of an event: marked description, feed category,
//! and the uid, recurrence rule and transparency cleared.

use vstd::prelude::*;
use crate::event::{
    EventProperty, PropertyView, RawEvent, property_value, same_text, set_property, views_of,
    with_property,
};
use crate::event::param_views;
use crate::identity::{EventIdentity, uid_of};
use crate::text::{chars_of, occurs_at, push_all, string_of};

verus! {

/// The line that precedes the upstream uid in a marked description, with the
/// escaped line break that ends it.
pub open spec fn marker_line() -> Seq<char> {
    "do not edit next line:\\n"@
}

/// The escaped line break put between an existing description and the marker.
pub open spec fn separator() -> Seq<char> {
    "\\n"@
}

/// The uid written into the marker: the upstream one, or `no UID`.
pub open spec fn marker_uid(uid: Option<Seq<char>>) -> Seq<char> {
    match uid {
        Some(u) => u,
        None => "no UID"@,
    }
}

/// A description followed by the marker and the uid.
pub open spec fn marked_description(desc: Seq<char>, uid: Seq<char>) -> Seq<char> {
    (if desc.len() > 0 {
        desc + separator()
    } else {
        Seq::empty()
    }) + marker_line() + uid
}

/// `ps` without the properties named `name`.
pub open spec fn without_name(ps: Seq<PropertyView>, name: Seq<char>) -> Seq<PropertyView>
    decreases ps.len(),
{
    if ps.len() == 0 {
        Seq::empty()
    } else {
        let p = without_name(ps.drop_last(), name);
        if ps.last().name == name {
            p
        } else {
            p.push(ps.last())
        }
    }
}

/// The single-valued properties of the transformed event made from `ps`.
pub open spec fn transformed_properties(ps: Seq<PropertyView>, uid: Option<Seq<char>>, category: Seq<
    char,
>) -> Seq<PropertyView> {
    let desc = match crate::event::value_of(ps, "DESCRIPTION"@) {
        Some(d) => d,
        None => Seq::empty(),
    };
    let p1 = with_property(ps, "DESCRIPTION"@, marked_description(desc, marker_uid(uid)));
    let p2 = with_property(p1, "CATEGORIES"@, category);
    let p3 = with_property(p2, "UID"@, ""@);
    let p4 = with_property(p3, "TRANSP"@, ""@);
    with_property(p4, "RRULE"@, ""@)
}

/// An event ready to be rendered, with the identity it was admitted under.
#[derive(Clone, Debug)]
pub struct TransformedEvent {
    pub identity: EventIdentity,
    pub category: String,
    pub body: RawEvent,
}

/// Appends the marker and `uid` to `desc`, after an escaped line break where
/// `desc` is not empty.
pub fn mark_description(desc: &str, uid: &str) -> (r: String)
    ensures
        r@ == marked_description(desc@, uid@),
{
    let mut out: Vec<char> = chars_of(desc);
    if out.len() > 0 {
        let sep = chars_of("\\n");
        push_all(&mut out, &sep);
    }
    let marker = chars_of("do not edit next line:\\n");
    push_all(&mut out, &marker);
    let u = chars_of(uid);
    push_all(&mut out, &u);
    assert(out@ =~= marked_description(desc@, uid@));
    string_of(&out)
}

/// Removes every property named `name`.
pub fn remove_named(ps: &Vec<EventProperty>, name: &str) -> (r: Vec<EventProperty>)
    ensures
        views_of(r@) == without_name(views_of(ps@), name@),
{
    let mut out: Vec<EventProperty> = Vec::new();
    let mut k: usize = 0;
    let ghost vs = views_of(ps@);
    while k < ps.len()
        invariant
            k <= ps.len(),
            vs == views_of(ps@),
            views_of(out@) == without_name(vs.subrange(0, k as int), name@),
        decreases ps.len() - k,
    {
        assert(vs.subrange(0, k + 1).drop_last() =~= vs.subrange(0, k as int));
        if !same_text(ps[k].name.as_str(), name) {
            let p = EventProperty {
                name: ps[k].name.clone(),
                params: clone_params(&ps[k].params),
                value: ps[k].value.clone(),
            };
            out.push(p);
            assert(views_of(out@) =~= without_name(vs.subrange(0, k + 1), name@));
        }
        k = k + 1;
    }
    assert(vs.subrange(0, ps.len() as int) =~= vs);
    out
}

fn clone_params(v: &Vec<(String, String)>) -> (r: Vec<(String, String)>)
    ensures
        param_views(r@) == param_views(v@),
{
    let mut out: Vec<(String, String)> = Vec::new();
    let mut k: usize = 0;
    while k < v.len()
        invariant
            k <= v.len(),
            out.len() == k,
            param_views(out@) == param_views(v@.subrange(0, k as int)),
        decreases v.len() - k,
    {
        let a = v[k].0.clone();
        let b = v[k].1.clone();
        assert(a == v@[k as int].0);
        assert(b == v@[k as int].1);
        let ghost before = out@;
        out.push((a, b));
        assert(out@.len() == k + 1);
        assert(out@[k as int] == (a, b));
        assert(param_views(out@)[k as int] == (a@, b@));
        k = k + 1;
        assert forall|j: int| 0 <= j < k implies #[trigger] param_views(out@)[j] == param_views(
            v@.subrange(0, k as int),
        )[j] by {
            if j < k - 1 {
                assert(param_views(before)[j] == param_views(v@.subrange(0, k - 1))[j]);
            }
        }
        assert(param_views(out@) =~= param_views(v@.subrange(0, k as int)));
    }
    assert(v@.subrange(0, v.len() as int) =~= v@);
    out
}

fn clone_properties(v: &Vec<EventProperty>) -> (r: Vec<EventProperty>)
    ensures
        views_of(r@) == views_of(v@),
{
    let mut out: Vec<EventProperty> = Vec::new();
    let mut k: usize = 0;
    while k < v.len()
        invariant
            k <= v.len(),
            out.len() == k,
            views_of(out@) == views_of(v@.subrange(0, k as int)),
        decreases v.len() - k,
    {
        let p = EventProperty {
            name: v[k].name.clone(),
            params: clone_params(&v[k].params),
            value: v[k].value.clone(),
        };
        let ghost before = out@;
        assert(p@ =~= v@[k as int]@);
        out.push(p);
        assert(out@.len() == k + 1);
        assert(views_of(out@)[k as int] == v@[k as int]@);
        k = k + 1;
        assert forall|j: int| 0 <= j < k implies #[trigger] views_of(out@)[j] == views_of(
            v@.subrange(0, k as int),
        )[j] by {
            if j < k - 1 {
                assert(views_of(before)[j] == views_of(v@.subrange(0, k - 1))[j]);
            }
        }
        assert(views_of(out@) =~= views_of(v@.subrange(0, k as int)));
    }
    assert(v@.subrange(0, v.len() as int) =~= v@);
    out
}

/// The downstream-safe form of `ev` for the feed named `category`: the
/// description carries the marker and the upstream uid, the category is the
/// feed name (and no other category remains), and uid, recurrence rule and
/// transparency are set to empty values.
pub fn transform(ev: &RawEvent, identity: EventIdentity, category: &str) -> (r: TransformedEvent)
    ensures
        r.identity == identity,
        r.category@ == category@,
        views_of(r.body.properties@) == transformed_properties(
            views_of(ev.properties@),
            uid_of(*ev),
            category@,
        ),
        views_of(r.body.multi_properties@) == without_name(
            views_of(ev.multi_properties@),
            "CATEGORIES"@,
        ),
{
    let uid: String = match property_value(&ev.properties, "UID") {
        Some(u) => u.clone(),
        None => "no UID".to_owned(),
    };
    let desc: String = match property_value(&ev.properties, "DESCRIPTION") {
        Some(d) => d.clone(),
        None => String::new(),
    };
    let marked = mark_description(desc.as_str(), uid.as_str());
    let mut props = clone_properties(&ev.properties);
    set_property(&mut props, "DESCRIPTION", marked.as_str());
    set_property(&mut props, "CATEGORIES", category);
    set_property(&mut props, "UID", "");
    set_property(&mut props, "TRANSP", "");
    set_property(&mut props, "RRULE", "");
    let multi = remove_named(&ev.multi_properties, "CATEGORIES");
    TransformedEvent {
        identity,
        category: category.to_owned(),
        body: RawEvent { properties: props, multi_properties: multi },
    }
}

/// The marker line without its closing line break, `do not edit next line:`.
pub open spec fn marker_head() -> Seq<char> {
    marker_line().subrange(0, 22)
}

/// Where the marker line starts in a marked description.
pub open spec fn marker_position(desc: Seq<char>) -> int {
    if desc.len() > 0 {
        desc.len() + 2int
    } else {
        0
    }
}

/// A marked description holds the marker line exactly once, followed by
/// the uid, wherever neither the description nor the uid holds the
/// marker's text.
pub proof fn lemma_marker_once(desc: Seq<char>, uid: Seq<char>)
    requires
        forall|i: int| !occurs_at(desc, i, marker_head()),
        forall|i: int| !occurs_at(uid, i, marker_head()),
    ensures
        occurs_at(marked_description(desc, uid), marker_position(desc), marker_line()),
        marked_description(desc, uid).subrange(
            marker_position(desc) + marker_line().len(),
            marked_description(desc, uid).len() as int,
        ) == uid,
        forall|j: int|
            occurs_at(marked_description(desc, uid), j, marker_line()) ==> j == marker_position(
                desc,
            ),
{
    reveal_strlit("do not edit next line:\\n");
    reveal_strlit("\\n");
    let ml = marker_line();
    let m = marked_description(desc, uid);
    let at = marker_position(desc);
    let head = if desc.len() > 0 {
        desc + separator()
    } else {
        Seq::empty()
    };
    assert(m == head + ml + uid);
    assert(head.len() == at);
    assert(ml.len() == 24);
    assert(ml[0] == 'd');
    assert(ml[22] == '\\');
    assert(ml[23] == 'n');
    assert(forall|k: int| 0 <= k < 22 ==> ml[k] != '\\');
    assert(m.subrange(at, at + 24) =~= ml);
    assert(m.subrange(at + 24, m.len() as int) =~= uid);
    assert(forall|k: int| 0 <= k < 24 ==> m[at + k] == ml[k]);
    assert(forall|k: int| 0 <= k < uid.len() ==> m[at + 24 + k] == uid[k]);
    assert(forall|k: int| 0 <= k < desc.len() ==> m[k] == desc[k]);
    if desc.len() > 0 {
        assert(m[desc.len() as int] == '\\');
        assert(m[desc.len() + 1int] == 'n');
    }
    assert forall|j: int| occurs_at(m, j, ml) implies j == at by {
        assert(forall|k: int| 0 <= k < 24 ==> m[j + k] == #[trigger] ml[k]) by {
            assert forall|k: int| 0 <= k < 24 implies m[j + k] == #[trigger] ml[k] by {
                assert(m.subrange(j, j + 24)[k] == m[j + k]);
            }
        }
        if j + 22 <= desc.len() {
            assert(desc.subrange(j, j + 22) =~= marker_head());
            assert(occurs_at(desc, j, marker_head()));
        } else if j >= at + 24 {
            assert(uid.subrange(j - at - 24, j - at - 2) =~= marker_head());
            assert(occurs_at(uid, j - at - 24, marker_head()));
        } else if j < at {
            if j < desc.len() {
                let k = desc.len() - j;
                assert(m[j + k] == ml[k]);
            } else if j == desc.len() {
                assert(m[j + 0] == ml[0]);
            } else {
                assert(m[j + 0] == ml[0]);
            }
        } else if j > at {
            if j < at + 22 {
                let k = at + 22 - j;
                assert(m[j + k] == ml[k]);
            } else {
                assert(m[j + 0] == ml[0]);
            }
        }
    }
}

} // verus!
