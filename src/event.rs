//! The library's own record of one calendar event: its properties as plain
//! strings. Events read by the parser list their properties in name order,
//! as icalendar keeps them.

use vstd::prelude::*;
use crate::text::chars_of;

verus! {

/// One content line of an event: name, parameters and value.
#[derive(Clone, Debug)]
pub struct EventProperty {
    pub name: String,
    pub params: Vec<(String, String)>,
    pub value: String,
}

pub struct PropertyView {
    pub name: Seq<char>,
    pub params: Seq<(Seq<char>, Seq<char>)>,
    pub value: Seq<char>,
}

/// The parameters of a property as pairs of character sequences.
pub open spec fn param_views(v: Seq<(String, String)>) -> Seq<(Seq<char>, Seq<char>)> {
    Seq::new(v.len(), |i: int| (v[i].0@, v[i].1@))
}

impl View for EventProperty {
    type V = PropertyView;

    open spec fn view(&self) -> PropertyView {
        PropertyView {
            name: self.name@,
            params: param_views(self.params@),
            value: self.value@,
        }
    }
}

/// An event as parsed from a feed. Properties of which an event holds one
/// (start, summary, uid, ...) are in `properties`, with distinct names and in
/// name order in what the parser hands over; repeatable ones (attendees,
/// ...) are in `multi_properties`, grouped by name in name order.
#[derive(Clone, Debug)]
pub struct RawEvent {
    pub properties: Vec<EventProperty>,
    pub multi_properties: Vec<EventProperty>,
}

pub open spec fn views_of(v: Seq<EventProperty>) -> Seq<PropertyView> {
    v.map_values(|p: EventProperty| p@)
}

/// Index of the first property named `name`, if any.
pub open spec fn index_of(ps: Seq<PropertyView>, name: Seq<char>) -> Option<int>
    decreases ps.len(),
{
    if ps.len() == 0 {
        None
    } else {
        match index_of(ps.drop_last(), name) {
            Some(i) => Some(i),
            None => if ps.last().name == name {
                Some(ps.len() - 1)
            } else {
                None
            },
        }
    }
}

/// The value of the first property named `name`, if any.
pub open spec fn value_of(ps: Seq<PropertyView>, name: Seq<char>) -> Option<Seq<char>> {
    match index_of(ps, name) {
        Some(i) => Some(ps[i].value),
        None => None,
    }
}

/// `ps` with the property `name` set to `value` with no parameters: the first
/// one of that name is replaced in place, or one is appended.
pub open spec fn with_property(ps: Seq<PropertyView>, name: Seq<char>, value: Seq<char>) -> Seq<
    PropertyView,
> {
    let p = PropertyView { name, params: Seq::empty(), value };
    match index_of(ps, name) {
        Some(i) => ps.update(i, p),
        None => ps.push(p),
    }
}

pub proof fn lemma_index_of_bounds(ps: Seq<PropertyView>, name: Seq<char>)
    ensures
        match index_of(ps, name) {
            Some(i) => 0 <= i < ps.len() && ps[i].name == name && forall|j: int|
                0 <= j < i ==> ps[j].name != name,
            None => forall|j: int| 0 <= j < ps.len() ==> ps[j].name != name,
        },
    decreases ps.len(),
{
    if ps.len() > 0 {
        let d = ps.drop_last();
        lemma_index_of_bounds(d, name);
        assert forall|j: int| 0 <= j < d.len() implies d[j] == ps[j] by {}
    }
}

pub(crate) fn same_text(a: &str, b: &str) -> (r: bool)
    ensures
        r == (a@ == b@),
{
    let x = chars_of(a);
    let y = chars_of(b);
    if x.len() != y.len() {
        return false;
    }
    let mut k: usize = 0;
    while k < x.len()
        invariant
            x@ == a@,
            y@ == b@,
            x.len() == y.len(),
            k <= x.len(),
            forall|j: int| 0 <= j < k ==> x@[j] == y@[j],
        decreases x.len() - k,
    {
        if x[k] != y[k] {
            return false;
        }
        k = k + 1;
    }
    assert(x@ =~= y@);
    true
}

/// Index of the first property named `name`.
pub fn find_property(ps: &Vec<EventProperty>, name: &str) -> (r: Option<usize>)
    ensures
        r matches Some(i) ==> index_of(views_of(ps@), name@) == Some(i as int),
        r is None ==> index_of(views_of(ps@), name@) is None,
{
    let mut k: usize = 0;
    let ghost vs = views_of(ps@);
    while k < ps.len()
        invariant
            k <= ps.len(),
            vs == views_of(ps@),
            index_of(vs.subrange(0, k as int), name@) is None,
        decreases ps.len() - k,
    {
        let ghost pre = vs.subrange(0, k as int);
        let ghost next = vs.subrange(0, k + 1);
        assert(next.drop_last() =~= pre);
        if same_text(ps[k].name.as_str(), name) {
            proof {
                lemma_index_of_extend(vs, k as int, name@);
            }
            return Some(k);
        }
        k = k + 1;
    }
    assert(vs.subrange(0, ps.len() as int) =~= vs);
    None
}

proof fn lemma_index_of_extend(vs: Seq<PropertyView>, k: int, name: Seq<char>)
    requires
        0 <= k < vs.len(),
        index_of(vs.subrange(0, k), name) is None,
        vs[k].name == name,
    ensures
        index_of(vs, name) == Some(k),
    decreases vs.len(),
{
    if k < vs.len() - 1 {
        assert(vs.drop_last().subrange(0, k) =~= vs.subrange(0, k));
        lemma_index_of_extend(vs.drop_last(), k, name);
    } else {
        assert(vs.drop_last() =~= vs.subrange(0, k));
    }
}

/// The value of the first property named `name`, if any.
pub fn property_value<'a>(ps: &'a Vec<EventProperty>, name: &str) -> (r: Option<&'a String>)
    ensures
        r matches Some(v) ==> value_of(views_of(ps@), name@) == Some(v@),
        r is None ==> value_of(views_of(ps@), name@) is None,
{
    match find_property(ps, name) {
        Some(i) => {
            proof {
                lemma_index_of_bounds(views_of(ps@), name@);
            }
            Some(&ps[i].value)
        },
        None => None,
    }
}

/// Sets the property `name` to `value` with no parameters, replacing the
/// first one of that name or appending one.
pub fn set_property(ps: &mut Vec<EventProperty>, name: &str, value: &str)
    ensures
        views_of(final(ps)@) == with_property(views_of(old(ps)@), name@, value@),
{
    let p = EventProperty {
        name: name.to_owned(),
        params: Vec::new(),
        value: value.to_owned(),
    };
    assert(p@.params =~= Seq::<(Seq<char>, Seq<char>)>::empty());
    match find_property(ps, name) {
        Some(i) => {
            proof {
                lemma_index_of_bounds(views_of(ps@), name@);
            }
            ps.set(i, p);
            assert(views_of(ps@) =~= with_property(views_of(old(ps)@), name@, value@));
        },
        None => {
            ps.push(p);
            assert(views_of(ps@) =~= with_property(views_of(old(ps)@), name@, value@));
        },
    }
}

proof fn lemma_index_of_some(ps: Seq<PropertyView>, name: Seq<char>, j: int)
    requires
        0 <= j < ps.len(),
        ps[j].name == name,
    ensures
        index_of(ps, name) is Some,
{
    lemma_index_of_bounds(ps, name);
}

/// Setting a property keeps every name that was present, and adds its own.
pub proof fn lemma_with_property_names(ps: Seq<PropertyView>, name: Seq<char>, value: Seq<char>, other: Seq<char>)
    ensures
        index_of(with_property(ps, name, value), name) is Some,
        index_of(ps, other) is Some ==> index_of(with_property(ps, name, value), other) is Some,
{
    lemma_index_of_bounds(ps, name);
    lemma_index_of_bounds(ps, other);
    let r = with_property(ps, name, value);
    match index_of(ps, name) {
        Some(i) => {
            lemma_index_of_some(r, name, i);
            if index_of(ps, other) is Some {
                let j = index_of(ps, other)->0;
                if j == i {
                    lemma_index_of_some(r, other, i);
                } else {
                    lemma_index_of_some(r, other, j);
                }
            }
        },
        None => {
            lemma_index_of_some(r, name, ps.len() as int);
            if index_of(ps, other) is Some {
                let j = index_of(ps, other)->0;
                lemma_index_of_some(r, other, j);
            }
        },
    }
}

} // verus!
