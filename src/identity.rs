//! Content-based identity of an event: a hash of its start, end and
//! summary, independent of the upstream unique id.
//!
//! The hash is std's default hasher over the canonical key, shifted down by
//! `i64::MAX` into the signed 128-bit range. Changing either the key layout
//! or the hash algorithm invalidates every stored registry, and is a
//! breaking change. std does not fix the default hasher's algorithm across
//! releases: building with another Rust toolchain may change every hash,
//! and a registry written by the old build must then be discarded.

use vstd::prelude::*;
use std::hash::BuildHasher;
use crate::event::{RawEvent, property_value, value_of, views_of};
use crate::text::{chars_of, string_of};

verus! {

/// What std's default hasher gives for a string with these characters.
pub uninterp spec fn std_hash_of(s: Seq<char>) -> u64;

/// Relies on `BuildHasher::hash_one` with `BuildHasherDefault<DefaultHasher>`:
/// the default hasher starts from fixed keys, so the result depends on the
/// string alone.
#[verifier::external_body]
fn std_hash(s: &str) -> (r: u64)
    ensures
        r == std_hash_of(s@),
{
    std::hash::BuildHasherDefault::<std::hash::DefaultHasher>::default().hash_one(s)
}

/// The key that is hashed: the three fields separated by line feeds, which no
/// unfolded calendar value contains.
pub open spec fn canonical_key(start: Seq<char>, end: Seq<char>, summary: Seq<char>) -> Seq<char> {
    start + seq!['\n'] + end + seq!['\n'] + summary
}

/// The identity hash of an event with this start, end and summary.
pub open spec fn identity_hash(start: Seq<char>, end: Seq<char>, summary: Seq<char>) -> int {
    std_hash_of(canonical_key(start, end, summary)) as int - i64::MAX as int
}

pub open spec fn start_of(e: RawEvent) -> Option<Seq<char>> {
    value_of(views_of(e.properties@), "DTSTART"@)
}

pub open spec fn end_of(e: RawEvent) -> Option<Seq<char>> {
    value_of(views_of(e.properties@), "DTEND"@)
}

pub open spec fn summary_of(e: RawEvent) -> Option<Seq<char>> {
    value_of(views_of(e.properties@), "SUMMARY"@)
}

pub open spec fn uid_of(e: RawEvent) -> Option<Seq<char>> {
    value_of(views_of(e.properties@), "UID"@)
}

/// The identity of an event: its content hash and the upstream uid it came with.
#[derive(Clone, Debug)]
pub struct EventIdentity {
    pub hash: i128,
    pub original_uid: String,
}

/// The field that an event lacked for its identity.
#[derive(Clone, Copy, Debug, PartialEq, Eq, Structural)]
pub enum MissingField {
    Start,
    End,
    Summary,
}

/// Computes the hash of the canonical key of start, end and summary.
pub fn content_hash(start: &str, end: &str, summary: &str) -> (r: i128)
    ensures
        r as int == identity_hash(start@, end@, summary@),
{
    let mut key: Vec<char> = chars_of(start);
    key.push('\n');
    let e = chars_of(end);
    let mut k: usize = 0;
    let ghost base = key@;
    while k < e.len()
        invariant
            k <= e.len(),
            key@ == base + e@.subrange(0, k as int),
        decreases e.len() - k,
    {
        key.push(e[k]);
        k = k + 1;
        assert(key@ =~= base + e@.subrange(0, k as int));
    }
    key.push('\n');
    let t = chars_of(summary);
    let ghost base2 = key@;
    k = 0;
    while k < t.len()
        invariant
            k <= t.len(),
            key@ == base2 + t@.subrange(0, k as int),
        decreases t.len() - k,
    {
        key.push(t[k]);
        k = k + 1;
        assert(key@ =~= base2 + t@.subrange(0, k as int));
    }
    assert(e@.subrange(0, e.len() as int) =~= e@);
    assert(t@.subrange(0, t.len() as int) =~= t@);
    assert(key@ =~= canonical_key(start@, end@, summary@));
    let text = string_of(&key);
    let h = std_hash(text.as_str());
    h as i128 - i64::MAX as i128
}

/// The identity of `ev`: an error names the first of start, end and summary
/// that it lacks; otherwise the hash of those three and the upstream uid
/// (empty where it has none).
pub fn compute_identity(ev: &RawEvent) -> (r: Result<EventIdentity, MissingField>)
    ensures
        identity_outcome(*ev, r),
        r matches Ok(id) ==> id.original_uid@ == (match uid_of(*ev) {
            Some(u) => u,
            None => Seq::empty(),
        }),
{
    let start = match property_value(&ev.properties, "DTSTART") {
        Some(v) => v,
        None => return Err(MissingField::Start),
    };
    let end = match property_value(&ev.properties, "DTEND") {
        Some(v) => v,
        None => return Err(MissingField::End),
    };
    let summary = match property_value(&ev.properties, "SUMMARY") {
        Some(v) => v,
        None => return Err(MissingField::Summary),
    };
    let hash = content_hash(start.as_str(), end.as_str(), summary.as_str());
    let original_uid = match property_value(&ev.properties, "UID") {
        Some(u) => u.clone(),
        None => String::new(),
    };
    Ok(EventIdentity { hash, original_uid })
}

/// Two events that agree on start, end and summary have the same identity
/// hash, whatever their uids, descriptions or other properties.
pub proof fn lemma_identity_deterministic(a: RawEvent, b: RawEvent)
    requires
        start_of(a) == start_of(b),
        end_of(a) == end_of(b),
        summary_of(a) == summary_of(b),
    ensures
        forall|ra: Result<EventIdentity, MissingField>, rb: Result<EventIdentity, MissingField>|
            identity_outcome(a, ra) && identity_outcome(b, rb) ==> match (ra, rb) {
                (Ok(x), Ok(y)) => x.hash == y.hash,
                (Err(x), Err(y)) => x == y,
                _ => false,
            },
{
}

/// What `compute_identity` may return for `ev`.
pub open spec fn identity_outcome(ev: RawEvent, r: Result<EventIdentity, MissingField>) -> bool {
    &&& (r == Err::<EventIdentity, MissingField>(MissingField::Start) <==> start_of(ev) is None)
    &&& (r == Err::<EventIdentity, MissingField>(MissingField::End) <==> (start_of(ev) is Some
        && end_of(ev) is None))
    &&& (r == Err::<EventIdentity, MissingField>(MissingField::Summary) <==> (start_of(ev) is Some
        && end_of(ev) is Some && summary_of(ev) is None))
    &&& (r matches Ok(id) ==> start_of(ev) is Some && end_of(ev) is Some && summary_of(ev) is Some
        && id.hash as int == identity_hash(start_of(ev)->0, end_of(ev)->0, summary_of(ev)->0))
}

proof fn lemma_first_line_feed(a: Seq<char>, rest: Seq<char>, b: Seq<char>, rest2: Seq<char>)
    requires
        forall|i: int| 0 <= i < a.len() ==> a[i] != '\n',
        forall|i: int| 0 <= i < b.len() ==> b[i] != '\n',
        a + seq!['\n'] + rest == b + seq!['\n'] + rest2,
    ensures
        a == b,
        rest == rest2,
{
    let x = a + seq!['\n'] + rest;
    let y = b + seq!['\n'] + rest2;
    if a.len() < b.len() {
        assert(x[a.len() as int] == '\n');
        assert(y[a.len() as int] == b[a.len() as int]);
    } else if b.len() < a.len() {
        assert(y[b.len() as int] == '\n');
        assert(x[b.len() as int] == a[b.len() as int]);
    } else {
        assert(a =~= x.subrange(0, a.len() as int));
        assert(b =~= y.subrange(0, b.len() as int));
        assert(rest =~= x.subrange(a.len() + 1int, x.len() as int));
        assert(rest2 =~= y.subrange(b.len() + 1int, y.len() as int));
    }
}

/// The key is unambiguous: where start and end hold no line feed, equal
/// keys come only from equal start, end and summary.
pub proof fn lemma_key_unambiguous(
    s1: Seq<char>,
    e1: Seq<char>,
    t1: Seq<char>,
    s2: Seq<char>,
    e2: Seq<char>,
    t2: Seq<char>,
)
    requires
        forall|i: int| 0 <= i < s1.len() ==> s1[i] != '\n',
        forall|i: int| 0 <= i < e1.len() ==> e1[i] != '\n',
        forall|i: int| 0 <= i < s2.len() ==> s2[i] != '\n',
        forall|i: int| 0 <= i < e2.len() ==> e2[i] != '\n',
        canonical_key(s1, e1, t1) == canonical_key(s2, e2, t2),
    ensures
        s1 == s2,
        e1 == e2,
        t1 == t2,
{
    let r1 = e1 + seq!['\n'] + t1;
    let r2 = e2 + seq!['\n'] + t2;
    assert(canonical_key(s1, e1, t1) =~= s1 + seq!['\n'] + r1);
    assert(canonical_key(s2, e2, t2) =~= s2 + seq!['\n'] + r2);
    lemma_first_line_feed(s1, r1, s2, r2);
    lemma_first_line_feed(e1, t1, e2, t2);
}

} // verus!
