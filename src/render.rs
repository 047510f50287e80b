//! Post-processing of serialised calendar text into the record the
//! downstream tool reads: lines of cleared properties are dropped and
//! escaped line breaks are rewritten.

use vstd::prelude::*;
use crate::text::{occurs_at, occurs_at_exec, push_all, replace_all, replaced, starts_with};

verus! {

/// Tags of the properties whose lines never reach a record.
pub open spec fn uid_tag() -> Seq<char> {
    seq!['U', 'I', 'D', ':']
}

pub open spec fn transp_tag() -> Seq<char> {
    seq!['T', 'R', 'A', 'N', 'S', 'P', ':']
}

pub open spec fn rrule_tag() -> Seq<char> {
    seq!['R', 'R', 'U', 'L', 'E', ':']
}

/// An escaped line break inside a text value, `\n`.
pub open spec fn escaped_lf() -> Seq<char> {
    seq!['\\', 'n']
}

/// The escaped CR LF pair the downstream tool expects, `\r\n`.
pub open spec fn escaped_crlf() -> Seq<char> {
    seq!['\\', 'r', '\\', 'n']
}

/// An escaped backslash followed by `r`, which the rewrite leaves behind
/// where the value held `\\n`; it is removed.
pub open spec fn stray_cr() -> Seq<char> {
    seq!['\\', '\\', 'r']
}

pub open spec fn has_forbidden_tag(l: Seq<char>) -> bool {
    starts_with(l, uid_tag()) || starts_with(l, transp_tag()) || starts_with(l, rrule_tag())
}

/// The pieces of `s` between line feeds (always at least one).
pub open spec fn segments(s: Seq<char>) -> Seq<Seq<char>>
    decreases s.len(),
{
    if s.len() == 0 {
        seq![Seq::empty()]
    } else {
        let p = segments(s.drop_last());
        if s.last() == '\n' {
            p.push(Seq::empty())
        } else {
            p.update(p.len() - 1, p.last().push(s.last()))
        }
    }
}

/// One trailing carriage return removed.
pub open spec fn strip_cr(l: Seq<char>) -> Seq<char> {
    if l.len() > 0 && l.last() == '\r' {
        l.drop_last()
    } else {
        l
    }
}

/// A line with its escaped line breaks rewritten.
pub open spec fn converted(l: Seq<char>) -> Seq<char> {
    replaced(replaced(strip_cr(l), escaped_lf(), escaped_crlf()), stray_cr(), Seq::empty())
}

/// Whether a converted line stays in the record.
pub open spec fn kept_line(l: Seq<char>) -> bool {
    !has_forbidden_tag(l)
}

/// The converted lines that stay, in order.
pub open spec fn kept(ls: Seq<Seq<char>>) -> Seq<Seq<char>>
    decreases ls.len(),
{
    if ls.len() == 0 {
        Seq::empty()
    } else {
        let p = kept(ls.drop_last());
        let c = converted(ls.last());
        if kept_line(c) {
            p.push(c)
        } else {
            p
        }
    }
}

/// Lines joined by single line feeds.
pub open spec fn joined(ls: Seq<Seq<char>>) -> Seq<char>
    decreases ls.len(),
{
    if ls.len() == 0 {
        Seq::empty()
    } else if ls.len() == 1 {
        ls[0]
    } else {
        joined(ls.drop_last()) + seq!['\n'] + ls.last()
    }
}

/// The lines that stay: those of every piece but the last, and the last
/// piece's unless it is empty (the text ended with a line break).
pub open spec fn record_lines(s: Seq<char>) -> Seq<Seq<char>> {
    let body = kept(segments(s).drop_last());
    let c = converted(segments(s).last());
    if c.len() > 0 && kept_line(c) {
        body.push(c)
    } else {
        body
    }
}

/// The record text made from serialised calendar text `s`.
pub open spec fn post_processed(s: Seq<char>) -> Seq<char> {
    joined(record_lines(s))
}

proof fn lemma_segments_nonempty(s: Seq<char>)
    ensures
        segments(s).len() >= 1,
    decreases s.len(),
{
    if s.len() > 0 {
        lemma_segments_nonempty(s.drop_last());
    }
}

fn forbidden_tag_exec(l: &Vec<char>) -> (r: bool)
    ensures
        r == has_forbidden_tag(l@),
{
    let uid: Vec<char> = vec!['U', 'I', 'D', ':'];
    let transp: Vec<char> = vec!['T', 'R', 'A', 'N', 'S', 'P', ':'];
    let rrule: Vec<char> = vec!['R', 'R', 'U', 'L', 'E', ':'];
    assert(uid@ =~= uid_tag());
    assert(transp@ =~= transp_tag());
    assert(rrule@ =~= rrule_tag());
    occurs_at_exec(l, 0, &uid) || occurs_at_exec(l, 0, &transp) || occurs_at_exec(l, 0, &rrule)
}

/// Rewrites the escaped line breaks of one line.
pub fn convert_line(l: &Vec<char>) -> (r: Vec<char>)
    ensures
        r@ == converted(l@),
{
    let mut base: Vec<char> = l.clone();
    assert(base@ == l@);
    if base.len() > 0 && base[base.len() - 1] == '\r' {
        base.pop();
    }
    assert(base@ =~= strip_cr(l@));
    let lf: Vec<char> = vec!['\\', 'n'];
    let crlf: Vec<char> = vec!['\\', 'r', '\\', 'n'];
    let stray: Vec<char> = vec!['\\', '\\', 'r'];
    let none: Vec<char> = Vec::new();
    assert(lf@ =~= escaped_lf());
    assert(crlf@ =~= escaped_crlf());
    assert(stray@ =~= stray_cr());
    assert(none@ =~= Seq::<char>::empty());
    let once = replace_all(&base, &lf, &crlf);
    replace_all(&once, &stray, &none)
}

/// Turns serialised calendar text into record text: the text is cut at line
/// feeds, a trailing carriage return is dropped from each line, escaped line
/// breaks are rewritten, and lines that begin with `UID:`, `TRANSP:` or
/// `RRULE:` are left out, as is the empty piece after a final line break;
/// the remaining lines are joined by line feeds.
pub fn post_process(s: &Vec<char>) -> (r: Vec<char>)
    ensures
        r@ == post_processed(s@),
{
    let mut out: Vec<char> = Vec::new();
    let mut cur: Vec<char> = Vec::new();
    let mut any: bool = false;
    let mut i: usize = 0;
    assert(s@.subrange(0, 0) =~= Seq::<char>::empty());
    while i < s.len()
        invariant
            i <= s.len(),
            segments(s@.subrange(0, i as int)).len() >= 1,
            cur@ == segments(s@.subrange(0, i as int)).last(),
            out@ == joined(kept(segments(s@.subrange(0, i as int)).drop_last())),
            any == (kept(segments(s@.subrange(0, i as int)).drop_last()).len() > 0),
        decreases s.len() - i,
    {
        let ghost pre = s@.subrange(0, i as int);
        let ghost next = s@.subrange(0, i + 1);
        assert(next.drop_last() =~= pre);
        assert(next.last() == s@[i as int]);
        proof {
            lemma_segments_nonempty(next);
        }
        let c = s[i];
        if c == '\n' {
            let line = convert_line(&cur);
            let ghost done = segments(pre).drop_last();
            assert(segments(next) == segments(pre).push(Seq::empty()));
            assert(segments(next).drop_last() =~= segments(pre));
            assert(segments(pre) =~= done.push(cur@));
            assert(segments(pre).drop_last() =~= done);
            let keep = !forbidden_tag_exec(&line);
            if keep {
                assert(kept(done).push(line@).drop_last() =~= kept(done));
                if any {
                    out.push('\n');
                }
                push_all(&mut out, &line);
                any = true;
            }
            cur = Vec::new();
        } else {
            cur.push(c);
            assert(segments(next) == segments(pre).update(
                segments(pre).len() - 1,
                segments(pre).last().push(c),
            ));
            assert(segments(next).drop_last() =~= segments(pre).drop_last());
        }
        i = i + 1;
    }
    assert(s@.subrange(0, s.len() as int) =~= s@);
    let line = convert_line(&cur);
    let ghost done = segments(s@).drop_last();
    assert(segments(s@) =~= done.push(cur@));
    assert(segments(s@).drop_last() =~= done);
    if line.len() > 0 && !forbidden_tag_exec(&line) {
        assert(kept(done).push(line@).drop_last() =~= kept(done));
        if any {
            out.push('\n');
        }
        push_all(&mut out, &line);
    }
    out
}

pub open spec fn no_line_feed(l: Seq<char>) -> bool {
    forall|i: int| 0 <= i < l.len() ==> l[i] != '\n'
}

proof fn lemma_segments_no_line_feed(s: Seq<char>)
    ensures
        forall|k: int| 0 <= k < segments(s).len() ==> no_line_feed(#[trigger] segments(s)[k]),
    decreases s.len(),
{
    lemma_segments_nonempty(s);
    if s.len() > 0 {
        lemma_segments_no_line_feed(s.drop_last());
        lemma_segments_nonempty(s.drop_last());
        let p = segments(s.drop_last());
        if s.last() != '\n' {
            assert forall|k: int| 0 <= k < segments(s).len() implies no_line_feed(
                #[trigger] segments(s)[k],
            ) by {
                if k == p.len() - 1 {
                    let l = p.last().push(s.last());
                    assert(no_line_feed(p[k]));
                    assert forall|i: int| 0 <= i < l.len() implies l[i] != '\n' by {
                        if i < l.len() - 1 {
                            assert(l[i] == p[k][i]);
                        }
                    }
                }
            }
        }
    }
}

proof fn lemma_replaced_no_line_feed(s: Seq<char>, from: Seq<char>, to: Seq<char>)
    requires
        no_line_feed(s),
        no_line_feed(to),
    ensures
        no_line_feed(replaced(s, from, to)),
    decreases s.len(),
{
    if from.len() == 0 || s.len() < from.len() {
    } else if s.subrange(0, from.len() as int) == from {
        let rest = s.subrange(from.len() as int, s.len() as int);
        lemma_replaced_no_line_feed(rest, from, to);
        let r = replaced(rest, from, to);
        assert forall|i: int| 0 <= i < (to + r).len() implies (to + r)[i] != '\n' by {
            if i >= to.len() {
                assert((to + r)[i] == r[i - to.len()]);
            }
        }
    } else {
        let rest = s.subrange(1, s.len() as int);
        lemma_replaced_no_line_feed(rest, from, to);
        let r = replaced(rest, from, to);
        assert forall|i: int| 0 <= i < (seq![s[0]] + r).len() implies (seq![s[0]] + r)[i] != '\n' by {
            if i >= 1 {
                assert((seq![s[0]] + r)[i] == r[i - 1]);
            }
        }
    }
}

proof fn lemma_converted_no_line_feed(l: Seq<char>)
    requires
        no_line_feed(l),
    ensures
        no_line_feed(converted(l)),
{
    let a = strip_cr(l);
    assert(no_line_feed(a));
    assert(escaped_crlf() == seq!['\\', 'r', '\\', 'n']);
    lemma_replaced_no_line_feed(a, escaped_lf(), escaped_crlf());
    lemma_replaced_no_line_feed(replaced(a, escaped_lf(), escaped_crlf()), stray_cr(), Seq::empty());
}

proof fn lemma_kept_lines(ls: Seq<Seq<char>>)
    requires
        forall|k: int| 0 <= k < ls.len() ==> no_line_feed(#[trigger] ls[k]),
    ensures
        forall|k: int|
            0 <= k < kept(ls).len() ==> kept_line(#[trigger] kept(ls)[k]) && no_line_feed(kept(ls)[k]),
    decreases ls.len(),
{
    if ls.len() > 0 {
        let d = ls.drop_last();
        assert forall|k: int| 0 <= k < d.len() implies no_line_feed(#[trigger] d[k]) by {
            assert(d[k] == ls[k]);
        }
        lemma_kept_lines(d);
        assert(no_line_feed(ls[ls.len() - 1]));
        lemma_converted_no_line_feed(ls.last());
        let p = kept(d);
        let c = converted(ls.last());
        assert forall|k: int| 0 <= k < kept(ls).len() implies kept_line(#[trigger] kept(ls)[k])
            && no_line_feed(kept(ls)[k]) by {
            if k < p.len() {
                assert(kept(ls)[k] == p[k]);
            } else {
                assert(kept(ls)[k] == c);
            }
        }
    }
}

/// Every line of a record holds no line feed and begins with none of
/// `UID:`, `TRANSP:` and `RRULE:`; the record is those lines joined by line
/// feeds.
pub proof fn lemma_record_lines(s: Seq<char>)
    ensures
        post_processed(s) == joined(record_lines(s)),
        forall|k: int|
            0 <= k < record_lines(s).len() ==> {
                let l = #[trigger] record_lines(s)[k];
                no_line_feed(l) && !starts_with(l, uid_tag()) && !starts_with(l, transp_tag())
                    && !starts_with(l, rrule_tag())
            },
{
    lemma_segments_no_line_feed(s);
    lemma_segments_nonempty(s);
    let segs = segments(s);
    let d = segs.drop_last();
    assert forall|k: int| 0 <= k < d.len() implies no_line_feed(#[trigger] d[k]) by {
        assert(d[k] == segs[k]);
    }
    lemma_kept_lines(d);
    assert(no_line_feed(segs[segs.len() - 1]));
    lemma_converted_no_line_feed(segs.last());
    let body = kept(d);
    assert forall|k: int| 0 <= k < record_lines(s).len() implies {
        let l = #[trigger] record_lines(s)[k];
        no_line_feed(l) && !starts_with(l, uid_tag()) && !starts_with(l, transp_tag())
            && !starts_with(l, rrule_tag())
    } by {
        if k < body.len() {
            assert(record_lines(s)[k] == body[k]);
        }
    }
}

} // verus!
