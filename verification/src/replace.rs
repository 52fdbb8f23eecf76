//! The range-replacement engine: applies a set of non-overlapping span
//! replacements to a chapter's text without corrupting offsets.
//!
//! Spans are half-open ranges of character offsets into the chapter's
//! original text. The engine sorts the replacements by start offset and
//! applies them from the highest start offset down, so that every edit
//! leaves the offsets of the not-yet-applied spans valid. The proof
//! `lemma_apply_matches_left_to_right` shows that this order of application
//! agrees with the straightforward left-to-right splicing that corrects the
//! remaining offsets after every edit.

use vstd::prelude::*;
use vstd::string::*;
use crate::errors::Error;

verus! {

/// A single text replacement: the half-open span `start..end` of character
/// offsets into the chapter's original text, and the text to put there.
pub struct Replacement {
    pub start: usize,
    pub end: usize,
    pub text: String,
}

/// The text `t` with the character span `start..end` replaced by `r`.
pub open spec fn spec_splice(t: Seq<char>, start: int, end: int, r: Seq<char>) -> Seq<char> {
    t.subrange(0, start) + r + t.subrange(end, t.len() as int)
}

/// Every span lies within a text of length `n`.
pub open spec fn spans_in_bounds(reps: Seq<Replacement>, n: nat) -> bool {
    forall|i: int|
        0 <= i < reps.len() ==> (#[trigger] reps[i]).start <= reps[i].end && reps[i].end <= n
}

/// Adjacent spans do not overlap: each span ends at or before the next
/// one starts. Together with sortedness this makes all spans disjoint.
pub open spec fn spans_disjoint(reps: Seq<Replacement>) -> bool {
    forall|i: int| 0 <= i && i + 1 < reps.len() ==> (#[trigger] reps[i]).end <= reps[i + 1].start
}

/// A replacement set, already sorted by start offset, is valid for a text
/// of length `n`: spans are in bounds and do not overlap.
pub open spec fn reps_valid(reps: Seq<Replacement>, n: nat) -> bool {
    spans_in_bounds(reps, n) && spans_disjoint(reps)
}

/// Spans are sorted by start offset.
pub open spec fn sorted_by_start(reps: Seq<Replacement>) -> bool {
    forall|i: int, j: int| 0 <= i < j < reps.len() ==> (#[trigger] reps[i]).start <= (#[trigger] reps[j]).start
}

/// The result of applying a sorted replacement set to `t`, from the highest
/// start offset down. Each edit touches only text at or after its own span,
/// so the spans still to be applied keep their meaning.
pub open spec fn spec_apply(t: Seq<char>, reps: Seq<Replacement>) -> Seq<char>
    decreases reps.len(),
{
    if reps.len() == 0 {
        t
    } else {
        spec_apply(
            spec_splice(t, reps.last().start as int, reps.last().end as int, reps.last().text@),
            reps.drop_last(),
        )
    }
}

/// Stable insertion of `r` into a sequence sorted by start offset: `r` goes
/// after every element whose start is at or before its own.
pub open spec fn spec_insert(s: Seq<Replacement>, r: Replacement) -> Seq<Replacement>
    decreases s.len(),
{
    if s.len() == 0 {
        seq![r]
    } else if s.last().start <= r.start {
        s.push(r)
    } else {
        spec_insert(s.drop_last(), r).push(s.last())
    }
}

/// Stable insertion sort by start offset: replacements with equal start
/// offsets keep the order in which the plugin supplied them.
pub open spec fn spec_sort(s: Seq<Replacement>) -> Seq<Replacement>
    decreases s.len(),
{
    if s.len() == 0 {
        Seq::empty()
    } else {
        spec_insert(spec_sort(s.drop_last()), s.last())
    }
}

proof fn lemma_insert_at(s: Seq<Replacement>, r: Replacement, j: int)
    requires
        0 <= j <= s.len(),
        forall|k: int| 0 <= k < j ==> (#[trigger] s[k]).start <= r.start,
        forall|k: int| j <= k < s.len() ==> (#[trigger] s[k]).start > r.start,
    ensures
        spec_insert(s, r) == s.subrange(0, j) + seq![r] + s.subrange(j, s.len() as int),
    decreases s.len(),
{
    if s.len() == 0 {
        assert(spec_insert(s, r) =~= s.subrange(0, j) + seq![r] + s.subrange(j, s.len() as int));
    } else if j == s.len() {
        assert(s.last().start <= r.start);
        assert(spec_insert(s, r) =~= s.subrange(0, j) + seq![r] + s.subrange(j, s.len() as int));
    } else {
        assert(s[s.len() - 1].start > r.start);
        lemma_insert_at(s.drop_last(), r, j);
        assert(spec_insert(s, r) =~= s.subrange(0, j) + seq![r] + s.subrange(j, s.len() as int));
    }
}

/// Insert `r` into `out`, which is sorted by start offset, keeping it sorted
/// and placing `r` after every element with an equal start offset.
fn insert_replacement(out: &mut Vec<Replacement>, r: Replacement)
    requires
        sorted_by_start(old(out)@),
    ensures
        final(out)@ == spec_insert(old(out)@, r),
        sorted_by_start(final(out)@),
{
    let mut j: usize = 0;
    while j < out.len() && out[j].start <= r.start
        invariant
            j <= out@.len(),
            forall|k: int| 0 <= k < j ==> (#[trigger] out@[k]).start <= r.start,
            sorted_by_start(out@),
        decreases out@.len() - j,
    {
        j += 1;
    }
    proof {
        assert forall|k: int| j <= k < out@.len() implies (#[trigger] out@[k]).start > r.start by {
            if j < out@.len() {
                assert(out@[j as int].start > r.start);
                if k > j {
                    assert(out@[j as int].start <= out@[k].start);
                }
            }
        }
        lemma_insert_at(out@, r, j as int);
    }
    let ghost prev = out@;
    let ghost rr = r;
    out.insert(j, r);
    proof {
        assert(out@ =~= prev.subrange(0, j as int) + seq![rr] + prev.subrange(
            j as int,
            prev.len() as int,
        ));
        assert forall|a: int, b: int| 0 <= a < b < out@.len() implies (#[trigger] out@[a]).start
            <= (#[trigger] out@[b]).start by {
            if a < j && b < j {
            } else if a < j && b == j {
            } else if a == j && b > j {
            } else if a < j && b > j {
                assert(prev[a].start <= rr.start);
                assert(prev[b - 1].start > rr.start);
            } else {
            }
        }
    }
}

/// Sort a replacement set by start offset, stably: replacements with equal
/// start offsets keep the order in which they were supplied.
pub fn sort_replacements(reps: Vec<Replacement>) -> (out: Vec<Replacement>)
    ensures
        out@ == spec_sort(reps@),
        sorted_by_start(out@),
{
    let mut reps = reps;
    let ghost orig = reps@;
    let mut out: Vec<Replacement> = Vec::new();
    proof {
        assert(orig.subrange(0, 0) =~= Seq::<Replacement>::empty());
    }
    while reps.len() > 0
        invariant
            reps@.len() <= orig.len(),
            reps@ == orig.subrange(orig.len() - reps@.len(), orig.len() as int),
            out@ == spec_sort(orig.subrange(0, orig.len() - reps@.len())),
            sorted_by_start(out@),
        decreases reps@.len(),
    {
        let ghost k = orig.len() - reps@.len();
        let r = reps.remove(0);
        proof {
            assert(r == orig[k]);
            assert(reps@ =~= orig.subrange(k + 1, orig.len() as int));
            let taken = orig.subrange(0, k + 1);
            assert(taken.drop_last() =~= orig.subrange(0, k));
            assert(taken.last() == orig[k]);
        }
        insert_replacement(&mut out, r);
    }
    proof {
        assert(orig.subrange(0, orig.len() as int) =~= orig);
    }
    out
}

/// Check that a sorted replacement set is valid for a text of `len`
/// characters: spans in bounds and non-overlapping.
pub fn check_replacements(reps: &Vec<Replacement>, len: usize) -> (b: bool)
    ensures
        b == reps_valid(reps@, len as nat),
{
    let n = reps.len();
    let mut i: usize = 0;
    while i < n
        invariant
            i <= n,
            n == reps@.len(),
            forall|k: int|
                0 <= k < i ==> (#[trigger] reps@[k]).start <= reps@[k].end && reps@[k].end
                    <= len as nat,
            forall|k: int| 0 <= k && k + 1 < reps@.len() && k < i ==> (#[trigger] reps@[k]).end
                <= reps@[k + 1].start,
        decreases n - i,
    {
        if reps[i].start > reps[i].end || reps[i].end > len {
            return false;
        }
        if i + 1 < n && reps[i].end > reps[i + 1].start {
            return false;
        }
        i += 1;
    }
    true
}

/// Apply a sorted, valid replacement set to `content`, highest start offset
/// first.
pub fn apply_sorted(content: &mut String, reps: &Vec<Replacement>)
    requires
        reps_valid(reps@, old(content)@.len()),
        sorted_by_start(reps@),
    ensures
        final(content)@ == spec_apply(old(content)@, reps@),
{
    let ghost t0 = content@;
    let n = reps.len();
    let mut i: usize = n;
    proof {
        assert(reps@.subrange(0, n as int) =~= reps@);
    }
    while i > 0
        invariant
            i <= n,
            n == reps@.len(),
            reps_valid(reps@, t0.len()),
            spec_apply(t0, reps@) == spec_apply(content@, reps@.subrange(0, i as int)),
            i == n ==> content@ == t0,
            i < n ==> content@.len() >= reps@[i as int].start,
        decreases i,
    {
        let r_start = reps[i - 1].start;
        let r_end = reps[i - 1].end;
        proof {
            if i < n {
                assert(reps@[i - 1].end <= reps@[i as int].start);
            }
        }
        let cur: &str = content.as_str();
        let next = splice(cur, r_start, r_end, reps[i - 1].text.as_str());
        proof {
            let pre = reps@.subrange(0, i as int);
            assert(pre.last() == reps@[i - 1]);
            assert(pre.drop_last() =~= reps@.subrange(0, i - 1));
        }
        *content = next;
        i -= 1;
    }
    proof {
        assert(reps@.subrange(0, 0) =~= Seq::<Replacement>::empty());
    }
}

/// Replace the character span `start..end` of `s` by `r`.
pub fn splice(s: &str, start: usize, end: usize, r: &str) -> (res: String)
    requires
        start <= end <= s@.len(),
    ensures
        res@ == spec_splice(s@, start as int, end as int, r@),
{
    let mut out = s.substring_char(0, start).to_owned();
    out.append(r);
    out.append(s.substring_char(end, s.unicode_len()));
    out
}

/// A replacement span with its text, as pure mathematical values: start
/// offset, end offset, replacement text.
pub type SpanEdit = (int, int, Seq<char>);

/// The edits of a replacement set as pure mathematical values.
pub open spec fn edits_of(reps: Seq<Replacement>) -> Seq<SpanEdit> {
    reps.map_values(|r: Replacement| (r.start as int, r.end as int, r.text@))
}

/// The text `t` with the span of the edit `e` replaced by its text.
pub open spec fn edit_splice(t: Seq<char>, e: SpanEdit) -> Seq<char> {
    t.subrange(0, e.0) + e.2 + t.subrange(e.1, t.len() as int)
}

/// Edits are in bounds for a text of length `n` and pairwise disjoint,
/// listed in ascending span order.
pub open spec fn edits_valid(es: Seq<SpanEdit>, n: int) -> bool {
    (forall|i: int| 0 <= i < es.len() ==> 0 <= (#[trigger] es[i]).0 && es[i].0 <= es[i].1 && es[i].1 <= n)
    && (forall|i: int, j: int| 0 <= i < j < es.len() ==> (#[trigger] es[i]).1 <= (#[trigger] es[j]).0)
}

/// How much an edit grows (or shrinks) the text.
pub open spec fn edit_delta(e: SpanEdit) -> int {
    e.2.len() - (e.1 - e.0)
}

/// The edit `e` with its span moved by `d`.
pub open spec fn edit_shift(e: SpanEdit, d: int) -> SpanEdit {
    (e.0 + d, e.1 + d, e.2)
}

/// Every edit's span moved by `d`.
pub open spec fn edits_shift(es: Seq<SpanEdit>, d: int) -> Seq<SpanEdit> {
    es.map_values(|e: SpanEdit| edit_shift(e, d))
}

/// Apply edits from the highest span down: the order the engine uses.
pub open spec fn edits_apply_descending(t: Seq<char>, es: Seq<SpanEdit>) -> Seq<char>
    decreases es.len(),
{
    if es.len() == 0 {
        t
    } else {
        edits_apply_descending(edit_splice(t, es.last()), es.drop_last())
    }
}

/// Apply edits from the lowest span up, correcting the offsets of the
/// remaining edits after each splice: the straightforward left-to-right
/// reading of a replacement set.
pub open spec fn edits_apply_left_to_right(t: Seq<char>, es: Seq<SpanEdit>) -> Seq<char>
    decreases es.len(),
{
    if es.len() == 0 {
        t
    } else {
        edits_apply_left_to_right(
            edit_splice(t, es.first()),
            edits_shift(es.drop_first(), edit_delta(es.first())),
        )
    }
}

/// Two disjoint edits commute: splicing the higher span first and then the
/// lower leaves the same text as splicing the lower first and then the
/// higher with its span corrected by the lower edit's growth.
proof fn lemma_edit_splice_commutes(t: Seq<char>, lo: SpanEdit, hi: SpanEdit)
    requires
        0 <= lo.0 <= lo.1 <= hi.0 <= hi.1 <= t.len(),
    ensures
        edit_splice(edit_splice(t, hi), lo) == edit_splice(
            edit_splice(t, lo),
            edit_shift(hi, edit_delta(lo)),
        ),
{
    let both = t.subrange(0, lo.0) + lo.2 + t.subrange(lo.1, hi.0) + hi.2 + t.subrange(
        hi.1,
        t.len() as int,
    );
    let a = edit_splice(t, hi);
    assert(a.len() == hi.0 + hi.2.len() + (t.len() - hi.1));
    assert(edit_splice(a, lo) =~= both);
    let b = edit_splice(t, lo);
    let d = edit_delta(lo);
    assert(b.len() == t.len() + d);
    assert(edit_splice(b, edit_shift(hi, d)) =~= both);
}

/// Applying a valid edit set descending is the same as splicing its lowest
/// edit first and then applying the rest, shifted, descending.
proof fn lemma_descending_pulls_first(t: Seq<char>, es: Seq<SpanEdit>)
    requires
        edits_valid(es, t.len() as int),
        es.len() > 0,
    ensures
        edits_apply_descending(t, es) == edits_apply_descending(
            edit_splice(t, es.first()),
            edits_shift(es.drop_first(), edit_delta(es.first())),
        ),
    decreases es.len(),
{
    let e0 = es.first();
    let d0 = edit_delta(e0);
    if es.len() == 1 {
        assert(es.drop_last() =~= Seq::<SpanEdit>::empty());
        assert(edits_shift(es.drop_first(), d0) =~= Seq::<SpanEdit>::empty());
    } else {
        let el = es.last();
        let front = es.drop_last();
        let tl = edit_splice(t, el);
        assert(tl.len() == el.0 + el.2.len() + (t.len() - el.1));
        assert(edits_valid(front, tl.len() as int)) by {
            assert(forall|i: int|
                0 <= i < front.len() ==> (#[trigger] front[i]).1 <= el.0);
        }
        assert(front.first() == e0);
        lemma_descending_pulls_first(tl, front);
        assert(edit_splice(tl, e0) == edit_splice(
            edit_splice(t, e0),
            edit_shift(el, d0),
        )) by {
            lemma_edit_splice_commutes(t, e0, el);
        }
        let shifted = edits_shift(es.drop_first(), d0);
        assert(shifted.last() == edit_shift(el, d0));
        assert(shifted.drop_last() =~= edits_shift(front.drop_first(), d0));
        assert(edits_apply_descending(edit_splice(t, e0), shifted)
            == edits_apply_descending(edit_splice(edit_splice(t, e0), edit_shift(el, d0)), shifted.drop_last()));
    }
}

/// Left-to-right application with offset correction agrees with descending
/// application, for every valid edit set.
proof fn lemma_left_to_right_eq_descending(t: Seq<char>, es: Seq<SpanEdit>)
    requires
        edits_valid(es, t.len() as int),
    ensures
        edits_apply_left_to_right(t, es) == edits_apply_descending(t, es),
    decreases es.len(),
{
    if es.len() > 0 {
        let e0 = es.first();
        let d0 = edit_delta(e0);
        let t1 = edit_splice(t, e0);
        let shifted = edits_shift(es.drop_first(), d0);
        assert(t1.len() == t.len() + d0);
        assert(edits_valid(shifted, t1.len() as int)) by {
            assert(forall|i: int|
                0 <= i < es.drop_first().len() ==> (#[trigger] es.drop_first()[i]).0 >= e0.1);
        }
        lemma_left_to_right_eq_descending(t1, shifted);
        lemma_descending_pulls_first(t, es);
    }
}

/// The engine's application order agrees with descending application of the
/// edit set read as pure values.
proof fn lemma_spec_apply_eq_edits(t: Seq<char>, reps: Seq<Replacement>)
    ensures
        spec_apply(t, reps) == edits_apply_descending(t, edits_of(reps)),
    decreases reps.len(),
{
    if reps.len() > 0 {
        let es = edits_of(reps);
        assert(es.last() == (reps.last().start as int, reps.last().end as int, reps.last().text@));
        assert(es.drop_last() =~= edits_of(reps.drop_last()));
        let tl = spec_splice(t, reps.last().start as int, reps.last().end as int, reps.last().text@);
        assert(tl == edit_splice(t, es.last()));
        lemma_spec_apply_eq_edits(tl, reps.drop_last());
    }
}

/// Offset safety: for any text and any sorted, valid replacement set,
/// applying the replacements from the highest start offset down — the
/// engine's order — yields the same text as straightforward left-to-right
/// splicing with running offset correction.
pub proof fn lemma_apply_matches_left_to_right(t: Seq<char>, reps: Seq<Replacement>)
    requires
        reps_valid(reps, t.len()),
        sorted_by_start(reps),
    ensures
        spec_apply(t, reps) == edits_apply_left_to_right(t, edits_of(reps)),
{
    let es = edits_of(reps);
    assert(edits_valid(es, t.len() as int)) by {
        assert forall|i: int, j: int| 0 <= i < j < es.len() implies (#[trigger] es[i]).1
            <= (#[trigger] es[j]).0 by {
            lemma_disjoint_chain(reps, i, j);
        }
    }
    lemma_spec_apply_eq_edits(t, reps);
    lemma_left_to_right_eq_descending(t, es);
}

/// In a valid sorted replacement set, every span ends at or before any
/// later span starts.
pub proof fn lemma_disjoint_chain(reps: Seq<Replacement>, i: int, j: int)
    requires
        forall|k: int| 0 <= k < reps.len() ==> (#[trigger] reps[k]).start <= reps[k].end,
        spans_disjoint(reps),
        0 <= i < j < reps.len(),
    ensures
        reps[i].end <= reps[j].start,
    decreases j - i,
{
    if j == i + 1 {
    } else {
        lemma_disjoint_chain(reps, i, j - 1);
        assert(reps[j - 1].end <= reps[j].start);
    }
}

/// Sort a replacement set by start offset, check it, and apply it to
/// `content`. A set whose sorted form has overlapping or out-of-bounds
/// spans is rejected with `Error::MalformedReplacement` and the text is
/// left untouched.
pub fn apply_replacements(content: &mut String, reps: Vec<Replacement>) -> (r: Result<(), Error>)
    ensures
        reps_valid(spec_sort(reps@), old(content)@.len()) ==> r is Ok,
        r is Ok ==> reps_valid(spec_sort(reps@), old(content)@.len()) && final(content)@
            == spec_apply(old(content)@, spec_sort(reps@)),
        r is Err ==> final(content)@ == old(content)@ && (r matches Err(Error::MalformedReplacement))
            && !reps_valid(spec_sort(reps@), old(content)@.len()),
{
    let sorted = sort_replacements(reps);
    if !check_replacements(&sorted, content.unicode_len()) {
        return Err(Error::MalformedReplacement);
    }
    apply_sorted(content, &sorted);
    Ok(())
}

} // verus!
