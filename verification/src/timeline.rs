//! Timelines: ordered sequences of period-attached values, and the merge
//! engine that collapses them into a minimal equivalent sequence.

use vstd::prelude::*;
use vstd::std_specs::cmp::PartialEqSpec;

use crate::periods::{Period, PeriodValue};

verus! {

/// Whether the accumulated element can absorb the next one: the two periods
/// touch exactly and the two values are equal.
pub open spec fn can_extend<T: PartialEq>(acc: PeriodValue<T>, nxt: PeriodValue<T>) -> bool {
    acc.period.end == nxt.period.start && acc.value.eq_spec(&nxt.value)
}

/// One step of the merge engine, against the accumulator `acc`:
/// a touching element with an equal value extends the accumulator and is
/// consumed; an element starting inside the accumulator truncates the
/// accumulator to its start and is kept; an element past the accumulator's
/// end (a gap) is kept and the accumulator is emitted as it stands.
pub open spec fn absorb_values<T: PartialEq>(
    acc: PeriodValue<T>,
    rest: Seq<PeriodValue<T>>,
) -> (PeriodValue<T>, Seq<PeriodValue<T>>)
    decreases rest.len(),
{
    if rest.len() == 0 {
        (acc, rest)
    } else if can_extend(acc, rest[0]) {
        absorb_values(
            PeriodValue {
                period: Period { start: acc.period.start, end: rest[0].period.end },
                value: acc.value,
            },
            rest.drop_first(),
        )
    } else if rest[0].period.start.stamp() < acc.period.end.stamp() {
        (
            PeriodValue {
                period: Period { start: acc.period.start, end: rest[0].period.start },
                value: acc.value,
            },
            rest,
        )
    } else {
        (acc, rest)
    }
}

/// What remains after an absorb step is never longer than what went in.
proof fn lemma_absorb_values_len<T: PartialEq>(acc: PeriodValue<T>, rest: Seq<PeriodValue<T>>)
    ensures
        absorb_values(acc, rest).1.len() <= rest.len(),
    decreases rest.len(),
{
    if rest.len() > 0 && can_extend(acc, rest[0]) {
        lemma_absorb_values_len(
            PeriodValue {
                period: Period { start: acc.period.start, end: rest[0].period.end },
                value: acc.value,
            },
            rest.drop_first(),
        );
    }
}

/// The merged form of a timeline ordered by non-decreasing start: maximal
/// runs of touching equal-value elements are coalesced, an element
/// overlapping its successor is truncated to the successor's start, and
/// gaps are preserved.
pub open spec fn merge_values_spec<T: PartialEq>(s: Seq<PeriodValue<T>>) -> Seq<PeriodValue<T>>
    decreases s.len() via merge_values_spec_decreases::<T>
{
    if s.len() == 0 {
        Seq::empty()
    } else {
        let (acc, rest) = absorb_values(s[0], s.drop_first());
        seq![acc] + merge_values_spec(rest)
    }
}

#[via_fn]
proof fn merge_values_spec_decreases<T: PartialEq>(s: Seq<PeriodValue<T>>) {
    if s.len() > 0 {
        lemma_absorb_values_len(s[0], s.drop_first());
    }
}

/// Merge a timeline, ordered by non-decreasing period start, into the
/// minimal equivalent timeline: runs of touching equal-value elements
/// become one element, an element that overlaps its successor is truncated
/// to the successor's start (the later element wins the overlap), and gaps
/// are preserved.
pub fn merge_contiguous_periods_values<T: PartialEq>(input: Vec<PeriodValue<T>>) -> (r: Vec<
    PeriodValue<T>,
>)
    requires
        T::obeys_eq_spec(),
        forall|i: int|
            0 <= i < input@.len() ==> (#[trigger] input@[i]).period.start.fields_ok()
                && input@[i].period.end.fields_ok(),
    ensures
        r@ == merge_values_spec(input@),
{
    let ghost orig = input@;
    let mut rest = input;
    let mut out: Vec<PeriodValue<T>> = Vec::new();
    proof {
        assert(Seq::<PeriodValue<T>>::empty() + merge_values_spec(orig) =~= merge_values_spec(
            orig,
        ));
    }
    while rest.len() > 0
        invariant
            T::obeys_eq_spec(),
            forall|k: int|
                0 <= k < rest@.len() ==> (#[trigger] rest@[k]).period.start.fields_ok()
                    && rest@[k].period.end.fields_ok(),
            out@ + merge_values_spec(rest@) == merge_values_spec(orig),
        decreases rest@.len(),
    {
        let ghost before = rest@;
        let mut acc = rest.remove(0);
        proof {
            assert(rest@ =~= before.drop_first());
        }
        loop
            invariant_except_break
                absorb_values(before[0], before.drop_first()) == absorb_values(acc, rest@),
            invariant
                rest@.len() < before.len(),
                T::obeys_eq_spec(),
                forall|k: int|
                    0 <= k < rest@.len() ==> (#[trigger] rest@[k]).period.start.fields_ok()
                        && rest@[k].period.end.fields_ok(),
                acc.period.start.fields_ok(),
                acc.period.end.fields_ok(),
            ensures
                rest@.len() < before.len(),
                forall|k: int|
                    0 <= k < rest@.len() ==> (#[trigger] rest@[k]).period.start.fields_ok()
                        && rest@[k].period.end.fields_ok(),
                absorb_values(before[0], before.drop_first()).0 == acc,
                absorb_values(before[0], before.drop_first()).1 == rest@,
            decreases rest@.len(),
        {
            if rest.is_empty() {
                break ;
            }
            let nxt = &rest[0];
            if acc.period.end == nxt.period.start && acc.value == nxt.value {
                let ghost mid = rest@;
                let consumed = rest.remove(0);
                proof {
                    assert(rest@ =~= mid.drop_first());
                }
                acc.period.end = consumed.period.end;
            } else if nxt.period.start.lt(&acc.period.end) {
                acc.period.end = rest[0].period.start;
                break ;
            } else {
                break ;
            }
        }
        proof {
            assert(out@.push(acc) + merge_values_spec(rest@) =~= out@ + (seq![acc]
                + merge_values_spec(rest@)));
        }
        out.push(acc);
    }
    proof {
        assert(rest@ =~= Seq::<PeriodValue<T>>::empty());
        assert(out@ + merge_values_spec(Seq::<PeriodValue<T>>::empty()) =~= out@);
    }
    out
}

/// Consecutive elements never overlap: each element's period ends at or
/// before its successor's period starts.
pub open spec fn no_consecutive_overlap<T>(s: Seq<PeriodValue<T>>) -> bool {
    forall|i: int|
        0 <= i < s.len() - 1 ==> (#[trigger] s[i]).period.end.stamp() <= s[i
            + 1].period.start.stamp()
}

/// Every element's period is non-empty.
pub open spec fn all_non_empty<T>(s: Seq<PeriodValue<T>>) -> bool {
    forall|i: int|
        0 <= i < s.len() ==> (#[trigger] s[i]).period.start.stamp() < s[i].period.end.stamp()
}

/// Maximally merged: consecutive elements never overlap, and neighbours
/// that touch carry different values (nothing is left to coalesce).
pub open spec fn merged_form<T: PartialEq>(s: Seq<PeriodValue<T>>) -> bool {
    &&& no_consecutive_overlap(s)
    &&& forall|i: int|
        0 <= i < s.len() - 1 ==> ((#[trigger] s[i]).period.end == s[i + 1].period.start
            ==> !s[i].value.eq_spec(&s[i + 1].value))
}

/// An absorb step keeps the accumulator's start and value.
proof fn lemma_absorb_head<T: PartialEq>(acc: PeriodValue<T>, rest: Seq<PeriodValue<T>>)
    ensures
        absorb_values(acc, rest).0.period.start == acc.period.start,
        absorb_values(acc, rest).0.value == acc.value,
    decreases rest.len(),
{
    if rest.len() > 0 && can_extend(acc, rest[0]) {
        lemma_absorb_head(
            PeriodValue {
                period: Period { start: acc.period.start, end: rest[0].period.end },
                value: acc.value,
            },
            rest.drop_first(),
        );
    }
}

/// The merge of a non-empty timeline is non-empty and keeps the first
/// element's start and value.
proof fn lemma_merge_head<T: PartialEq>(s: Seq<PeriodValue<T>>)
    requires
        s.len() > 0,
    ensures
        merge_values_spec(s).len() > 0,
        merge_values_spec(s)[0].period.start == s[0].period.start,
        merge_values_spec(s)[0].value == s[0].value,
{
    lemma_absorb_head(s[0], s.drop_first());
}

/// On input whose consecutive elements do not overlap, an absorb step only
/// extends: the result stays non-empty, begins where the accumulator began,
/// never reaches past what is left, and touches what is left only with a
/// different value.
proof fn lemma_absorb_no_overlap<T: PartialEq>(acc: PeriodValue<T>, rest: Seq<PeriodValue<T>>)
    requires
        no_consecutive_overlap(rest),
        all_non_empty(rest),
        acc.period.start.stamp() < acc.period.end.stamp(),
        rest.len() > 0 ==> acc.period.end.stamp() <= rest[0].period.start.stamp(),
    ensures
        ({
            let (a1, r1) = absorb_values(acc, rest);
            &&& a1.period.start == acc.period.start
            &&& a1.value == acc.value
            &&& a1.period.start.stamp() < a1.period.end.stamp()
            &&& no_consecutive_overlap(r1)
            &&& all_non_empty(r1)
            &&& (r1.len() > 0 ==> a1.period.end.stamp() <= r1[0].period.start.stamp())
            &&& (r1.len() > 0 ==> (a1.period.end == r1[0].period.start ==> !a1.value.eq_spec(
                &r1[0].value,
            )))
        }),
    decreases rest.len(),
{
    if rest.len() == 0 {
    } else if can_extend(acc, rest[0]) {
        let acc2 = PeriodValue {
            period: Period { start: acc.period.start, end: rest[0].period.end },
            value: acc.value,
        };
        let tail = rest.drop_first();
        assert(no_consecutive_overlap(tail)) by {
            assert forall|i: int| 0 <= i < tail.len() - 1 implies (
            #[trigger] tail[i]).period.end.stamp() <= tail[i + 1].period.start.stamp() by {
                assert(tail[i] == rest[i + 1]);
                assert(tail[i + 1] == rest[i + 2]);
            }
        }
        assert(all_non_empty(tail)) by {
            assert forall|i: int| 0 <= i < tail.len() implies (
            #[trigger] tail[i]).period.start.stamp() < tail[i].period.end.stamp() by {
                assert(tail[i] == rest[i + 1]);
            }
        }
        assert(tail.len() > 0 ==> acc2.period.end.stamp() <= tail[0].period.start.stamp()) by {
            if tail.len() > 0 {
                assert(tail[0] == rest[1]);
            }
        }
        lemma_absorb_no_overlap(acc2, tail);
    } else {
        assert(!(rest[0].period.start.stamp() < acc.period.end.stamp()));
    }
}

/// The merge engine's output is maximally merged: under input ordered by
/// non-decreasing start whose consecutive elements do not overlap, no two
/// neighbours of the output overlap, and neighbours that touch carry
/// different values.
pub proof fn lemma_merge_output_merged<T: PartialEq>(s: Seq<PeriodValue<T>>)
    requires
        no_consecutive_overlap(s),
        all_non_empty(s),
    ensures
        merged_form(merge_values_spec(s)),
        all_non_empty(merge_values_spec(s)),
    decreases s.len(),
{
    if s.len() > 0 {
        let rest = s.drop_first();
        assert(no_consecutive_overlap(rest)) by {
            assert forall|i: int| 0 <= i < rest.len() - 1 implies (
            #[trigger] rest[i]).period.end.stamp() <= rest[i + 1].period.start.stamp() by {
                assert(rest[i] == s[i + 1]);
                assert(rest[i + 1] == s[i + 2]);
            }
        }
        assert(all_non_empty(rest)) by {
            assert forall|i: int| 0 <= i < rest.len() implies (
            #[trigger] rest[i]).period.start.stamp() < rest[i].period.end.stamp() by {
                assert(rest[i] == s[i + 1]);
            }
        }
        assert(rest.len() > 0 ==> s[0].period.end.stamp() <= rest[0].period.start.stamp()) by {
            if rest.len() > 0 {
                assert(rest[0] == s[1]);
            }
        }
        lemma_absorb_no_overlap(s[0], rest);
        let (a1, r1) = absorb_values(s[0], rest);
        lemma_absorb_values_len(s[0], rest);
        lemma_merge_output_merged(r1);
        let m = merge_values_spec(s);
        let mr = merge_values_spec(r1);
        assert(m == seq![a1] + mr);
        if r1.len() > 0 {
            lemma_merge_head(r1);
        }
        assert(no_consecutive_overlap(m)) by {
            assert forall|i: int| 0 <= i < m.len() - 1 implies (#[trigger] m[i]).period.end.stamp()
                <= m[i + 1].period.start.stamp() by {
                if i == 0 {
                    assert(m[0] == a1);
                    assert(m[1] == mr[0]);
                } else {
                    assert(m[i] == mr[i - 1]);
                    assert(m[i + 1] == mr[i]);
                }
            }
        }
        assert forall|i: int|
            0 <= i < m.len() - 1 && (#[trigger] m[i]).period.end == m[i
                + 1].period.start implies !m[i].value.eq_spec(&m[i + 1].value) by {
            if i == 0 {
                assert(m[0] == a1);
                assert(m[1] == mr[0]);
            } else {
                assert(m[i] == mr[i - 1]);
                assert(m[i + 1] == mr[i]);
            }
        }
        assert(all_non_empty(m)) by {
            assert forall|i: int| 0 <= i < m.len() implies (
            #[trigger] m[i]).period.start.stamp() < m[i].period.end.stamp() by {
                if i == 0 {
                    assert(m[0] == a1);
                } else {
                    assert(m[i] == mr[i - 1]);
                }
            }
        }
    }
}

/// A maximally merged timeline is a fixed point of the merge engine.
proof fn lemma_merge_fixed_point<T: PartialEq>(s: Seq<PeriodValue<T>>)
    requires
        merged_form(s),
        all_non_empty(s),
    ensures
        merge_values_spec(s) == s,
    decreases s.len(),
{
    if s.len() == 0 {
        assert(merge_values_spec(s) =~= s);
    } else {
        let rest = s.drop_first();
        if rest.len() > 0 {
            assert(rest[0] == s[1]);
            assert(!can_extend(s[0], rest[0]));
            assert(!(rest[0].period.start.stamp() < s[0].period.end.stamp()));
        }
        assert(absorb_values(s[0], rest) == (s[0], rest));
        assert(merged_form(rest)) by {
            assert forall|i: int| 0 <= i < rest.len() - 1 implies (
            #[trigger] rest[i]).period.end.stamp() <= rest[i + 1].period.start.stamp() && (
            rest[i].period.end == rest[i + 1].period.start ==> !rest[i].value.eq_spec(
                &rest[i + 1].value,
            )) by {
                assert(rest[i] == s[i + 1]);
                assert(rest[i + 1] == s[i + 2]);
            }
        }
        assert(all_non_empty(rest)) by {
            assert forall|i: int| 0 <= i < rest.len() implies (
            #[trigger] rest[i]).period.start.stamp() < rest[i].period.end.stamp() by {
                assert(rest[i] == s[i + 1]);
            }
        }
        lemma_merge_fixed_point(rest);
        assert(merge_values_spec(s) =~= s);
    }
}

/// Merging is idempotent: on a timeline ordered by non-decreasing start
/// whose consecutive elements do not overlap, applying the merge engine
/// twice yields exactly what applying it once yields — the merge's output
/// is already maximally merged.
pub proof fn lemma_merge_idempotent<T: PartialEq>(s: Seq<PeriodValue<T>>)
    requires
        no_consecutive_overlap(s),
        all_non_empty(s),
    ensures
        merge_values_spec(merge_values_spec(s)) == merge_values_spec(s),
{
    lemma_merge_output_merged(s);
    lemma_merge_fixed_point(merge_values_spec(s));
}

/// A timeline cursor: hands out an ordered sequence of period-attached
/// values one element at a time, front to back, consuming them.
pub struct Timeline<T> {
    values: Vec<PeriodValue<T>>,
}

impl<T> Timeline<T> {
    /// The elements not yet handed out.
    pub closed spec fn remaining(self) -> Seq<PeriodValue<T>> {
        self.values@
    }

    /// Wrap an ordered sequence of period values as a timeline.
    pub fn new(values: Vec<PeriodValue<T>>) -> (t: Timeline<T>)
        ensures
            t.remaining() == values@,
    {
        Timeline { values }
    }

    /// The next element of the timeline, or `None` once it is exhausted.
    pub fn next(&mut self) -> (r: Option<PeriodValue<T>>)
        ensures
            old(self).remaining().len() == 0 ==> r is None,
            old(self).remaining().len() == 0 ==> final(self).remaining() == old(self).remaining(),
            old(self).remaining().len() > 0 ==> r == Some(old(self).remaining()[0]),
            old(self).remaining().len() > 0 ==> final(self).remaining() == old(
                self,
            ).remaining().drop_first(),
    {
        if self.values.is_empty() {
            None
        } else {
            let ghost before = self.values@;
            let v = self.values.remove(0);
            proof {
                assert(self.values@ =~= before.drop_first());
            }
            Some(v)
        }
    }
}

} // verus!
