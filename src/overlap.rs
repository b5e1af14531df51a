//! Reported overlaps and what makes a list of them a correct report.
use vstd::prelude::*;
use crate::cidr::space;
use crate::marks::MarkSet;

verus! {

/// An inclusive address range `start..=end` and the marks active over it.
#[derive(Debug)]
pub struct Overlap {
    pub start: u32,
    pub end: u32,
    pub marks: MarkSet,
}

impl View for Overlap {
    type V = (int, int, Set<u32>);

    open spec fn view(&self) -> (int, int, Set<u32>) {
        (self.start as int, self.end as int, self.marks@)
    }
}

impl Overlap {
    pub fn new(start: u32, end: u32, marks: MarkSet) -> (r: Overlap)
        requires
            marks.wf(),
            marks@.len() >= 2,
            start <= end,
        ensures
            r.start == start,
            r.end == end,
            r.marks == marks,
    {
        Overlap { start, end, marks }
    }

    /// Whether address `a` lies in the range.
    pub open spec fn holds(&self, a: int) -> bool {
        self.start <= a <= self.end
    }
}

/// `o` is a non-empty range inside `lo..hi` over which `f` is constantly
/// `o`'s marks, and those are at least two.
pub open spec fn homogeneous(o: Overlap, f: spec_fn(int) -> Set<u32>, lo: int, hi: int) -> bool {
    &&& lo <= o.start <= o.end < hi
    &&& o.marks.wf()
    &&& o.marks@.len() >= 2
    &&& forall|a: int| o.start <= a <= o.end ==> #[trigger] f(a) == o.marks@
}

/// The ranges are in increasing order and pairwise disjoint.
pub open spec fn ascending(s: Seq<Overlap>) -> bool {
    forall|i: int, j: int| 0 <= i < j < s.len() ==> #[trigger] s[i].end < #[trigger] s[j].start
}

/// Every address of `lo..hi` where `f` holds two or more marks lies in one
/// of the ranges.
pub open spec fn covers(s: Seq<Overlap>, f: spec_fn(int) -> Set<u32>, lo: int, hi: int) -> bool {
    forall|a: int|
        lo <= a < hi && #[trigger] f(a).len() >= 2 ==> exists|i: int|
            0 <= i < s.len() && #[trigger] s[i].holds(a)
}

/// `s` lists, in order, homogeneous multiply-marked ranges of `lo..hi` that
/// together hold every multiply-marked address of it.
pub open spec fn segments_of(s: Seq<Overlap>, f: spec_fn(int) -> Set<u32>, lo: int, hi: int) -> bool {
    &&& forall|i: int| 0 <= i < s.len() ==> homogeneous(#[trigger] s[i], f, lo, hi)
    &&& ascending(s)
    &&& covers(s, f, lo, hi)
}

/// No range can grow by one address at either end and stay homogeneous.
pub open spec fn maximal(s: Seq<Overlap>, f: spec_fn(int) -> Set<u32>) -> bool {
    forall|i: int|
        0 <= i < s.len() ==> {
            &&& (#[trigger] s[i]).start == 0 || f(s[i].start - 1) != s[i].marks@
            &&& s[i].end == space() - 1 || f(s[i].end + 1) != s[i].marks@
        }
}

/// `s` is the report of the coverage function `f`: the maximal homogeneous
/// ranges of addresses that carry two or more marks, in increasing order.
pub open spec fn is_report(s: Seq<Overlap>, f: spec_fn(int) -> Set<u32>) -> bool {
    segments_of(s, f, 0, space()) && maximal(s, f)
}

/// The set of (start, end, marks) triples of a report.
pub open spec fn triples(s: Seq<Overlap>) -> Set<(int, int, Set<u32>)> {
    s.map_values(|o: Overlap| o@).to_set()
}

proof fn lemma_in_other_report(
    r1: Seq<Overlap>,
    r2: Seq<Overlap>,
    f: spec_fn(int) -> Set<u32>,
    g: spec_fn(int) -> Set<u32>,
    i: int,
) -> (j: int)
    requires
        is_report(r1, f),
        is_report(r2, g),
        forall|a: int| 0 <= a < space() ==> #[trigger] f(a) == g(a),
        0 <= i < r1.len(),
    ensures
        0 <= j < r2.len(),
        r2[j]@ == r1[i]@,
{
    let o = r1[i];
    assert(homogeneous(o, f, 0, space()));
    let a = o.start as int;
    assert(f(a) == o.marks@);
    assert(g(a).len() >= 2);
    let j = choose|j: int| 0 <= j < r2.len() && #[trigger] r2[j].holds(a);
    let p = r2[j];
    assert(homogeneous(p, g, 0, space()));
    assert(g(a) == p.marks@);
    if p.start < o.start {
        assert(g(a - 1) == p.marks@);
        assert(f(a - 1) == o.marks@);
    }
    if p.end < o.end {
        assert(f(p.end + 1) == o.marks@);
        assert(g(p.end + 1) == p.marks@);
    }
    if p.end > o.end {
        assert(g(o.end + 1) == p.marks@);
        assert(f(o.end + 1) == o.marks@);
    }
    j
}

/// Two reports of one coverage function hold the same ranges with the same
/// marks: whatever structure built a report, it depends on the coverage alone.
pub proof fn lemma_report_unique(
    r1: Seq<Overlap>,
    r2: Seq<Overlap>,
    f: spec_fn(int) -> Set<u32>,
    g: spec_fn(int) -> Set<u32>,
)
    requires
        is_report(r1, f),
        is_report(r2, g),
        forall|a: int| 0 <= a < space() ==> #[trigger] f(a) == g(a),
    ensures
        triples(r1) == triples(r2),
{
    assert forall|t: (int, int, Set<u32>)| triples(r1).contains(t) implies triples(r2).contains(
        t,
    ) by {
        let v1 = r1.map_values(|o: Overlap| o@);
        let i = choose|i: int| 0 <= i < v1.len() && #[trigger] v1[i] == t;
        let j = lemma_in_other_report(r1, r2, f, g, i);
        assert(r2.map_values(|o: Overlap| o@)[j] == t);
    }
    assert forall|t: (int, int, Set<u32>)| triples(r2).contains(t) implies triples(r1).contains(
        t,
    ) by {
        let v2 = r2.map_values(|o: Overlap| o@);
        let i = choose|i: int| 0 <= i < v2.len() && #[trigger] v2[i] == t;
        let j = lemma_in_other_report(r2, r1, g, f, i);
        assert(r1.map_values(|o: Overlap| o@)[j] == t);
    }
    assert(triples(r1) =~= triples(r2));
}

/// Between two consecutive segments, and before the first or after the last,
/// no address carries two marks.
proof fn lemma_gap(raw: Seq<Overlap>, f: spec_fn(int) -> Set<u32>, i: int, a: int)
    requires
        segments_of(raw, f, 0, space()),
        0 <= i <= raw.len(),
        0 <= a < space(),
        i == 0 || raw[i - 1].end < a,
        i == raw.len() || a < raw[i].start,
    ensures
        f(a).len() < 2,
{
    if f(a).len() >= 2 {
        let j = choose|j: int| 0 <= j < raw.len() && #[trigger] raw[j].holds(a);
        assert(homogeneous(raw[j], f, 0, space()));
        if j < i - 1 {
            assert(raw[j].end < raw[i - 1].start);
            assert(homogeneous(raw[i - 1], f, 0, space()));
        } else if j > i {
            assert(raw[i].end < raw[j].start);
            assert(homogeneous(raw[i], f, 0, space()));
        }
    }
}

/// Joins neighbouring segments that touch and carry the same marks.
pub(crate) fn coalesce(raw: &Vec<Overlap>, Ghost(f): Ghost<spec_fn(int) -> Set<u32>>) -> (r: Vec<
    Overlap,
>)
    requires
        segments_of(raw@, f, 0, space()),
    ensures
        is_report(r@, f),
{
    let mut out: Vec<Overlap> = Vec::new();
    let mut i: usize = 0;
    while i < raw.len()
        invariant
            segments_of(raw@, f, 0, space()),
            0 <= i <= raw.len(),
            forall|k: int| 0 <= k < out.len() ==> homogeneous(#[trigger] out@[k], f, 0, space()),
            ascending(out@),
            i == 0 ==> out.len() == 0,
            i > 0 ==> out.len() > 0 && out@.last().end == raw@[i - 1].end,
            forall|a: int|
                0 <= a && i > 0 && a <= raw@[i - 1].end && #[trigger] f(a).len() >= 2 ==> exists|
                    k: int,
                | 0 <= k < out.len() && #[trigger] out@[k].holds(a),
            forall|k: int|
                0 <= k < out.len() ==> (#[trigger] out@[k]).start == 0 || f(out@[k].start - 1)
                    != out@[k].marks@,
            forall|k: int|
                0 <= k < out.len() - 1 ==> (#[trigger] out@[k]).end == space() - 1 || f(
                    out@[k].end + 1,
                ) != out@[k].marks@,
        decreases raw.len() - i,
    {
        let seg = &raw[i];
        assert(homogeneous(*seg, f, 0, space()));
        if i > 0 {
            assert(raw@[i - 1].end < raw@[i as int].start);
        }
        let ghost old_out = out@;
        let n = out.len();
        let touches = n > 0 && (out[n - 1].end as u64) + 1 == seg.start as u64;
        if touches && out[n - 1].marks.same_as(&seg.marks) {
            let mut last = out.pop().unwrap();
            let ghost l = last;
            assert(old_out[n - 1] == l);
            assert(homogeneous(l, f, 0, space()));
            last.end = seg.end;
            out.push(last);
            assert(out@ =~= old_out.update(n - 1, last));
            assert(forall|a: int| l.start <= a <= l.end ==> #[trigger] f(a) == l.marks@);
            assert(forall|a: int| seg.start <= a <= seg.end ==> #[trigger] f(a) == seg.marks@);
            assert(homogeneous(last, f, 0, space()));
            assert forall|k: int| 0 <= k < out.len() implies homogeneous(
                #[trigger] out@[k],
                f,
                0,
                space(),
            ) by {
                if k < n - 1 {
                    assert(out@[k] == old_out[k]);
                }
            }
            assert forall|p: int, q: int| 0 <= p < q < out.len() implies #[trigger] out@[p].end
                < #[trigger] out@[q].start by {
                assert(old_out[p].end < old_out[q].start);
            }
            assert forall|a: int|
                0 <= a && a <= raw@[i as int].end && #[trigger] f(a).len() >= 2 implies exists|
                    k: int,
                | 0 <= k < out.len() && #[trigger] out@[k].holds(a) by {
                if a <= raw@[i - 1].end {
                    let k = choose|k: int| 0 <= k < old_out.len() && #[trigger] old_out[k].holds(a);
                    assert(out@[k].holds(a));
                } else {
                    assert(out@[n - 1].holds(a));
                }
            }
            assert forall|k: int| 0 <= k < out.len() implies (#[trigger] out@[k]).start == 0 || f(
                out@[k].start - 1,
            ) != out@[k].marks@ by {
                assert(old_out[k].start == out@[k].start);
            }
            assert forall|k: int| 0 <= k < out.len() - 1 implies (#[trigger] out@[k]).end == space()
                - 1 || f(out@[k].end + 1) != out@[k].marks@ by {
                assert(old_out[k] == out@[k]);
            }
        } else {
            let o = Overlap { start: seg.start, end: seg.end, marks: seg.marks.copy() };
            proof {
                if n > 0 {
                    let l = old_out[n - 1];
                    assert(homogeneous(l, f, 0, space()));
                    if l.end + 1 == seg.start {
                        assert(f(seg.start - 1) == l.marks@);
                        assert(f(l.end + 1) == seg.marks@);
                    } else {
                        lemma_gap(raw@, f, i as int, seg.start - 1);
                        lemma_gap(raw@, f, i as int, l.end + 1);
                    }
                } else if seg.start > 0 {
                    lemma_gap(raw@, f, i as int, seg.start - 1);
                }
            }
            out.push(o);
            assert(out@ =~= old_out.push(o));
            assert(homogeneous(o, f, 0, space()));
            assert forall|k: int| 0 <= k < out.len() implies homogeneous(
                #[trigger] out@[k],
                f,
                0,
                space(),
            ) by {
                if k < n {
                    assert(out@[k] == old_out[k]);
                }
            }
            assert forall|p: int, q: int| 0 <= p < q < out.len() implies #[trigger] out@[p].end
                < #[trigger] out@[q].start by {
                if q < n {
                    assert(old_out[p].end < old_out[q].start);
                } else if p < n - 1 {
                    assert(old_out[p].end < old_out[n - 1].start);
                    assert(homogeneous(old_out[n - 1], f, 0, space()));
                }
            }
            assert forall|a: int|
                0 <= a && a <= raw@[i as int].end && #[trigger] f(a).len() >= 2 implies exists|
                    k: int,
                | 0 <= k < out.len() && #[trigger] out@[k].holds(a) by {
                if i > 0 && a <= raw@[i - 1].end {
                    let k = choose|k: int| 0 <= k < old_out.len() && #[trigger] old_out[k].holds(a);
                    assert(out@[k].holds(a));
                } else if a < seg.start {
                    lemma_gap(raw@, f, i as int, a);
                } else {
                    assert(out@[n as int].holds(a));
                }
            }
            assert forall|k: int| 0 <= k < out.len() implies (#[trigger] out@[k]).start == 0 || f(
                out@[k].start - 1,
            ) != out@[k].marks@ by {
                if k < n {
                    assert(old_out[k] == out@[k]);
                }
            }
            assert forall|k: int| 0 <= k < out.len() - 1 implies (#[trigger] out@[k]).end == space()
                - 1 || f(out@[k].end + 1) != out@[k].marks@ by {
                assert(old_out[k] == out@[k]);
            }
        }
        i = i + 1;
    }
    proof {
        let n = raw.len() as int;
        assert forall|a: int| 0 <= a < space() && #[trigger] f(a).len() >= 2 implies exists|
            k: int,
        | 0 <= k < out.len() && #[trigger] out@[k].holds(a) by {
            if n == 0 || a > raw@[n - 1].end {
                lemma_gap(raw@, f, n, a);
            }
        }
        if out.len() > 0 {
            let l = out@.last();
            assert(homogeneous(l, f, 0, space()));
            if l.end < space() - 1 {
                lemma_gap(raw@, f, n, l.end + 1);
            }
        }
    }
    out
}

/// Segments of two adjacent stretches, listed one after the other, are
/// segments of the stretch they make together.
pub proof fn lemma_segments_concat(
    s1: Seq<Overlap>,
    s2: Seq<Overlap>,
    f: spec_fn(int) -> Set<u32>,
    lo: int,
    mid: int,
    hi: int,
)
    requires
        segments_of(s1, f, lo, mid),
        segments_of(s2, f, mid, hi),
        lo <= mid <= hi,
    ensures
        segments_of(s1 + s2, f, lo, hi),
{
    let s = s1 + s2;
    assert forall|i: int| 0 <= i < s.len() implies homogeneous(#[trigger] s[i], f, lo, hi) by {
        if i < s1.len() {
            assert(homogeneous(s1[i], f, lo, mid));
        } else {
            assert(homogeneous(s2[i - s1.len()], f, mid, hi));
        }
    }
    assert forall|i: int, j: int| 0 <= i < j < s.len() implies #[trigger] s[i].end
        < #[trigger] s[j].start by {
        if j < s1.len() {
            assert(s1[i].end < s1[j].start);
        } else if i >= s1.len() {
            assert(s2[i - s1.len()].end < s2[j - s1.len()].start);
        } else {
            assert(homogeneous(s1[i], f, lo, mid));
            assert(homogeneous(s2[j - s1.len()], f, mid, hi));
        }
    }
    assert forall|a: int| lo <= a < hi && #[trigger] f(a).len() >= 2 implies exists|i: int|
        0 <= i < s.len() && #[trigger] s[i].holds(a) by {
        if a < mid {
            let i = choose|i: int| 0 <= i < s1.len() && #[trigger] s1[i].holds(a);
            assert(s[i].holds(a));
        } else {
            let i = choose|i: int| 0 <= i < s2.len() && #[trigger] s2[i].holds(a);
            assert(s[i + s1.len()].holds(a));
        }
    }
}

/// Appends the run `lo..hi`, over which the coverage is `marks`, when it
/// holds two or more marks.
pub(crate) fn push_run(overlaps: &mut Vec<Overlap>, lo: u64, hi: u64, marks: &MarkSet, Ghost(f): Ghost<spec_fn(int) -> Set<u32>>)
    requires
        marks.wf(),
        lo < hi <= space(),
        forall|a: int| lo <= a < hi ==> #[trigger] f(a) == marks@,
    ensures
        final(overlaps)@.len() >= old(overlaps)@.len(),
        final(overlaps)@.subrange(0, old(overlaps)@.len() as int) == old(overlaps)@,
        segments_of(final(overlaps)@.subrange(old(overlaps)@.len() as int, final(overlaps)@.len() as int), f, lo as int, hi as int),
        final(overlaps)@.subrange(old(overlaps)@.len() as int, final(overlaps)@.len() as int).map_values(
            |o: Overlap| o@,
        ) == if marks@.len() >= 2 {
            seq![(lo as int, hi - 1, marks@)]
        } else {
            Seq::<(int, int, Set<u32>)>::empty()
        },
{
    let ghost start = overlaps@;
    if marks.len() > 1 {
        let o = Overlap { start: lo as u32, end: (hi - 1) as u32, marks: marks.copy() };
        overlaps.push(o);
        let ghost added = overlaps@.subrange(start.len() as int, overlaps@.len() as int);
        assert(added =~= seq![o]);
        assert(added.map_values(|o: Overlap| o@) =~= seq![(lo as int, hi - 1, marks@)]);
        assert(homogeneous(added[0], f, lo as int, hi as int));
        assert forall|a: int| lo <= a < hi && #[trigger] f(a).len() >= 2 implies exists|i: int| 0 <= i < added.len() && #[trigger] added[i].holds(a) by {
            assert(added[0].holds(a));
        }
    } else {
        assert(overlaps@.subrange(start.len() as int, overlaps@.len() as int) =~= Seq::<Overlap>::empty());
        assert(overlaps@.subrange(start.len() as int, overlaps@.len() as int).map_values(|o: Overlap| o@)
            =~= Seq::<(int, int, Set<u32>)>::empty());
    }
    assert(overlaps@.subrange(0, start.len() as int) =~= start);
}

} // verus!
