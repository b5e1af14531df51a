//! Coverage kept as a sorted list of breakpoints, each with the marks of the
//! segment that starts there.
use vstd::prelude::*;
use crate::cidr::{block_len, block_size, space, Cidrv4};
use crate::collider::{add_block, Collider};
use crate::marks::{Mark, MarkSet};
use crate::overlap::{coalesce, homogeneous, segments_of, Overlap};

verus! {

/// The start of a segment and the marks active over it.
pub struct Breakpoint {
    pub at: u32,
    pub marks: MarkSet,
}

/// The marks active at `a`: those of the last breakpoint at or below `a`.
pub open spec fn lookup(s: Seq<Breakpoint>, a: int) -> Set<u32>
    decreases s.len(),
{
    if s.len() == 0 {
        Set::empty()
    } else if s.last().at <= a {
        s.last().marks@
    } else {
        lookup(s.drop_last(), a)
    }
}

/// Breakpoints in strictly increasing order, each with a well-formed set.
pub open spec fn breakpoints_wf(s: Seq<Breakpoint>) -> bool {
    &&& forall|i: int, j: int| 0 <= i < j < s.len() ==> #[trigger] s[i].at < #[trigger] s[j].at
    &&& forall|i: int| 0 <= i < s.len() ==> (#[trigger] s[i]).marks.wf()
}

proof fn lemma_lookup_push(s: Seq<Breakpoint>, e: Breakpoint, a: int)
    ensures
        lookup(s.push(e), a) == if e.at <= a {
            e.marks@
        } else {
            lookup(s, a)
        },
{
    assert(s.push(e).drop_last() =~= s);
}

proof fn lemma_lookup_at(s: Seq<Breakpoint>, i: int, a: int)
    requires
        breakpoints_wf(s),
        0 <= i < s.len(),
        s[i].at <= a,
        i + 1 == s.len() || a < s[i + 1].at,
    ensures
        lookup(s, a) == s[i].marks@,
    decreases s.len(),
{
    if i + 1 < s.len() {
        assert(s[i + 1].at <= s.last().at) by {
            if i + 1 < s.len() - 1 {
                assert(s[i + 1].at < s[s.len() - 1].at);
            }
        }
        let t = s.drop_last();
        assert(breakpoints_wf(t)) by {
            assert forall|p: int, q: int| 0 <= p < q < t.len() implies #[trigger] t[p].at
                < #[trigger] t[q].at by {
                assert(s[p].at < s[q].at);
            }
            assert forall|p: int| 0 <= p < t.len() implies (#[trigger] t[p]).marks.wf() by {
                assert(s[p].marks.wf());
            }
        }
        lemma_lookup_at(t, i, a);
    }
}

/// Breakpoints over the address line, in increasing order; a breakpoint at
/// 0 always exists. They are kept in a vector, since vstd specifies no
/// ordered range walk over a `BTreeMap`; a mark rebuilds the vector in one
/// pass, splitting the segments that the block cuts.
pub struct RangeTree {
    pub map: Vec<Breakpoint>,
}

/// The addresses at which the breakpoints of `s` stand.
pub open spec fn key_set(s: Seq<Breakpoint>) -> Set<u32> {
    Set::new(|k: u32| exists|i: int| 0 <= i < s.len() && #[trigger] s[i].at == k)
}

/// The keys that a mark of `lo..hi` adds below `bound`: `lo`, and `hi`
/// when it is an address.
pub open spec fn bounds_below(lo: int, hi: int, bound: int) -> Set<u32> {
    Set::new(|k: u32| (k == lo && lo < bound) || (k == hi && hi < bound))
}

proof fn lemma_key_set_push(s: Seq<Breakpoint>, e: Breakpoint)
    ensures
        key_set(s.push(e)) == key_set(s).insert(e.at),
{
    let t = s.push(e);
    assert forall|k: u32| key_set(t).contains(k) <==> key_set(s).insert(e.at).contains(k) by {
        if key_set(t).contains(k) {
            let i = choose|i: int| 0 <= i < t.len() && #[trigger] t[i].at == k;
            if i < s.len() {
                assert(s[i].at == k);
            }
        }
        if key_set(s).contains(k) {
            let i = choose|i: int| 0 <= i < s.len() && #[trigger] s[i].at == k;
            assert(t[i].at == k);
        }
        assert(t[s.len() as int].at == e.at);
    }
    assert(key_set(t) =~= key_set(s).insert(e.at));
}

impl RangeTree {
    pub fn new() -> (r: RangeTree)
        ensures
            r.inv(),
            r.map@.len() == 1,
            r.map@[0].at == 0,
            r.map@[0].marks@ == Set::<u32>::empty(),
            forall|a: int| 0 <= a < space() ==> #[trigger] r.cover(a) == Set::<u32>::empty(),
    {
        let mut map: Vec<Breakpoint> = Vec::new();
        map.push(Breakpoint { at: 0, marks: MarkSet::new() });
        let r = RangeTree { map };
        assert forall|a: int| 0 <= a < space() implies #[trigger] r.cover(a) == Set::<
            u32,
        >::empty() by {
            lemma_lookup_at(r.map@, 0, a);
        }
        r
    }
}

impl Default for RangeTree {
    fn default() -> (r: RangeTree)
        ensures
            r.inv(),
            r.map@.len() == 1,
            r.map@[0].at == 0,
            r.map@[0].marks@ == Set::<u32>::empty(),
            forall|a: int| 0 <= a < space() ==> #[trigger] r.cover(a) == Set::<u32>::empty(),
    {
        RangeTree::new()
    }
}

impl RangeTree {
    /// Adds `mark` over `cidr`: breakpoints are added at the block's first
    /// address and at the address just past it, each taking the marks active
    /// there, and every breakpoint inside the block gains `mark`.
    pub fn mark(&mut self, cidr: &Cidrv4, mark: Mark)
        requires
            old(self).inv(),
            cidr.wf(),
        ensures
            final(self).inv(),
            forall|a: int|
                0 <= a < space() ==> #[trigger] final(self).cover(a) == add_block(
                    |x: int| old(self).cover(x),
                    *cidr,
                    mark,
                    a,
                ),
            final(self).map@.len() <= old(self).map@.len() + 2,
            key_set(final(self).map@) == key_set(old(self).map@).union(
                bounds_below(cidr.ip as int, cidr.ip + block_size(cidr.subnet_bits), space()),
            ),
            forall|j: int|
                0 <= j < final(self).map@.len() ==> (#[trigger] final(self).map@[j]).marks@
                    == add_block(|x: int| old(self).cover(x), *cidr, mark, final(self).map@[j].at as int),
    {
        let ghost f = |x: int| old(self).cover(x);
        let lo: u64 = cidr.ip as u64;
        let hi: u64 = lo + block_len(cidr.subnet_bits);
        proof {
            crate::cidr::lemma_cidr_end(*cidr);
        }
        let n = self.map.len();
        let mut out: Vec<Breakpoint> = Vec::new();
        let mut i: usize = 0;
        while i < n
            invariant
                n == old(self).map.len(),
                self.inv(),
                self.map@ == old(self).map@,
                f == (|x: int| old(self).cover(x)),
                lo == cidr.ip,
                hi == cidr.ip + block_size(cidr.subnet_bits),
                hi <= space(),
                lo < hi,
                0 <= i <= n,
                breakpoints_wf(out@),
                i > 0 ==> out.len() > 0 && out@[0].at == 0,
                out.len() <= i + (if lo < (if i < n { self.map@[i as int].at as int } else { space() }) { 1int } else { 0int }) + (if hi < (if i < n { self.map@[i as int].at as int } else { space() }) { 1int } else { 0int }),
                key_set(out@) == key_set(self.map@.subrange(0, i as int)).union(
                    bounds_below(lo as int, hi as int, if i < n { self.map@[i as int].at as int } else { space() }),
                ),
                i < n ==> forall|k: int| 0 <= k < out.len() ==> #[trigger] out@[k].at < self.map@[i as int].at,
                forall|a: int|
                    0 <= a && (i < n ==> a < self.map@[i as int].at) && a < space() ==> #[trigger] lookup(out@, a)
                        == add_block(f, *cidr, mark, a),
            decreases n - i,
        {
            let k: u64 = self.map[i].at as u64;
            let nx: u64 = if i + 1 < n {
                self.map[i + 1].at as u64
            } else {
                0x1_0000_0000u64
            };
            proof {
                if i + 1 < n {
                    assert(self.map@[i as int].at < self.map@[i + 1].at);
                }
                assert forall|a: int| k <= a < nx implies #[trigger] f(a) == self.map@[i as int].marks@ by {
                    lemma_lookup_at(self.map@, i as int, a);
                }
                assert(self.map@[i as int].marks.wf());
            }
            let ghost start_out = out@;
            let ghost bound = if i < n { self.map@[i as int].at as int } else { space() };
            let ghost next_bound = if i + 1 < n { self.map@[i + 1].at as int } else { space() };
            assert(next_bound == nx);
            // The part of the segment below the block.
            if k < lo {
                let piece = Breakpoint { at: k as u32, marks: self.map[i].marks.copy() };
                out.push(piece);
                proof {
                    lemma_key_set_push(start_out, piece);
                    assert forall|a: int| 0 <= a < k implies #[trigger] lookup(out@, a) == lookup(start_out, a) by {
                        lemma_lookup_push(start_out, piece, a);
                    }
                    assert forall|a: int| k <= a < space() implies #[trigger] lookup(out@, a) == self.map@[i as int].marks@ by {
                        lemma_lookup_push(start_out, piece, a);
                    }
                }
            }
            let ghost mid_out = out@;
            let in_lo: u64 = if k > lo { k } else { lo };
            let in_hi: u64 = if nx < hi { nx } else { hi };
            // The part of the segment inside the block.
            if in_lo < in_hi {
                let mut s = self.map[i].marks.copy();
                s.insert(mark);
                let piece = Breakpoint { at: in_lo as u32, marks: s };
                out.push(piece);
                proof {
                    lemma_key_set_push(mid_out, piece);
                    assert forall|a: int| 0 <= a < in_lo implies #[trigger] lookup(out@, a) == lookup(mid_out, a) by {
                        lemma_lookup_push(mid_out, piece, a);
                    }
                    assert forall|a: int| in_lo <= a < space() implies #[trigger] lookup(out@, a) == s@ by {
                        lemma_lookup_push(mid_out, piece, a);
                    }
                }
            }
            let ghost late_out = out@;
            let above_lo: u64 = if k > hi { k } else { hi };
            // The part of the segment above the block.
            if above_lo < nx {
                let piece = Breakpoint { at: above_lo as u32, marks: self.map[i].marks.copy() };
                out.push(piece);
                proof {
                    lemma_key_set_push(late_out, piece);
                    assert forall|a: int| 0 <= a < above_lo implies #[trigger] lookup(out@, a) == lookup(late_out, a) by {
                        lemma_lookup_push(late_out, piece, a);
                    }
                    assert forall|a: int| above_lo <= a < space() implies #[trigger] lookup(out@, a) == self.map@[i as int].marks@ by {
                        lemma_lookup_push(late_out, piece, a);
                    }
                }
            }
            proof {
                assert(breakpoints_wf(out@));
                let done = self.map@.subrange(0, i as int);
                let done2 = self.map@.subrange(0, i + 1);
                assert(done2 =~= done.push(self.map@[i as int]));
                lemma_key_set_push(done, self.map@[i as int]);
                assert(key_set(out@) =~= key_set(done2).union(bounds_below(lo as int, hi as int, next_bound))) by {
                    assert forall|x: u32| key_set(out@).contains(x) <==> key_set(done2).union(bounds_below(lo as int, hi as int, next_bound)).contains(x) by {
                        if x == k {
                            if k < lo {
                                assert(key_set(mid_out).contains(x));
                            } else if k < hi {
                                assert(key_set(late_out).contains(x));
                            }
                        }
                        if x == lo && k < lo && lo < nx {
                            assert(key_set(late_out).contains(x));
                        }
                        if x == hi && k < hi && hi < nx {
                            assert(key_set(out@).contains(x));
                        }
                    }
                }
                assert forall|a: int| 0 <= a && (i + 1 < n ==> a < self.map@[i + 1].at) && a < space()
                    implies #[trigger] lookup(out@, a) == add_block(f, *cidr, mark, a) by {
                    if a < k {
                        assert(lookup(out@, a) == lookup(start_out, a));
                    }
                }
            }
            i = i + 1;
        }
        proof {
            assert(self.map@.subrange(0, n as int) =~= self.map@);
            assert forall|j: int| 0 <= j < out@.len() implies (#[trigger] out@[j]).marks@
                == add_block(f, *cidr, mark, out@[j].at as int) by {
                lemma_lookup_at(out@, j, out@[j].at as int);
                if j + 1 < out@.len() {
                    assert(out@[j].at < out@[j + 1].at);
                }
            }
        }
        self.map = out;
    }
}

impl Collider for RangeTree {
    open spec fn inv(&self) -> bool {
        &&& breakpoints_wf(self.map@)
        &&& self.map.len() > 0
        &&& self.map@[0].at == 0
    }

    open spec fn cover(&self, a: int) -> Set<u32> {
        lookup(self.map@, a)
    }

    fn mark(&mut self, cidr: &Cidrv4, mark: Mark) {
        RangeTree::mark(self, cidr, mark);
    }

    fn overlaps(&self) -> (r: Vec<Overlap>) {
        let ghost f = |a: int| self.cover(a);
        let n = self.map.len();
        let mut raw: Vec<Overlap> = Vec::new();
        let mut i: usize = 0;
        while i < n
            invariant
                n == self.map.len(),
                self.inv(),
                f == (|a: int| self.cover(a)),
                0 <= i <= n,
                segments_of(raw@, f, 0, if i < n { self.map@[i as int].at as int } else { space() }),
            decreases n - i,
        {
            let k: u32 = self.map[i].at;
            let last: u32 = if i + 1 < n {
                self.map[i + 1].at - 1
            } else {
                0xFFFF_FFFFu32
            };
            let ghost b = k as int;
            let ghost b2 = last + 1;
            proof {
                if i + 1 < n {
                    assert(self.map@[i as int].at < self.map@[i + 1].at);
                }
                assert forall|a: int| k <= a <= last implies #[trigger] f(a) == self.map@[i as int].marks@ by {
                    lemma_lookup_at(self.map@, i as int, a);
                }
                assert(self.map@[i as int].marks.wf());
            }
            let ghost old_raw = raw@;
            if self.map[i].marks.len() > 1 {
                let o = Overlap { start: k, end: last, marks: self.map[i].marks.copy() };
                raw.push(o);
                assert(raw@ =~= old_raw.push(o));
                assert(homogeneous(o, f, 0, b2));
                assert forall|j: int| 0 <= j < raw.len() implies homogeneous(#[trigger] raw@[j], f, 0, b2) by {
                    if j < old_raw.len() {
                        assert(homogeneous(old_raw[j], f, 0, b));
                    }
                }
                assert forall|p: int, q: int| 0 <= p < q < raw.len() implies #[trigger] raw@[p].end < #[trigger] raw@[q].start by {
                    if q < old_raw.len() {
                        assert(old_raw[p].end < old_raw[q].start);
                    } else {
                        assert(homogeneous(old_raw[p], f, 0, b));
                    }
                }
                assert forall|a: int| 0 <= a < b2 && #[trigger] f(a).len() >= 2 implies exists|j: int| 0 <= j < raw.len() && #[trigger] raw@[j].holds(a) by {
                    if a < b {
                        let j = choose|j: int| 0 <= j < old_raw.len() && #[trigger] old_raw[j].holds(a);
                        assert(raw@[j].holds(a));
                    } else {
                        assert(raw@[old_raw.len() as int].holds(a));
                    }
                }
            } else {
                assert forall|j: int| 0 <= j < raw.len() implies homogeneous(#[trigger] raw@[j], f, 0, b2) by {
                    assert(homogeneous(old_raw[j], f, 0, b));
                }
                assert forall|a: int| 0 <= a < b2 && #[trigger] f(a).len() >= 2 implies exists|j: int| 0 <= j < raw.len() && #[trigger] raw@[j].holds(a) by {
                    if a >= b {
                        assert(f(a) == self.map@[i as int].marks@);
                    }
                }
            }
            i = i + 1;
        }
        coalesce(&raw, Ghost(f))
    }
}

} // verus!
