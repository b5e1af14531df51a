//! The interface shared by the indexing strategies.
use vstd::prelude::*;
use crate::cidr::{space, Cidrv4};
use crate::marks::Mark;
use crate::overlap::{homogeneous, is_report, lemma_report_unique, triples, Overlap};

verus! {

/// The coverage `f` after adding `m` to every address of `cidr`, at `a`.
pub open spec fn add_block(f: spec_fn(int) -> Set<u32>, cidr: Cidrv4, m: Mark, a: int) -> Set<u32> {
    if cidr.contains(a) {
        f(a).insert(m)
    } else {
        f(a)
    }
}

/// A structure that records which owners claim which addresses and reports
/// the addresses claimed by several of them.
pub trait Collider {
    /// The structure is well formed.
    spec fn inv(&self) -> bool;

    /// The marks whose blocks hold address `a`.
    spec fn cover(&self, a: int) -> Set<u32>;

    /// Adds `mark` to the coverage of every address of `cidr`.
    fn mark(&mut self, cidr: &Cidrv4, mark: Mark)
        requires
            old(self).inv(),
            cidr.wf(),
        ensures
            final(self).inv(),
            forall|a: int|
                0 <= a < space() ==> #[trigger] final(self).cover(a) == add_block(
                    |x: int| old(self).cover(x),
                    *cidr,
                    mark,
                    a,
                ),
    ;

    /// The maximal ranges of addresses that carry two or more marks, each
    /// with its marks, in increasing order.
    fn overlaps(&self) -> (r: Vec<Overlap>)
        requires
            self.inv(),
        ensures
            is_report(r@, |a: int| self.cover(a)),
    ;
}

/// The marks of the blocks of `s` that hold address `a`.
pub open spec fn coverage(s: Seq<(Cidrv4, Mark)>, a: int) -> Set<u32> {
    Set::new(|m: u32| exists|i: int| 0 <= i < s.len() && s[i].1 == m && #[trigger] s[i].0.contains(a))
}

/// Marking one more block takes the coverage of a list of blocks to that of
/// the list with the block appended: whatever the strategy, a collider fed
/// the pairs of `s` in turn covers each address with `coverage(s, a)`.
pub proof fn lemma_mark_extends_coverage(
    s: Seq<(Cidrv4, Mark)>,
    f: spec_fn(int) -> Set<u32>,
    cidr: Cidrv4,
    m: Mark,
)
    requires
        forall|a: int| 0 <= a < space() ==> #[trigger] f(a) == coverage(s, a),
    ensures
        forall|a: int|
            0 <= a < space() ==> #[trigger] add_block(f, cidr, m, a) == coverage(s.push((cidr, m)), a),
{
    let t = s.push((cidr, m));
    assert forall|a: int| 0 <= a < space() implies #[trigger] add_block(f, cidr, m, a) == coverage(t, a) by {
        assert forall|x: u32| add_block(f, cidr, m, a).contains(x) <==> coverage(t, a).contains(x) by {
            if coverage(s, a).contains(x) {
                let i = choose|i: int| 0 <= i < s.len() && s[i].1 == x && #[trigger] s[i].0.contains(a);
                assert(t[i] == s[i]);
            }
            if coverage(t, a).contains(x) {
                let i = choose|i: int| 0 <= i < t.len() && t[i].1 == x && #[trigger] t[i].0.contains(a);
                if i < s.len() {
                    assert(t[i] == s[i]);
                }
            }
            if cidr.contains(a) && x == m {
                assert(t[s.len() as int].0.contains(a));
            }
        }
        assert(add_block(f, cidr, m, a) =~= coverage(t, a));
    }
}

/// Strategies that cover every address with the same marks report the same
/// ranges with the same marks.
pub proof fn lemma_colliders_agree<A: Collider, B: Collider>(
    x: A,
    y: B,
    rx: Seq<Overlap>,
    ry: Seq<Overlap>,
)
    requires
        forall|a: int| 0 <= a < space() ==> #[trigger] x.cover(a) == y.cover(a),
        is_report(rx, |a: int| x.cover(a)),
        is_report(ry, |a: int| y.cover(a)),
    ensures
        triples(rx) == triples(ry),
{
    lemma_report_unique(rx, ry, |a: int| x.cover(a), |a: int| y.cover(a));
}

/// Every range of a report carries at least two marks.
pub proof fn lemma_report_min_marks(r: Seq<Overlap>, f: spec_fn(int) -> Set<u32>, i: int)
    requires
        is_report(r, f),
        0 <= i < r.len(),
    ensures
        r[i].marks@.len() >= 2,
{
    assert(homogeneous(r[i], f, 0, space()));
}

/// An address lies in a reported range exactly when two or more marks cover it.
pub proof fn lemma_report_exact(r: Seq<Overlap>, f: spec_fn(int) -> Set<u32>, a: int)
    requires
        is_report(r, f),
        0 <= a < space(),
    ensures
        (exists|i: int| 0 <= i < r.len() && #[trigger] r[i].holds(a)) <==> f(a).len() >= 2,
{
    if exists|i: int| 0 <= i < r.len() && #[trigger] r[i].holds(a) {
        let i = choose|i: int| 0 <= i < r.len() && #[trigger] r[i].holds(a);
        assert(homogeneous(r[i], f, 0, space()));
    }
}

/// Marking a block a second time with the same mark leaves the report as it was.
pub proof fn lemma_mark_idempotent(
    f: spec_fn(int) -> Set<u32>,
    once: spec_fn(int) -> Set<u32>,
    twice: spec_fn(int) -> Set<u32>,
    cidr: Cidrv4,
    m: Mark,
    r1: Seq<Overlap>,
    r2: Seq<Overlap>,
)
    requires
        forall|a: int| 0 <= a < space() ==> #[trigger] once(a) == add_block(f, cidr, m, a),
        forall|a: int| 0 <= a < space() ==> #[trigger] twice(a) == add_block(once, cidr, m, a),
        is_report(r1, once),
        is_report(r2, twice),
    ensures
        triples(r1) == triples(r2),
{
    assert forall|a: int| 0 <= a < space() implies #[trigger] once(a) == twice(a) by {
        assert(once(a) == add_block(f, cidr, m, a));
        if cidr.contains(a) {
            assert(twice(a) =~= once(a).insert(m));
            assert(once(a).insert(m) =~= once(a));
        }
    }
    lemma_report_unique(r1, r2, once, twice);
}

/// Marking the whole space with one mark, on an empty collider, leaves
/// nothing to report.
pub proof fn lemma_single_mark_no_overlap(
    f: spec_fn(int) -> Set<u32>,
    g: spec_fn(int) -> Set<u32>,
    cidr: Cidrv4,
    m: Mark,
    r: Seq<Overlap>,
)
    requires
        cidr.wf(),
        cidr.subnet_bits == 0,
        forall|a: int| 0 <= a < space() ==> #[trigger] f(a) == Set::<u32>::empty(),
        forall|a: int| 0 <= a < space() ==> #[trigger] g(a) == add_block(f, cidr, m, a),
        is_report(r, g),
    ensures
        r.len() == 0,
{
    if r.len() > 0 {
        let o = r[0];
        assert(homogeneous(o, g, 0, space()));
        let a = o.start as int;
        assert(g(a) == o.marks@);
        assert(Set::<u32>::empty().insert(m).len() == 1);
        if cidr.contains(a) {
            assert(g(a) == Set::<u32>::empty().insert(m));
        } else {
            assert(g(a) == Set::<u32>::empty());
        }
    }
}

} // verus!
