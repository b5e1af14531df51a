//! A binary trie over address bits whose leaves hold mark sets; a leaf is
//! split into two copies of itself whenever a block reaches below it.
use vstd::prelude::*;
use crate::cidr::{block_len, lemma_pow2_add, lemma_pow2_bounds, pow2, space, Cidrv4};
use crate::collider::{add_block, Collider};
use crate::marks::{Mark, MarkSet};
use crate::overlap::{coalesce, lemma_segments_concat, push_run, segments_of, Overlap};

verus! {

/// A node of the trie, covering a power-of-two run of addresses.
pub enum Node {
    /// The lower and the upper half.
    Inner(Box<Node>, Box<Node>),
    /// The same marks over the whole run.
    Leaf(MarkSet),
}

/// `x` and `half` are multiples of `blk` with `x < half`, so the block at
/// `x` ends within `half`.
pub(crate) proof fn lemma_aligned_below(x: int, half: int, blk: int)
    requires
        blk > 0,
        x >= 0,
        x % blk == 0,
        half % blk == 0,
        x < half,
    ensures
        x + blk <= half,
{
    vstd::arithmetic::div_mod::lemma_fundamental_div_mod(x, blk);
    vstd::arithmetic::div_mod::lemma_fundamental_div_mod(half, blk);
    let p = x / blk;
    let q = half / blk;
    assert(p < q) by (nonlinear_arith)
        requires
            x == blk * p,
            half == blk * q,
            x < half,
            blk > 0,
    ;
    assert(blk * p + blk <= blk * q) by (nonlinear_arith)
        requires
            p < q,
            blk > 0,
    ;
}

pub(crate) proof fn lemma_sub_aligned(x: int, half: int, blk: int)
    requires
        blk > 0,
        x % blk == 0,
        half % blk == 0,
    ensures
        (x - half) % blk == 0,
{
    vstd::arithmetic::div_mod::lemma_fundamental_div_mod(x, blk);
    vstd::arithmetic::div_mod::lemma_fundamental_div_mod(half, blk);
    let p = x / blk;
    let q = half / blk;
    assert(x - half == (p - q) * blk) by (nonlinear_arith)
        requires
            x == blk * p,
            half == blk * q,
    ;
    vstd::arithmetic::div_mod::lemma_mod_multiples_basic(p - q, blk);
}

impl Node {
    /// The marks at offset `y` of a node that covers `size` addresses.
    pub open spec fn marks_at(self, size: int, y: int) -> Set<u32>
        decreases self,
    {
        match self {
            Node::Leaf(s) => s@,
            Node::Inner(l, r) => {
                let h = size / 2;
                if y < h {
                    l.marks_at(h, y)
                } else {
                    r.marks_at(h, y - h)
                }
            },
        }
    }

    /// Inner nodes split an even run in two; leaves hold well-formed sets.
    pub open spec fn wf(self, size: int) -> bool
        decreases self,
    {
        match self {
            Node::Leaf(s) => s.wf(),
            Node::Inner(l, r) => size >= 2 && size % 2 == 0 && l.wf(size / 2) && r.wf(size / 2),
        }
    }

    /// The number of levels below the node: 0 for a leaf.
    pub open spec fn height(self) -> nat
        decreases self,
    {
        match self {
            Node::Leaf(_) => 0,
            Node::Inner(l, r) => 1 + if l.height() >= r.height() {
                l.height()
            } else {
                r.height()
            },
        }
    }

    /// The `bits` nodes on the way from this node towards offset `x` are
    /// all inner nodes.
    pub open spec fn inner_along(self, size: int, x: int, bits: nat) -> bool
        decreases bits,
    {
        if bits == 0 {
            true
        } else {
            match self {
                Node::Leaf(_) => false,
                Node::Inner(l, r) => {
                    let h = size / 2;
                    if x < h {
                        l.inner_along(h, x, (bits - 1) as nat)
                    } else {
                        r.inner_along(h, x - h, (bits - 1) as nat)
                    }
                },
            }
        }
    }

    /// One run per leaf with two or more marks, left to right: the leaf's
    /// whole range, within a node that covers `base..base + size`, and its marks.
    pub open spec fn leaf_runs(self, base: int, size: int) -> Seq<(int, int, Set<u32>)>
        decreases self,
    {
        match self {
            Node::Leaf(s) => if s@.len() >= 2 {
                seq![(base, base + size - 1, s@)]
            } else {
                Seq::empty()
            },
            Node::Inner(l, r) => l.leaf_runs(base, size / 2) + r.leaf_runs(base + size / 2, size / 2),
        }
    }

    /// Every leaf holds a well-formed set.
    pub open spec fn sets_wf(self) -> bool
        decreases self,
    {
        match self {
            Node::Leaf(s) => s.wf(),
            Node::Inner(l, r) => l.sets_wf() && r.sets_wf(),
        }
    }

    proof fn lemma_wf_sets(self, size: int)
        requires
            self.wf(size),
        ensures
            self.sets_wf(),
        decreases self,
    {
        match self {
            Node::Leaf(s) => {},
            Node::Inner(l, r) => {
                l.lemma_wf_sets(size / 2);
                r.lemma_wf_sets(size / 2);
            },
        }
    }

    /// Adds `mark` at every offset of the node.
    pub fn mark_apply(self, mark: Mark) -> (r: Node)
        requires
            self.sets_wf(),
        ensures
            r.sets_wf(),
            r.height() == self.height(),
            forall|size: int| #[trigger] self.wf(size) ==> r.wf(size),
            forall|size: int, y: int| #[trigger] r.marks_at(size, y) == self.marks_at(size, y).insert(mark),
        decreases self,
    {
        match self {
            Node::Inner(l, r) => {
                let nl = (*l).mark_apply(mark);
                let nr = (*r).mark_apply(mark);
                let res = Node::Inner(Box::new(nl), Box::new(nr));
                assert forall|size: int, y: int| #[trigger] res.marks_at(size, y)
                    == self.marks_at(size, y).insert(mark) by {
                    if y < size / 2 {
                        assert(res.marks_at(size, y) == nl.marks_at(size / 2, y));
                        assert(self.marks_at(size, y) == l.marks_at(size / 2, y));
                    } else {
                        assert(res.marks_at(size, y) == nr.marks_at(size / 2, y - size / 2));
                        assert(self.marks_at(size, y) == r.marks_at(size / 2, y - size / 2));
                    }
                }
                assert forall|size: int| #[trigger] self.wf(size) implies res.wf(size) by {
                    assert(l.wf(size / 2));
                    assert(r.wf(size / 2));
                }
                res
            },
            Node::Leaf(s) => {
                let mut s = s;
                s.insert(mark);
                Node::Leaf(s)
            },
        }
    }

    /// Adds `mark` at offsets `x..x + blk` of a node that covers `size`
    /// addresses, `bits` levels above the block's depth.
    pub fn mark_descend(self, x: u64, size: u64, blk: u64, bits: u8, mark: Mark) -> (r: Node)
        requires
            self.wf(size as int),
            blk >= 1,
            size == blk * pow2(bits as nat),
            x % blk == 0,
            x + blk <= size,
        ensures
            r.wf(size as int),
            forall|y: int|
                0 <= y < size ==> #[trigger] r.marks_at(size as int, y) == if x <= y < x + blk {
                    self.marks_at(size as int, y).insert(mark)
                } else {
                    self.marks_at(size as int, y)
                },
            r.height() == if self.height() >= bits { self.height() } else { bits as nat },
            r.inner_along(size as int, x as int, bits as nat),
        decreases bits,
    {
        if bits == 0 {
            assert(pow2(bits as nat) == 1);
            assert(size == blk) by (nonlinear_arith)
                requires
                    size == blk * pow2(bits as nat),
                    pow2(bits as nat) == 1,
            ;
            assert(x == 0) by {
                if x > 0 {
                    assert(x + blk > blk);
                }
            }
            proof {
                self.lemma_wf_sets(size as int);
            }
            self.mark_apply(mark)
        } else {
            let ghost old_self = self;
            let half: u64 = size / 2;
            proof {
                crate::cidr::lemma_pow2_pos((bits - 1) as nat);
                assert(size == 2 * (blk * pow2((bits - 1) as nat))) by (nonlinear_arith)
                    requires
                        size == blk * pow2(bits as nat),
                        pow2(bits as nat) == 2 * pow2((bits - 1) as nat),
                ;
                assert(half == blk * pow2((bits - 1) as nat));
                vstd::arithmetic::div_mod::lemma_mod_multiples_basic(pow2((bits - 1) as nat) as int, blk as int);
                assert(half % blk == 0) by (nonlinear_arith)
                    requires
                        half == blk * pow2((bits - 1) as nat),
                        (pow2((bits - 1) as nat) * blk) % (blk as int) == 0,
                ;
                assert(half >= blk) by (nonlinear_arith)
                    requires
                        half == blk * pow2((bits - 1) as nat),
                        pow2((bits - 1) as nat) >= 1,
                        blk >= 1,
                ;
            }
            let (l, r) = match self {
                Node::Inner(l, r) => (*l, *r),
                Node::Leaf(s) => {
                    let t = s.copy();
                    (Node::Leaf(t), Node::Leaf(s))
                },
            };
            assert(l.wf(half as int) && r.wf(half as int));
            assert(old_self is Leaf ==> l.height() == 0 && r.height() == 0);
            assert(old_self is Inner ==> old_self.height() == 1 + if l.height() >= r.height() {
                l.height()
            } else {
                r.height()
            });
            assert(forall|y: int| 0 <= y < half ==> #[trigger] l.marks_at(half as int, y) == old_self.marks_at(size as int, y));
            assert(forall|y: int| half <= y < size ==> #[trigger] old_self.marks_at(size as int, y) == r.marks_at(half as int, y - half));
            if x < half {
                proof {
                    lemma_aligned_below(x as int, half as int, blk as int);
                }
                let nl = l.mark_descend(x, half, blk, bits - 1, mark);
                let res = Node::Inner(Box::new(nl), Box::new(r));
                assert forall|y: int| 0 <= y < size implies #[trigger] res.marks_at(size as int, y) == if x <= y < x + blk {
                    old_self.marks_at(size as int, y).insert(mark)
                } else {
                    old_self.marks_at(size as int, y)
                } by {
                    if y < half {
                        assert(res.marks_at(size as int, y) == nl.marks_at(half as int, y));
                        assert(l.marks_at(half as int, y) == old_self.marks_at(size as int, y));
                    } else {
                        assert(res.marks_at(size as int, y) == r.marks_at(half as int, y - half));
                        assert(old_self.marks_at(size as int, y) == r.marks_at(half as int, y - half));
                    }
                }
                res
            } else {
                proof {
                    lemma_sub_aligned(x as int, half as int, blk as int);
                }
                let nr = r.mark_descend(x - half, half, blk, bits - 1, mark);
                let res = Node::Inner(Box::new(l), Box::new(nr));
                assert forall|y: int| 0 <= y < size implies #[trigger] res.marks_at(size as int, y) == if x <= y < x + blk {
                    old_self.marks_at(size as int, y).insert(mark)
                } else {
                    old_self.marks_at(size as int, y)
                } by {
                    if y < half {
                        assert(l.marks_at(half as int, y) == old_self.marks_at(size as int, y));
                    } else {
                        assert(old_self.marks_at(size as int, y) == r.marks_at(half as int, y - half));
                        assert(nr.marks_at(half as int, y - half) == res.marks_at(size as int, y));
                    }
                }
                res
            }
        }
    }

    /// Appends to `overlaps`, in order, one segment for each leaf with two or
    /// more marks; the node covers `base..base + size`.
    fn accum_overlaps(&self, overlaps: &mut Vec<Overlap>, base: u64, size: u64, Ghost(f): Ghost<spec_fn(int) -> Set<u32>>)
        requires
            self.wf(size as int),
            size >= 1,
            base + size <= space(),
            forall|a: int| base <= a < base + size ==> #[trigger] f(a) == self.marks_at(size as int, a - base),
        ensures
            final(overlaps)@.len() >= old(overlaps)@.len(),
            final(overlaps)@.subrange(0, old(overlaps)@.len() as int) == old(overlaps)@,
            segments_of(final(overlaps)@.subrange(old(overlaps)@.len() as int, final(overlaps)@.len() as int), f, base as int, base + size),
            final(overlaps)@.subrange(old(overlaps)@.len() as int, final(overlaps)@.len() as int).map_values(
                |o: Overlap| o@,
            ) == self.leaf_runs(base as int, size as int),
        decreases self,
    {
        let ghost start = overlaps@;
        match self {
            Node::Inner(l, r) => {
                let half = size / 2;
                assert forall|a: int| base <= a < base + half implies #[trigger] f(a) == l.marks_at(half as int, a - base) by {}
                l.accum_overlaps(overlaps, base, half, Ghost(f));
                let ghost mid = overlaps@;
                assert forall|a: int| base + half <= a < base + size implies #[trigger] f(a) == r.marks_at(half as int, a - (base + half)) by {
                    assert(self.marks_at(size as int, a - base) == r.marks_at(half as int, a - base - half));
                }
                r.accum_overlaps(overlaps, base + half, half, Ghost(f));
                proof {
                    let s1 = mid.subrange(start.len() as int, mid.len() as int);
                    let s2 = overlaps@.subrange(mid.len() as int, overlaps@.len() as int);
                    lemma_segments_concat(s1, s2, f, base as int, base + half, base + size);
                    assert(overlaps@.subrange(start.len() as int, overlaps@.len() as int) =~= s1 + s2);
                    assert((s1 + s2).map_values(|o: Overlap| o@) =~= s1.map_values(|o: Overlap| o@)
                        + s2.map_values(|o: Overlap| o@));
                    assert(overlaps@.subrange(0, start.len() as int) =~= mid.subrange(0, start.len() as int));
                }
            },
            Node::Leaf(s) => {
                push_run(overlaps, base, base + size, s, Ghost(f));
            },
        }
    }
}

/// A trie that splits leaves eagerly on every mark.
pub struct BitTrie {
    pub node: Node,
}

impl BitTrie {
    pub fn new() -> (r: BitTrie)
        ensures
            r.inv(),
            forall|a: int| 0 <= a < space() ==> #[trigger] r.cover(a) == Set::<u32>::empty(),
    {
        BitTrie { node: Node::Leaf(MarkSet::new()) }
    }
}

impl Default for BitTrie {
    fn default() -> (r: BitTrie)
        ensures
            r.inv(),
            forall|a: int| 0 <= a < space() ==> #[trigger] r.cover(a) == Set::<u32>::empty(),
    {
        BitTrie::new()
    }
}

impl BitTrie {
    /// Adds `mark` over `cidr`.
    pub fn mark(&mut self, cidr: &Cidrv4, mark: Mark)
        requires
            old(self).inv(),
            cidr.wf(),
        ensures
            final(self).inv(),
            forall|a: int|
                0 <= a < space() ==> #[trigger] final(self).cover(a) == add_block(
                    |x: int| old(self).cover(x),
                    *cidr,
                    mark,
                    a,
                ),
            final(self).node.height() == if old(self).node.height() >= cidr.subnet_bits {
                old(self).node.height()
            } else {
                cidr.subnet_bits as nat
            },
            final(self).node.inner_along(space(), cidr.ip as int, cidr.subnet_bits as nat),
    {
        let blk = block_len(cidr.subnet_bits);
        proof {
            lemma_pow2_add((32 - cidr.subnet_bits) as nat, cidr.subnet_bits as nat);
            lemma_pow2_bounds(32);
            crate::cidr::lemma_cidr_end(*cidr);
        }
        let mut node = Node::Leaf(MarkSet::new());
        std::mem::swap(&mut self.node, &mut node);
        self.node = node.mark_descend(cidr.ip as u64, 0x1_0000_0000u64, blk, cidr.subnet_bits, mark);
    }
}

impl Collider for BitTrie {
    open spec fn inv(&self) -> bool {
        self.node.wf(space())
    }

    open spec fn cover(&self, a: int) -> Set<u32> {
        self.node.marks_at(space(), a)
    }

    fn mark(&mut self, cidr: &Cidrv4, mark: Mark) {
        BitTrie::mark(self, cidr, mark);
    }

    fn overlaps(&self) -> (r: Vec<Overlap>) {
        let ghost f = |a: int| self.cover(a);
        let mut raw: Vec<Overlap> = Vec::new();
        self.node.accum_overlaps(&mut raw, 0, 0x1_0000_0000u64, Ghost(f));
        assert(raw@.subrange(0, raw@.len() as int) =~= raw@);
        coalesce(&raw, Ghost(f))
    }
}

} // verus!
