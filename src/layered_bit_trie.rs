//! A binary trie over address bits with optional children, where each node
//! keeps only the marks of blocks that ended exactly at it.
use vstd::prelude::*;
use crate::cidr::{block_len, lemma_pow2_add, lemma_pow2_bounds, pow2, space, Cidrv4};
use crate::collider::{add_block, Collider};
use crate::marks::{Mark, MarkSet};
use crate::overlap::{coalesce, lemma_segments_concat, push_run, segments_of, Overlap};

verus! {

/// A node of the trie; a missing child means no block ends below it there.
pub struct Node {
    pub left: Option<Box<Node>>,
    pub right: Option<Box<Node>>,
    pub marks: MarkSet,
}

/// Whether offsets `x` and `y` of a run of `size` addresses fall in the
/// same node `d` levels down.
pub open spec fn same_path(size: int, d: nat, x: int, y: int) -> bool
    decreases d,
{
    if d == 0 {
        true
    } else {
        let h = size / 2;
        if x < h && y < h {
            same_path(h, (d - 1) as nat, x, y)
        } else if x >= h && y >= h {
            same_path(h, (d - 1) as nat, x - h, y - h)
        } else {
            false
        }
    }
}

/// What a child contributes at offset `y` of its run: nothing if it is missing.
pub open spec fn child_marks(c: Option<Box<Node>>, size: int, y: int) -> Set<u32>
    decreases c,
{
    match c {
        Some(n) => n.marks_at(size, y),
        None => Set::empty(),
    }
}

impl Node {
    /// The marks at offset `y` of a node that covers `size` addresses: its
    /// own together with those of the child below `y`.
    pub open spec fn marks_at(self, size: int, y: int) -> Set<u32>
        decreases self,
    {
        let h = size / 2;
        self.marks@.union(
            if y < h {
                match self.left {
                    Some(l) => l.marks_at(h, y),
                    None => Set::empty(),
                }
            } else {
                match self.right {
                    Some(r) => r.marks_at(h, y - h),
                    None => Set::empty(),
                }
            },
        )
    }

    /// Children only below runs of two or more; all sets well formed.
    pub open spec fn wf(self, size: int) -> bool
        decreases self,
    {
        &&& self.marks.wf()
        &&& (self.left is Some || self.right is Some) ==> size >= 2 && size % 2 == 0
        &&& match self.left {
            Some(l) => l.wf(size / 2),
            None => true,
        }
        &&& match self.right {
            Some(r) => r.wf(size / 2),
            None => true,
        }
    }

    /// The node's own marks, for the node `d` levels down on the way to
    /// offset `y`; nothing where that node is missing.
    pub open spec fn own_at(self, size: int, d: nat, y: int) -> Set<u32>
        decreases self,
    {
        if d == 0 {
            self.marks@
        } else {
            let h = size / 2;
            if y < h {
                match self.left {
                    Some(l) => l.own_at(h, (d - 1) as nat, y),
                    None => Set::empty(),
                }
            } else {
                match self.right {
                    Some(r) => r.own_at(h, (d - 1) as nat, y - h),
                    None => Set::empty(),
                }
            }
        }
    }

    /// Whether the node `d` levels down on the way to offset `y` exists.
    pub open spec fn present(self, size: int, d: nat, y: int) -> bool
        decreases self,
    {
        if d == 0 {
            true
        } else {
            let h = size / 2;
            if y < h {
                match self.left {
                    Some(l) => l.present(h, (d - 1) as nat, y),
                    None => false,
                }
            } else {
                match self.right {
                    Some(r) => r.present(h, (d - 1) as nat, y - h),
                    None => false,
                }
            }
        }
    }

    /// A node with no marks and no children.
    pub fn empty() -> (r: Node)
        ensures
            forall|size: int| #[trigger] r.wf(size),
            forall|size: int, d: nat, y: int| #[trigger] r.own_at(size, d, y) == Set::<u32>::empty(),
            forall|size: int, d: nat, y: int| #[trigger] r.present(size, d, y) <==> d == 0,
            forall|size: int, y: int| #[trigger] r.marks_at(size, y) == Set::<u32>::empty(),
    {
        let r = Node { left: None, right: None, marks: MarkSet::new() };
        assert forall|size: int, y: int| #[trigger] r.marks_at(size, y) == Set::<u32>::empty() by {
            assert(r.marks_at(size, y) =~= Set::<u32>::empty());
        }
        assert forall|size: int, d: nat, y: int| #[trigger] r.own_at(size, d, y) == Set::<u32>::empty() by {
            if d == 0 {
                assert(r.marks@ =~= Set::<u32>::empty());
            }
        }
        r
    }

    /// Attaches `mark` to the node at offset `x` and run `blk`, `bits` levels
    /// below this one, creating the nodes on the way.
    pub fn mark_descend(self, x: u64, size: u64, blk: u64, bits: u8, mark: Mark) -> (r: Node)
        requires
            self.wf(size as int),
            blk >= 1,
            size == blk * pow2(bits as nat),
            x % blk == 0,
            x + blk <= size,
        ensures
            r.wf(size as int),
            forall|y: int|
                0 <= y < size ==> #[trigger] r.marks_at(size as int, y) == if x <= y < x + blk {
                    self.marks_at(size as int, y).insert(mark)
                } else {
                    self.marks_at(size as int, y)
                },
            forall|d: nat, y: int|
                0 <= y < size ==> #[trigger] r.own_at(size as int, d, y) == if d == bits && x <= y < x
                    + blk {
                    self.own_at(size as int, d, y).insert(mark)
                } else {
                    self.own_at(size as int, d, y)
                },
            forall|d: nat, y: int|
                0 <= y < size && #[trigger] r.present(size as int, d, y) ==> self.present(size as int, d, y)
                    || (d <= bits && same_path(size as int, d, x as int, y)),
        decreases bits,
    {
        let ghost old_self = self;
        let Node { left, right, marks } = self;
        if bits == 0 {
            assert(pow2(bits as nat) == 1);
            assert(size == blk) by (nonlinear_arith)
                requires
                    size == blk * pow2(bits as nat),
                    pow2(bits as nat) == 1,
            ;
            assert(x == 0) by {
                if x > 0 {
                    assert(x + blk > blk);
                }
            }
            let mut marks = marks;
            marks.insert(mark);
            let res = Node { left, right, marks };
            assert forall|y: int| 0 <= y < size implies #[trigger] res.marks_at(size as int, y) == old_self.marks_at(size as int, y).insert(mark) by {
                assert(res.marks_at(size as int, y) =~= old_self.marks_at(size as int, y).insert(mark));
            }
            assert forall|d: nat, y: int| 0 <= y < size implies #[trigger] res.own_at(size as int, d, y) == if d == bits && x <= y < x + blk {
                old_self.own_at(size as int, d, y).insert(mark)
            } else {
                old_self.own_at(size as int, d, y)
            } by {
                if d > 0 {
                    assert(res.own_at(size as int, d, y) == old_self.own_at(size as int, d, y));
                }
            }
            assert forall|d: nat, y: int| 0 <= y < size && #[trigger] res.present(size as int, d, y) implies old_self.present(size as int, d, y) || (d <= bits && same_path(size as int, d, x as int, y)) by {
                if d > 0 {
                    assert(res.present(size as int, d, y) == old_self.present(size as int, d, y));
                }
            }
            res
        } else {
            let half: u64 = size / 2;
            proof {
                crate::cidr::lemma_pow2_pos((bits - 1) as nat);
                assert(size == 2 * (blk * pow2((bits - 1) as nat))) by (nonlinear_arith)
                    requires
                        size == blk * pow2(bits as nat),
                        pow2(bits as nat) == 2 * pow2((bits - 1) as nat),
                ;
                assert(half == blk * pow2((bits - 1) as nat));
                vstd::arithmetic::div_mod::lemma_mod_multiples_basic(pow2((bits - 1) as nat) as int, blk as int);
                assert(half % blk == 0) by (nonlinear_arith)
                    requires
                        half == blk * pow2((bits - 1) as nat),
                        (pow2((bits - 1) as nat) * blk) % (blk as int) == 0,
                ;
            }
            if x < half {
                proof {
                    crate::bit_trie::lemma_aligned_below(x as int, half as int, blk as int);
                }
                let child = match left {
                    Some(b) => *b,
                    None => Node::empty(),
                };
                assert forall|y: int| 0 <= y < half implies #[trigger] child.marks_at(half as int, y) == child_marks(left, half as int, y) by {}
                let nl = child.mark_descend(x, half, blk, bits - 1, mark);
                let res = Node { left: Some(Box::new(nl)), right, marks };
                assert forall|y: int| 0 <= y < size implies #[trigger] res.marks_at(size as int, y) == if x <= y < x + blk {
                    old_self.marks_at(size as int, y).insert(mark)
                } else {
                    old_self.marks_at(size as int, y)
                } by {
                    if y < half {
                        assert(res.marks_at(size as int, y) == marks@.union(nl.marks_at(half as int, y)));
                        assert(old_self.marks_at(size as int, y) == marks@.union(child.marks_at(half as int, y)));
                        if x <= y < x + blk {
                            assert(res.marks_at(size as int, y) =~= old_self.marks_at(size as int, y).insert(mark));
                        }
                    } else {
                        assert(res.marks_at(size as int, y) == old_self.marks_at(size as int, y));
                    }
                }
                assert forall|d: nat, y: int| 0 <= y < size implies #[trigger] res.own_at(size as int, d, y) == if d == bits && x <= y < x + blk {
                    old_self.own_at(size as int, d, y).insert(mark)
                } else {
                    old_self.own_at(size as int, d, y)
                } by {
                    if d > 0 && y < half {
                        assert(res.own_at(size as int, d, y) == nl.own_at(half as int, (d - 1) as nat, y));
                        assert(old_self.own_at(size as int, d, y) == child.own_at(half as int, (d - 1) as nat, y));
                    } else if d > 0 {
                        assert(res.own_at(size as int, d, y) == old_self.own_at(size as int, d, y));
                    }
                }
                assert forall|d: nat, y: int| 0 <= y < size && #[trigger] res.present(size as int, d, y) implies old_self.present(size as int, d, y) || (d <= bits && same_path(size as int, d, x as int, y)) by {
                    if d > 0 && y < half {
                        assert(res.present(size as int, d, y) == nl.present(half as int, (d - 1) as nat, y));
                        if !nl.present(half as int, (d - 1) as nat, y) {
                        } else if child.present(half as int, (d - 1) as nat, y) {
                            if left is None {
                                assert(d == 1);
                                assert(same_path(half as int, 0, x as int, y));
                                assert(same_path(size as int, d, x as int, y));
                            } else {
                                assert(old_self.present(size as int, d, y) == child.present(half as int, (d - 1) as nat, y));
                            }
                        } else {
                            assert(same_path(size as int, d, x as int, y) == same_path(half as int, (d - 1) as nat, x as int, y));
                        }
                    } else if d > 0 {
                        assert(res.present(size as int, d, y) == old_self.present(size as int, d, y));
                    }
                }
                res
            } else {
                proof {
                    crate::bit_trie::lemma_sub_aligned(x as int, half as int, blk as int);
                }
                let child = match right {
                    Some(b) => *b,
                    None => Node::empty(),
                };
                let nr = child.mark_descend(x - half, half, blk, bits - 1, mark);
                let res = Node { left, right: Some(Box::new(nr)), marks };
                assert forall|y: int| 0 <= y < size implies #[trigger] res.marks_at(size as int, y) == if x <= y < x + blk {
                    old_self.marks_at(size as int, y).insert(mark)
                } else {
                    old_self.marks_at(size as int, y)
                } by {
                    if y >= half {
                        assert(res.marks_at(size as int, y) == marks@.union(nr.marks_at(half as int, y - half)));
                        assert(old_self.marks_at(size as int, y) == marks@.union(child.marks_at(half as int, y - half)));
                        if x <= y < x + blk {
                            assert(res.marks_at(size as int, y) =~= old_self.marks_at(size as int, y).insert(mark));
                        }
                    } else {
                        assert(res.marks_at(size as int, y) == old_self.marks_at(size as int, y));
                    }
                }
                assert forall|d: nat, y: int| 0 <= y < size implies #[trigger] res.own_at(size as int, d, y) == if d == bits && x <= y < x + blk {
                    old_self.own_at(size as int, d, y).insert(mark)
                } else {
                    old_self.own_at(size as int, d, y)
                } by {
                    if d > 0 && y >= half {
                        assert(res.own_at(size as int, d, y) == nr.own_at(half as int, (d - 1) as nat, y - half));
                        assert(old_self.own_at(size as int, d, y) == child.own_at(half as int, (d - 1) as nat, y - half));
                    } else if d > 0 {
                        assert(res.own_at(size as int, d, y) == old_self.own_at(size as int, d, y));
                    }
                }
                assert forall|d: nat, y: int| 0 <= y < size && #[trigger] res.present(size as int, d, y) implies old_self.present(size as int, d, y) || (d <= bits && same_path(size as int, d, x as int, y)) by {
                    if d > 0 && y >= half {
                        assert(res.present(size as int, d, y) == nr.present(half as int, (d - 1) as nat, y - half));
                        if !nr.present(half as int, (d - 1) as nat, y - half) {
                        } else if child.present(half as int, (d - 1) as nat, y - half) {
                            if right is None {
                                assert(d == 1);
                                assert(same_path(half as int, 0, x - half, y - half));
                                assert(same_path(size as int, d, x as int, y));
                            } else {
                                assert(old_self.present(size as int, d, y) == child.present(half as int, (d - 1) as nat, y - half));
                            }
                        } else {
                            assert(same_path(size as int, d, x as int, y) == same_path(half as int, (d - 1) as nat, x - half, y - half));
                        }
                    } else if d > 0 {
                        assert(res.present(size as int, d, y) == old_self.present(size as int, d, y));
                    }
                }
                res
            }
        }
    }

    /// Appends to `overlaps`, in order, the segments of the node's run
    /// `base..base + size`, where the ancestors contribute `marks`.
    fn accum_overlaps(&self, overlaps: &mut Vec<Overlap>, base: u64, size: u64, marks: MarkSet, Ghost(f): Ghost<spec_fn(int) -> Set<u32>>)
        requires
            self.wf(size as int),
            marks.wf(),
            size >= 1,
            base + size <= space(),
            forall|a: int| base <= a < base + size ==> #[trigger] f(a) == marks@.union(self.marks_at(size as int, a - base)),
        ensures
            final(overlaps)@.len() >= old(overlaps)@.len(),
            final(overlaps)@.subrange(0, old(overlaps)@.len() as int) == old(overlaps)@,
            segments_of(final(overlaps)@.subrange(old(overlaps)@.len() as int, final(overlaps)@.len() as int), f, base as int, base + size),
        decreases self,
    {
        let ghost start = overlaps@;
        let ghost acc = marks@;
        let mut marks = marks;
        marks.insert_all(&self.marks);
        let half: u64 = size / 2;
        proof {
            assert forall|a: int| base <= a < base + size implies #[trigger] f(a) == marks@.union(
                if a - base < half {
                    child_marks(self.left, half as int, a - base)
                } else {
                    child_marks(self.right, half as int, a - base - half)
                },
            ) by {
                assert(self.marks_at(size as int, a - base) == self.marks@.union(
                    if a - base < half {
                        child_marks(self.left, half as int, a - base)
                    } else {
                        child_marks(self.right, half as int, a - base - half)
                    },
                ));
                assert(f(a) =~= marks@.union(
                    if a - base < half {
                        child_marks(self.left, half as int, a - base)
                    } else {
                        child_marks(self.right, half as int, a - base - half)
                    },
                ));
            }
        }
        if self.left.is_none() && self.right.is_none() {
            assert forall|a: int| base <= a < base + size implies #[trigger] f(a) == marks@ by {
                assert(f(a) =~= marks@);
            }
            push_run(overlaps, base, base + size, &marks, Ghost(f));
            return;
        }
        let ghost mid_at = base + half;
        match &self.left {
            Some(l) => {
                assert forall|a: int| base <= a < base + half implies #[trigger] f(a) == marks@.union(l.marks_at(half as int, a - base)) by {}
                l.accum_overlaps(overlaps, base, half, marks.copy(), Ghost(f));
            },
            None => {
                assert forall|a: int| base <= a < base + half implies #[trigger] f(a) == marks@ by {
                    assert(f(a) =~= marks@);
                }
                push_run(overlaps, base, base + half, &marks, Ghost(f));
            },
        }
        let ghost mid = overlaps@;
        match &self.right {
            Some(r) => {
                assert forall|a: int| base + half <= a < base + size implies #[trigger] f(a) == marks@.union(r.marks_at(half as int, a - (base + half))) by {
                    assert(a - base - half == a - (base + half));
                }
                r.accum_overlaps(overlaps, base + half, half, marks, Ghost(f));
            },
            None => {
                assert forall|a: int| base + half <= a < base + size implies #[trigger] f(a) == marks@ by {
                    assert(f(a) =~= marks@);
                }
                push_run(overlaps, base + half, base + size, &marks, Ghost(f));
            },
        }
        proof {
            let s1 = mid.subrange(start.len() as int, mid.len() as int);
            let s2 = overlaps@.subrange(mid.len() as int, overlaps@.len() as int);
            lemma_segments_concat(s1, s2, f, base as int, base + half, base + size);
            assert(overlaps@.subrange(start.len() as int, overlaps@.len() as int) =~= s1 + s2);
            assert(overlaps@.subrange(0, start.len() as int) =~= mid.subrange(0, start.len() as int));
        }
    }
}

/// A trie that attaches each mark where its block ends and gathers the
/// ancestors' marks when reporting.
pub struct LayeredBitTrie {
    pub node: Node,
}

impl LayeredBitTrie {
    pub fn new() -> (r: LayeredBitTrie)
        ensures
            r.inv(),
            forall|a: int| 0 <= a < space() ==> #[trigger] r.cover(a) == Set::<u32>::empty(),
    {
        LayeredBitTrie { node: Node::empty() }
    }
}

impl Default for LayeredBitTrie {
    fn default() -> (r: LayeredBitTrie)
        ensures
            r.inv(),
            forall|a: int| 0 <= a < space() ==> #[trigger] r.cover(a) == Set::<u32>::empty(),
    {
        LayeredBitTrie::new()
    }
}

impl LayeredBitTrie {
    /// Adds `mark` over `cidr`.
    pub fn mark(&mut self, cidr: &Cidrv4, mark: Mark)
        requires
            old(self).inv(),
            cidr.wf(),
        ensures
            final(self).inv(),
            forall|a: int|
                0 <= a < space() ==> #[trigger] final(self).cover(a) == add_block(
                    |x: int| old(self).cover(x),
                    *cidr,
                    mark,
                    a,
                ),
            forall|d: nat, y: int|
                0 <= y < space() ==> #[trigger] final(self).node.own_at(space(), d, y) == if d
                    == cidr.subnet_bits && cidr.contains(y) {
                    old(self).node.own_at(space(), d, y).insert(mark)
                } else {
                    old(self).node.own_at(space(), d, y)
                },
            forall|d: nat, y: int|
                0 <= y < space() && #[trigger] final(self).node.present(space(), d, y)
                    ==> old(self).node.present(space(), d, y) || (d <= cidr.subnet_bits && same_path(
                    space(),
                    d,
                    cidr.ip as int,
                    y,
                )),
    {
        let blk = block_len(cidr.subnet_bits);
        proof {
            lemma_pow2_add((32 - cidr.subnet_bits) as nat, cidr.subnet_bits as nat);
            lemma_pow2_bounds(32);
            crate::cidr::lemma_cidr_end(*cidr);
        }
        let mut node = Node::empty();
        std::mem::swap(&mut self.node, &mut node);
        self.node = node.mark_descend(cidr.ip as u64, 0x1_0000_0000u64, blk, cidr.subnet_bits, mark);
    }
}

impl Collider for LayeredBitTrie {
    open spec fn inv(&self) -> bool {
        self.node.wf(space())
    }

    open spec fn cover(&self, a: int) -> Set<u32> {
        self.node.marks_at(space(), a)
    }

    fn mark(&mut self, cidr: &Cidrv4, mark: Mark) {
        LayeredBitTrie::mark(self, cidr, mark);
    }

    fn overlaps(&self) -> (r: Vec<Overlap>) {
        let ghost f = |a: int| self.cover(a);
        let mut raw: Vec<Overlap> = Vec::new();
        let acc = MarkSet::new();
        assert forall|a: int| 0 <= a < space() implies #[trigger] f(a) == acc@.union(self.node.marks_at(space(), a - 0)) by {
            assert(f(a) =~= acc@.union(self.node.marks_at(space(), a - 0)));
        }
        self.node.accum_overlaps(&mut raw, 0, 0x1_0000_0000u64, acc, Ghost(f));
        assert(raw@.subrange(0, raw@.len() as int) =~= raw@);
        coalesce(&raw, Ghost(f))
    }
}

} // verus!
