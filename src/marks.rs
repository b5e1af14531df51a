//! Sets of owner marks, kept as strictly increasing vectors.
use vstd::prelude::*;

verus! {

/// An owner identifier.
pub type Mark = u32;

/// True when `s` is strictly increasing.
pub open spec fn strictly_sorted(s: Seq<u32>) -> bool {
    forall|i: int, j: int| 0 <= i < j < s.len() ==> s[i] < s[j]
}

proof fn lemma_sorted_no_dups(s: Seq<u32>)
    requires
        strictly_sorted(s),
    ensures
        s.no_duplicates(),
        s.to_set().len() == s.len(),
        s.to_set().finite(),
{
    assert forall|i: int, j: int| 0 <= i < s.len() && 0 <= j < s.len() && i != j implies s[i]
        != s[j] by {
        if j < i {
            assert(s[j] < s[i]);
        }
    }
    s.unique_seq_to_set();
    s.lemma_cardinality_of_set();
}

/// Two strictly increasing sequences holding the same elements are equal.
proof fn lemma_sorted_set_eq(s1: Seq<u32>, s2: Seq<u32>)
    requires
        strictly_sorted(s1),
        strictly_sorted(s2),
        s1.to_set() == s2.to_set(),
    ensures
        s1 == s2,
    decreases s1.len(),
{
    lemma_sorted_no_dups(s1);
    lemma_sorted_no_dups(s2);
    if s1.len() > 0 {
        assert(s1.to_set().contains(s1[0]));
        assert(s2.to_set().contains(s2[0]));
        let j1 = choose|j: int| 0 <= j < s2.len() && s2[j] == s1[0];
        let j2 = choose|j: int| 0 <= j < s1.len() && s1[j] == s2[0];
        assert(s1[0] == s2[0]) by {
            if j1 > 0 {
                assert(s2[0] < s2[j1]);
            }
            if j2 > 0 {
                assert(s1[0] < s1[j2]);
            }
        }
        let t1 = s1.drop_first();
        let t2 = s2.drop_first();
        assert forall|x: u32| t1.to_set().contains(x) <==> t2.to_set().contains(x) by {
            if t1.to_set().contains(x) {
                let k = choose|k: int| 0 <= k < t1.len() && t1[k] == x;
                assert(s1[k + 1] == x);
                assert(s1[0] < x);
                assert(s2.to_set().contains(x));
                let k2 = choose|k2: int| 0 <= k2 < s2.len() && s2[k2] == x;
                assert(k2 != 0);
                assert(t2[k2 - 1] == x);
            }
            if t2.to_set().contains(x) {
                let k = choose|k: int| 0 <= k < t2.len() && t2[k] == x;
                assert(s2[k + 1] == x);
                assert(s2[0] < x);
                assert(s1.to_set().contains(x));
                let k1 = choose|k1: int| 0 <= k1 < s1.len() && s1[k1] == x;
                assert(k1 != 0);
                assert(t1[k1 - 1] == x);
            }
        }
        assert(t1.to_set() =~= t2.to_set());
        lemma_sorted_set_eq(t1, t2);
        assert(s1 =~= seq![s1[0]] + t1);
        assert(s2 =~= seq![s2[0]] + t2);
    } else {
        assert(s2.to_set().len() == 0);
    }
}

/// A finite set of marks. A strictly increasing vector makes two sets
/// equal exactly when their vectors are, which joining neighbouring ranges
/// needs; vstd specifies neither cloning nor comparing a `HashSet`.
#[derive(Debug)]
pub struct MarkSet {
    items: Vec<u32>,
}

impl View for MarkSet {
    type V = Set<u32>;

    closed spec fn view(&self) -> Set<u32> {
        self.items@.to_set()
    }
}

impl MarkSet {
    /// The representation is strictly increasing.
    pub closed spec fn wf(&self) -> bool {
        strictly_sorted(self.items@)
    }

    /// The empty set.
    pub fn new() -> (r: MarkSet)
        ensures
            r.wf(),
            r@ == Set::<u32>::empty(),
    {
        let r = MarkSet { items: Vec::new() };
        assert(r@ =~= Set::<u32>::empty());
        r
    }

    /// Number of marks.
    pub fn len(&self) -> (r: usize)
        requires
            self.wf(),
        ensures
            r == self@.len(),
    {
        proof {
            lemma_sorted_no_dups(self.items@);
        }
        self.items.len()
    }

    /// Adds `m` to the set.
    pub fn insert(&mut self, m: u32)
        requires
            old(self).wf(),
        ensures
            final(self).wf(),
            final(self)@ == old(self)@.insert(m),
    {
        let mut i: usize = 0;
        while i < self.items.len() && self.items[i] < m
            invariant
                0 <= i <= self.items.len(),
                forall|k: int| 0 <= k < i ==> self.items@[k] < m,
            decreases self.items.len() - i,
        {
            i = i + 1;
        }
        if i < self.items.len() && self.items[i] == m {
            assert(self.items@.to_set().contains(self.items@[i as int]));
            assert(self@ =~= old(self)@.insert(m));
            return;
        }
        let ghost before = self.items@;
        self.items.insert(i, m);
        let ghost after = self.items@;
        assert(after =~= before.subrange(0, i as int).push(m) + before.subrange(
            i as int,
            before.len() as int,
        ));
        assert forall|a: int, b: int| 0 <= a < b < after.len() implies after[a] < after[b] by {
            if b < i {
            } else if b == i {
            } else if a < i {
                assert(before[b - 1] >= m);
            } else if a == i {
                assert(before[b - 1] >= m);
                if before[b - 1] == m {
                    assert(b - 1 >= i);
                    if b - 1 > i {
                        assert(before[i as int] < before[b - 1]);
                    }
                }
            } else {
            }
        }
        assert forall|x: u32| after.to_set().contains(x) <==> before.to_set().insert(m).contains(
            x,
        ) by {
            if after.to_set().contains(x) {
                let k = choose|k: int| 0 <= k < after.len() && after[k] == x;
                if k < i {
                    assert(before[k] == x);
                } else if k > i {
                    assert(before[k - 1] == x);
                }
            }
            if before.to_set().contains(x) {
                let k = choose|k: int| 0 <= k < before.len() && before[k] == x;
                if k < i {
                    assert(after[k] == x);
                } else {
                    assert(after[k + 1] == x);
                }
            }
            if x == m {
                assert(after[i as int] == m);
            }
        }
        assert(self@ =~= old(self)@.insert(m));
    }

    /// Adds every mark of `other` to the set.
    pub fn insert_all(&mut self, other: &MarkSet)
        requires
            old(self).wf(),
            other.wf(),
        ensures
            final(self).wf(),
            final(self)@ == old(self)@.union(other@),
    {
        let mut i: usize = 0;
        while i < other.items.len()
            invariant
                0 <= i <= other.items.len(),
                self.wf(),
                self@ == old(self)@.union(other.items@.subrange(0, i as int).to_set()),
            decreases other.items.len() - i,
        {
            let ghost prev = self@;
            self.insert(other.items[i]);
            assert(other.items@.subrange(0, i + 1).to_set() =~= other.items@.subrange(
                0,
                i as int,
            ).to_set().insert(other.items@[i as int])) by {
                let s = other.items@.subrange(0, i + 1);
                let t = other.items@.subrange(0, i as int);
                assert forall|x: u32| s.to_set().contains(x) implies t.to_set().insert(
                    other.items@[i as int],
                ).contains(x) by {
                    let k = choose|k: int| 0 <= k < s.len() && s[k] == x;
                    if k < i {
                        assert(t[k] == x);
                    }
                }
                assert forall|x: u32| t.to_set().insert(other.items@[i as int]).contains(
                    x,
                ) implies s.to_set().contains(x) by {
                    if t.to_set().contains(x) {
                        let k = choose|k: int| 0 <= k < t.len() && t[k] == x;
                        assert(s[k] == x);
                    } else {
                        assert(s[i as int] == x);
                    }
                }
            }
            assert(self@ =~= old(self)@.union(other.items@.subrange(0, i + 1).to_set()));
            i = i + 1;
        }
        assert(other.items@.subrange(0, other.items.len() as int) =~= other.items@);
    }

    /// A copy of the set.
    pub fn copy(&self) -> (r: MarkSet)
        requires
            self.wf(),
        ensures
            r.wf(),
            r@ == self@,
    {
        let mut items: Vec<u32> = Vec::new();
        let mut i: usize = 0;
        while i < self.items.len()
            invariant
                0 <= i <= self.items.len(),
                items@ == self.items@.subrange(0, i as int),
            decreases self.items.len() - i,
        {
            items.push(self.items[i]);
            i = i + 1;
            assert(items@ =~= self.items@.subrange(0, i as int));
        }
        assert(items@ =~= self.items@);
        MarkSet { items }
    }

    /// Whether both sets hold the same marks.
    pub fn same_as(&self, other: &MarkSet) -> (r: bool)
        requires
            self.wf(),
            other.wf(),
        ensures
            r == (self@ == other@),
    {
        if self.items.len() != other.items.len() {
            proof {
                lemma_sorted_no_dups(self.items@);
                lemma_sorted_no_dups(other.items@);
            }
            return false;
        }
        let mut i: usize = 0;
        while i < self.items.len()
            invariant
                0 <= i <= self.items.len(),
                self.wf(),
                other.wf(),
                self.items.len() == other.items.len(),
                forall|k: int| 0 <= k < i ==> self.items@[k] == other.items@[k],
            decreases self.items.len() - i,
        {
            if self.items[i] != other.items[i] {
                proof {
                    if self@ == other@ {
                        lemma_sorted_set_eq(self.items@, other.items@);
                    }
                }
                return false;
            }
            i = i + 1;
        }
        assert(self.items@ =~= other.items@);
        true
    }

    /// The marks in increasing order.
    pub fn to_vec(&self) -> (r: Vec<u32>)
        requires
            self.wf(),
        ensures
            strictly_sorted(r@),
            r@.to_set() == self@,
    {
        self.copy().items
    }
}

} // verus!
