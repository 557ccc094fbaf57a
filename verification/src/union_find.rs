//! Disjoint sets of numbers, each told by its least member.

use vstd::prelude::*;

verus! {

/// Disjoint sets of the numbers below a bound.
#[derive(Debug)]
pub struct UnionFind {
    parent: Vec<usize>,
}

/// Whether each number's parent is not above it.
spec fn descending(parent: Seq<usize>) -> bool {
    forall|i: int| 0 <= i < parent.len() ==> #[trigger] parent[i] <= i
}

/// Where the way from a number to its parent, and on, ends.
spec fn root(parent: Seq<usize>, i: int) -> int
    decreases i,
    when 0 <= i < parent.len() && descending(parent)
{
    if parent[i] == i {
        i
    } else {
        root(parent, parent[i] as int)
    }
}

/// A root is a number of its own, not above those that lead to it.
proof fn lemma_root(parent: Seq<usize>, i: int)
    requires
        0 <= i < parent.len(),
        descending(parent),
    ensures
        0 <= root(parent, i) <= i,
        parent[root(parent, i)] == root(parent, i),
        root(parent, root(parent, i)) == root(parent, i),
    decreases i,
{
    if parent[i] != i {
        lemma_root(parent, parent[i] as int);
    }
}

/// To make a number's root its parent leaves all roots as they are.
proof fn lemma_compress(parent: Seq<usize>, at: int, j: int)
    requires
        0 <= at < parent.len(),
        0 <= j < parent.len(),
        descending(parent),
    ensures
        descending(parent.update(at, root(parent, at) as usize)),
        root(parent.update(at, root(parent, at) as usize), j) == root(parent, j),
    decreases j,
{
    let top = root(parent, at);
    lemma_root(parent, at);
    let shorter = parent.update(at, top as usize);
    assert(descending(shorter));
    if j == at {
        assert(shorter[top] == top);
        if top != at {
            assert(root(shorter, top) == top);
        }
    } else if parent[j] != j {
        lemma_compress(parent, at, parent[j] as int);
    }
}

/// To make one root the parent of another joins their sets.
proof fn lemma_link(parent: Seq<usize>, low: int, high: int, j: int)
    requires
        0 <= low < high < parent.len(),
        0 <= j < parent.len(),
        descending(parent),
        parent[low] == low,
        parent[high] == high,
    ensures
        descending(parent.update(high, low as usize)),
        root(parent.update(high, low as usize), j) == if root(parent, j) == high {
            low
        } else {
            root(parent, j)
        },
    decreases j,
{
    let linked = parent.update(high, low as usize);
    assert(descending(linked));
    if j == high {
        assert(root(linked, low) == low);
    } else if parent[j] != j {
        lemma_link(parent, low, high, parent[j] as int);
    }
}

impl UnionFind {
    /// How many numbers there are.
    pub closed spec fn size(&self) -> nat {
        self.parent@.len()
    }

    /// Whether each number leads to the least of its set.
    pub closed spec fn wf(&self) -> bool {
        descending(self.parent@)
    }

    /// The least member of a number's set.
    pub closed spec fn least_of(&self, i: int) -> int {
        root(self.parent@, i)
    }

    /// Each number below `n` in a set of its own.
    pub fn new(n: usize) -> (r: UnionFind)
        ensures
            r.wf(),
            r.size() == n,
            forall|i: int| 0 <= i < n ==> #[trigger] r.least_of(i) == i,
    {
        let mut parent: Vec<usize> = Vec::new();
        let mut i: usize = 0;
        while i < n
            invariant
                i <= n,
                parent.len() == i,
                forall|j: int| 0 <= j < i ==> #[trigger] parent@[j] == j,
            decreases n - i,
        {
            parent.push(i);
            i += 1;
        }
        UnionFind { parent }
    }

    /// Tells a number's set by its least member. The way there is shortened.
    pub fn find(&mut self, i: usize) -> (r: usize)
        requires
            old(self).wf(),
            i < old(self).size(),
        ensures
            r == old(self).least_of(i as int),
            r <= i,
            final(self).wf(),
            final(self).size() == old(self).size(),
            forall|j: int|
                0 <= j < final(self).size() ==> #[trigger] final(self).least_of(j) == old(
                    self,
                ).least_of(j),
        decreases i,
    {
        let above: usize = self.parent[i];
        proof {
            lemma_root(self.parent@, i as int);
        }
        if above == i {
            i
        } else {
            let top = self.find(above);
            let ghost before = self.parent@;
            proof {
                assert(root(before, i as int) == old(self).least_of(i as int)) by {
                    assert(self.least_of(i as int) == old(self).least_of(i as int));
                }
                lemma_root(before, i as int);
                lemma_compress(before, i as int, i as int);
                assert forall|j: int| 0 <= j < before.len() implies root(
                    before.update(i as int, top),
                    j,
                ) == #[trigger] old(self).least_of(j) by {
                    lemma_compress(before, i as int, j);
                    assert(self.least_of(j) == old(self).least_of(j));
                }
            }
            self.parent.set(i, top);
            top
        }
    }

    /// Joins the sets of two numbers.
    pub fn union(&mut self, i: usize, j: usize)
        requires
            old(self).wf(),
            i < old(self).size(),
            j < old(self).size(),
        ensures
            final(self).wf(),
            final(self).size() == old(self).size(),
            forall|k: int|
                0 <= k < final(self).size() ==> #[trigger] final(self).least_of(k) == joined_root(
                    old(self).least_of(k),
                    old(self).least_of(i as int),
                    old(self).least_of(j as int),
                ),
    {
        let root_i = self.find(i);
        let ghost middle = *self;
        let root_j = self.find(j);
        proof {
            assert(middle.least_of(j as int) == old(self).least_of(j as int));
            lemma_root(old(self).parent@, i as int);
            lemma_root(old(self).parent@, j as int);
            assert forall|k: int| 0 <= k < self.size() implies #[trigger] self.least_of(k)
                == old(self).least_of(k) by {
                assert(middle.least_of(k) == old(self).least_of(k));
            }
            lemma_root(self.parent@, i as int);
            lemma_root(self.parent@, j as int);
            assert(self.least_of(i as int) == root_i);
            assert(self.least_of(j as int) == root_j);
        }
        let ghost before = self.parent@;
        if root_i != root_j {
            if root_i < root_j {
                proof {
                    assert forall|k: int| 0 <= k < before.len() implies root(
                        before.update(root_j as int, root_i),
                        k,
                    ) == joined_root(
                        #[trigger] old(self).least_of(k),
                        root_i as int,
                        root_j as int,
                    ) by {
                        lemma_link(before, root_i as int, root_j as int, k);
                        assert(self.least_of(k) == old(self).least_of(k));
                    }
                    lemma_link(before, root_i as int, root_j as int, 0);
                }
                self.parent.set(root_j, root_i);
            } else {
                proof {
                    assert forall|k: int| 0 <= k < before.len() implies root(
                        before.update(root_i as int, root_j),
                        k,
                    ) == joined_root(
                        #[trigger] old(self).least_of(k),
                        root_i as int,
                        root_j as int,
                    ) by {
                        lemma_link(before, root_j as int, root_i as int, k);
                        assert(self.least_of(k) == old(self).least_of(k));
                    }
                    lemma_link(before, root_j as int, root_i as int, 0);
                }
                self.parent.set(root_i, root_j);
            }
        }
    }
}

impl UnionFind {
    /// The least member of a number's set is not above the number, and is its own least member.
    pub proof fn law_least_member(&self, i: int)
        requires
            self.wf(),
            0 <= i < self.size(),
        ensures
            0 <= self.least_of(i) <= i,
            self.least_of(self.least_of(i)) == self.least_of(i),
    {
        lemma_root(self.parent@, i);
    }
}

/// The least member of a set after the sets with the least members `a` and `b` were joined.
pub open spec fn joined_root(root: int, a: int, b: int) -> int {
    if root == a || root == b {
        if a < b {
            a
        } else {
            b
        }
    } else {
        root
    }
}

/// To join two sets puts all their members into one, with the lesser of the two least members, and
/// leaves the others as they are; the order of the two does not matter.
pub proof fn law_union_joins(root: int, a: int, b: int)
    ensures
        joined_root(a, a, b) == joined_root(b, a, b),
        joined_root(a, a, b) <= a && joined_root(a, a, b) <= b,
        joined_root(root, a, b) == joined_root(root, b, a),
        root != a && root != b ==> joined_root(root, a, b) == root,
{
}

/// To join the sets of `a` and `b` gives both the lesser of their least members.
pub proof fn law_union_takes_the_lesser(root: int, a: int, b: int)
    ensures
        a <= b && (root == a || root == b) ==> joined_root(root, a, b) == a,
        b <= a && (root == a || root == b) ==> joined_root(root, a, b) == b,
        joined_root(root, a, b) == root || root == a || root == b,
{
}

} // verus!
