//! Disjoint-set forest (union-find) with union by size and path compression.
//!
//! Every conjecture node id owns a class; `unite` merges two classes and
//! `find` returns the canonical representative of a class.  The
//! mathematical view is the function `root_of`, which `find` computes and
//! which `unite` changes in the way its contract states.

use vstd::prelude::*;
use vstd::set_lib::*;

verus! {

/// Union-find over the ids `0 .. capacity`.
///
/// `parent` stores the forest; `size` stores, for each root, the number
/// of ids in its class (for non-roots the entry is stale but still
/// strictly smaller than the parent's, which bounds every parent chain).
pub struct UnionFind {
    parent: Vec<usize>,
    size: Vec<usize>,
}

impl UnionFind {
    /// Number of ids the structure was created for.
    pub closed spec fn capacity(self) -> int {
        self.parent@.len() as int
    }

    /// The forest shape: parents in range, sizes at least 1, bounded by
    /// the capacity, and strictly increasing towards the root.
    pub closed spec fn forest(self) -> bool {
        &&& self.size@.len() == self.parent@.len()
        &&& forall|i: int|
            0 <= i < self.capacity() ==> (#[trigger] self.parent@[i]) < self.capacity()
        &&& forall|i: int|
            0 <= i < self.capacity() ==> 1 <= (#[trigger] self.size@[i]) <= self.capacity()
        &&& forall|i: int|
            0 <= i < self.capacity() && (#[trigger] self.parent@[i]) as int != i ==> self.size@[i]
                < self.size@[self.parent@[i] as int]
    }

    /// Termination measure for walks towards a root.
    pub closed spec fn measure(self, x: int) -> int {
        self.capacity() - self.size@[x]
    }

    /// Canonical representative of `x`: the end of the parent chain.
    pub closed spec fn root_of(self, x: int) -> int
        decreases self.measure(x),
        when self.forest() && 0 <= x < self.capacity()
    {
        if self.parent@[x] as int == x {
            x
        } else {
            self.root_of(self.parent@[x] as int)
        }
    }

    /// `r` is its own parent, hence a canonical representative.
    pub closed spec fn is_root(self, r: int) -> bool {
        0 <= r < self.capacity() && self.parent@[r] as int == r
    }

    /// All ids whose representative is `r`.
    pub closed spec fn class_of(self, r: int) -> Set<int> {
        Set::new(|i: int| 0 <= i < self.capacity() && self.root_of(i) == r)
    }

    /// Exact size accounting: at every root the size entry counts the
    /// class's members.
    pub closed spec fn accounting(self) -> bool {
        forall|r: int| #[trigger] self.is_root(r) ==> self.size@[r] as int == self.class_of(r).len()
    }

    /// Well-formed: forest shape plus exact size accounting at the roots.
    pub open spec fn wf(self) -> bool {
        self.forest() && self.accounting()
    }

    /// The set of canonical representatives.
    pub closed spec fn roots(self) -> Set<int> {
        Set::new(|i: int| self.is_root(i))
    }

    /// Number of distinct classes.
    pub open spec fn num_classes(self) -> int {
        self.roots().len() as int
    }

    /// Two ids are in the same class when they share a representative.
    pub open spec fn same_class(self, x: int, y: int) -> bool {
        self.root_of(x) == self.root_of(y)
    }

    /// The representative of any id is a root, is its own representative,
    /// and has a strictly larger size entry than any other class member.
    proof fn lemma_root_props(self, x: int)
        requires
            self.forest(),
            0 <= x < self.capacity(),
        ensures
            self.is_root(self.root_of(x)),
            self.root_of(self.root_of(x)) == self.root_of(x),
            x != self.root_of(x) ==> self.size@[x] < self.size@[self.root_of(x)],
        decreases self.measure(x),
    {
        if self.parent@[x] as int != x {
            self.lemma_root_props(self.parent@[x] as int);
        }
    }

    /// The representative of any id is itself canonical: uniting never
    /// breaks `find(find(x)) == find(x)`.
    pub proof fn lemma_root_idempotent(self, x: int)
        requires
            self.forest(),
            0 <= x < self.capacity(),
        ensures
            self.is_root(self.root_of(x)),
            self.root_of(self.root_of(x)) == self.root_of(x),
    {
        self.lemma_root_props(x);
    }

    /// Two structures with the same representative function have the
    /// same representatives and the same number of classes.
    pub proof fn lemma_equal_roots_equal_classes(self, other: Self)
        requires
            self.wf(),
            other.wf(),
            self.capacity() == other.capacity(),
            forall|x: int| 0 <= x < self.capacity() ==> self.root_of(x) == other.root_of(x),
        ensures
            self.roots() == other.roots(),
            self.num_classes() == other.num_classes(),
    {
        assert forall|x: int| self.is_root(x) <==> other.is_root(x) by {
            if self.is_root(x) {
                assert(self.root_of(x) == x);
                assert(other.root_of(x) == x);
                other.lemma_root_props(x);
            }
            if other.is_root(x) {
                assert(other.root_of(x) == x);
                assert(self.root_of(x) == x);
                self.lemma_root_props(x);
            }
        }
        assert(self.roots() =~= other.roots());
    }

    /// `roots()` is a finite set of at most `capacity` ids.
    pub proof fn lemma_roots_finite(self)
        ensures
            self.roots().finite(),
            self.roots().len() <= self.capacity(),
    {
        lemma_int_range(0, self.capacity());
        lemma_len_subset(self.roots(), set_int_range(0, self.capacity()));
    }

    /// `class_of(r)` is a finite set of at most `capacity` ids.
    pub proof fn lemma_class_finite(self, r: int)
        ensures
            self.class_of(r).finite(),
            self.class_of(r).len() <= self.capacity(),
    {
        lemma_int_range(0, self.capacity());
        lemma_len_subset(self.class_of(r), set_int_range(0, self.capacity()));
    }

    /// A fresh structure: every id is its own singleton class.
    pub fn new(n: usize) -> (uf: UnionFind)
        ensures
            uf.wf(),
            uf.capacity() == n,
            forall|x: int| 0 <= x < n ==> uf.root_of(x) == x,
            uf.num_classes() == n,
    {
        let mut parent: Vec<usize> = Vec::new();
        let mut i: usize = 0;
        while i < n
            invariant
                parent@.len() == i,
                i <= n,
                forall|j: int| 0 <= j < i ==> (#[trigger] parent@[j]) as int == j,
            decreases n - i,
        {
            parent.push(i);
            i = i + 1;
        }
        let mut size: Vec<usize> = Vec::new();
        let mut i: usize = 0;
        while i < n
            invariant
                size@.len() == i,
                i <= n,
                forall|j: int| 0 <= j < i ==> (#[trigger] size@[j]) == 1,
            decreases n - i,
        {
            size.push(1);
            i = i + 1;
        }
        let uf = UnionFind { parent, size };
        proof {
            assert forall|x: int| 0 <= x < n implies uf.root_of(x) == x by {
                assert(uf.parent@[x] as int == x);
            }
            assert forall|r: int| #[trigger] uf.is_root(r) implies uf.size@[r] as int
                == uf.class_of(r).len() by {
                assert(uf.class_of(r) =~= Set::empty().insert(r));
            }
            assert(uf.roots() =~= set_int_range(0, n as int));
            lemma_int_range(0, n as int);
        }
        uf
    }

    /// Number of ids the structure was created for.
    pub fn id_count(&self) -> (r: usize)
        ensures
            r as int == self.capacity(),
    {
        self.parent.len()
    }

    /// Read-only walk to the representative (no path compression).
    pub fn root(&self, x: usize) -> (r: usize)
        requires
            self.forest(),
            x < self.capacity(),
        ensures
            r as int == self.root_of(x as int),
            r < self.capacity(),
    {
        let mut cur = x;
        while self.parent[cur] != cur
            invariant
                self.forest(),
                (cur as int) < self.capacity(),
                self.root_of(cur as int) == self.root_of(x as int),
            decreases self.capacity() - self.size@[cur as int],
        {
            cur = self.parent[cur];
        }
        proof {
            self.lemma_root_props(cur as int);
        }
        cur
    }

    /// Redirecting one non-root id straight to its representative keeps
    /// every representative, every class and the size accounting intact.
    proof fn lemma_compress(self, other: Self, y: int, z: int)
        requires
            self.forest(),
            0 <= y < self.capacity(),
            self.parent@[y] as int != y,
            other.parent@ == self.parent@.update(y, self.root_of(y) as usize),
            other.size@ == self.size@,
            0 <= z < self.capacity(),
        ensures
            other.forest(),
            other.capacity() == self.capacity(),
            other.root_of(z) == self.root_of(z),
        decreases self.capacity() - self.size@[z],
    {
        self.lemma_root_props(y);
        assert(other.forest());
        if other.parent@[z] as int == z {
        } else if z == y {
            let r = self.root_of(y);
            self.lemma_root_props(y);
            if r != z {
                self.lemma_compress(other, y, r);
            }
        } else {
            self.lemma_compress(other, y, self.parent@[z] as int);
        }
    }

    /// As `lemma_compress`, quantified over every id, with the root set
    /// and well-formedness carried over.
    proof fn lemma_compress_all(self, other: Self, y: int)
        requires
            self.wf(),
            0 <= y < self.capacity(),
            self.parent@[y] as int != y,
            other.parent@ == self.parent@.update(y, self.root_of(y) as usize),
            other.size@ == self.size@,
        ensures
            other.wf(),
            other.capacity() == self.capacity(),
            forall|z: int| 0 <= z < self.capacity() ==> other.root_of(z) == self.root_of(z),
            other.roots() == self.roots(),
    {
        self.lemma_root_props(y);
        assert forall|z: int| 0 <= z < self.capacity() implies other.root_of(z) == self.root_of(
            z,
        ) by {
            self.lemma_compress(other, y, z);
        }
        assert(other.roots() =~= self.roots());
        assert forall|r: int| #[trigger] other.is_root(r) implies other.size@[r] as int
            == other.class_of(r).len() by {
            assert(self.is_root(r));
            assert(other.class_of(r) =~= self.class_of(r));
        }
    }

    /// Representative lookup with path compression.  The classes, the
    /// representatives and the size table are untouched.
    pub fn find(&mut self, x: usize) -> (r: usize)
        requires
            old(self).wf(),
            x < old(self).capacity(),
        ensures
            final(self).wf(),
            final(self).capacity() == old(self).capacity(),
            r < final(self).capacity(),
            r as int == old(self).root_of(x as int),
            forall|y: int|
                0 <= y < old(self).capacity() ==> final(self).root_of(y) == old(self).root_of(y),
            final(self).roots() == old(self).roots(),
            final(self).num_classes() == old(self).num_classes(),
    {
        let r = self.root(x);
        proof {
            old(self).lemma_root_props(x as int);
        }
        let mut cur = x;
        while cur != r
            invariant
                self.wf(),
                self.capacity() == old(self).capacity(),
                (cur as int) < self.capacity(),
                r < self.capacity(),
                self.size@ == old(self).size@,
                forall|y: int|
                    0 <= y < self.capacity() ==> self.root_of(y) == old(self).root_of(y),
                self.roots() == old(self).roots(),
                self.root_of(cur as int) == r as int,
            decreases self.capacity() - self.size@[cur as int],
        {
            let next = self.parent[cur];
            proof {
                self.lemma_root_props(cur as int);
            }
            let ghost before = *self;
            self.parent[cur] = r;
            proof {
                before.lemma_compress_all(*self, cur as int);
                self.lemma_root_props(next as int);
            }
            cur = next;
        }
        r
    }

    /// Re-rooting the smaller of two distinct roots under the larger
    /// redirects exactly the smaller class and keeps all other classes.
    proof fn lemma_relink(self, other: Self, small: int, large: int, ns: usize, z: int)
        requires
            self.forest(),
            self.is_root(small),
            self.is_root(large),
            small != large,
            self.size@[small] <= self.size@[large],
            ns == self.size@[large] + self.size@[small],
            ns <= self.capacity(),
            other.parent@ == self.parent@.update(small, large as usize),
            other.size@ == self.size@.update(large, ns),
            0 <= z < self.capacity(),
        ensures
            other.forest(),
            other.capacity() == self.capacity(),
            other.root_of(z) == (if self.root_of(z) == small {
                large as int
            } else {
                self.root_of(z)
            }),
        decreases self.capacity() - other.size@[z],
    {
        assert forall|i: int|
            0 <= i < other.capacity() && (#[trigger] other.parent@[i]) as int != i implies other.size@[i]
            < other.size@[other.parent@[i] as int] by {
            if i == small {
            } else {
                assert(self.parent@[i] as int != i);
                assert(self.size@[i] < self.size@[self.parent@[i] as int]);
            }
        }
        assert(other.forest());
        if other.parent@[z] as int == z {
            assert(self.parent@[z] as int == z);
            assert(self.root_of(z) == z);
        } else if z == small {
            assert(other.root_of(z) == other.root_of(large));
            assert(other.parent@[large] as int == large);
            assert(other.root_of(large) == large);
            assert(self.root_of(small) == small);
        } else {
            let p = self.parent@[z] as int;
            assert(self.parent@[z] as int != z);
            self.lemma_relink(other, small, large, ns, p);
            assert(self.root_of(z) == self.root_of(p));
        }
    }

    /// Merge the classes of `a` and `b`.  The contract states exactly how
    /// every representative moves and how the number of classes changes.
    pub fn unite(&mut self, a: usize, b: usize)
        requires
            old(self).wf(),
            a < old(self).capacity(),
            b < old(self).capacity(),
        ensures
            final(self).wf(),
            final(self).capacity() == old(self).capacity(),
            final(self).same_class(a as int, b as int),
            forall|x: int, y: int|
                0 <= x < old(self).capacity() && 0 <= y < old(self).capacity() ==> (
                #[trigger] final(self).same_class(x, y) <==> (old(self).same_class(x, y) || (old(
                    self,
                ).same_class(x, a as int) && old(self).same_class(y, b as int)) || (old(
                    self,
                ).same_class(x, b as int) && old(self).same_class(y, a as int)))),
            forall|x: int|
                0 <= x < old(self).capacity() ==> (#[trigger] final(self).root_of(x) == old(
                    self,
                ).root_of(x) || final(self).root_of(x) == final(self).root_of(a as int)),
            final(self).root_of(a as int) == old(self).root_of(a as int) || final(self).root_of(
                a as int,
            ) == old(self).root_of(b as int),
            old(self).same_class(a as int, b as int) ==> final(self).num_classes() == old(
                self,
            ).num_classes(),
            !old(self).same_class(a as int, b as int) ==> final(self).num_classes() == old(
                self,
            ).num_classes() - 1,
            final(self).num_classes() <= old(self).num_classes(),
            old(self).same_class(a as int, b as int) ==> forall|x: int|
                0 <= x < old(self).capacity() ==> #[trigger] final(self).root_of(x) == old(
                    self,
                ).root_of(x),
    {
        let ra = self.find(a);
        let rb = self.find(b);
        proof {
            old(self).lemma_root_idempotent(a as int);
            old(self).lemma_root_idempotent(b as int);
            assert(self.root_of(ra as int) == ra as int);
            assert(self.root_of(rb as int) == rb as int);
            self.lemma_root_props(ra as int);
            self.lemma_root_props(rb as int);
            assert(self.is_root(ra as int));
            assert(self.is_root(rb as int));
        }
        if ra == rb {
            return ;
        }
        let (small, large) = if self.size[ra] <= self.size[rb] {
            (ra, rb)
        } else {
            (rb, ra)
        };
        proof {
            // the two classes are disjoint subsets of 0..capacity, so the
            // size entries of their roots sum to at most the capacity
            self.lemma_class_finite(small as int);
            self.lemma_class_finite(large as int);
            lemma_int_range(0, self.capacity());
            assert(self.class_of(small as int).disjoint(self.class_of(large as int)));
            lemma_set_disjoint_lens(self.class_of(small as int), self.class_of(large as int));
            assert(self.class_of(small as int) + self.class_of(large as int) =~= Set::new(
                |i: int|
                    0 <= i < self.capacity() && (self.root_of(i) == small || self.root_of(i)
                        == large),
            ));
            lemma_len_subset(
                self.class_of(small as int) + self.class_of(large as int),
                set_int_range(0, self.capacity()),
            );
            assert(self.size@[large as int] + self.size@[small as int] <= self.capacity());
        }
        let cap = self.parent.len();
        assert(self.size@[large as int] + self.size@[small as int] <= cap);
        let new_size = self.size[large] + self.size[small];
        let ghost mid = *self;
        self.parent[small] = large;
        self.size[large] = new_size;
        proof {
            assert forall|z: int| 0 <= z < mid.capacity() implies self.root_of(z) == (
            if mid.root_of(z) == small {
                large as int
            } else {
                mid.root_of(z)
            }) by {
                mid.lemma_relink(*self, small as int, large as int, new_size, z);
            }
            // size accounting at each surviving root
            assert forall|r: int| #[trigger] self.is_root(r) implies self.size@[r] as int
                == self.class_of(r).len() by {
                assert(mid.is_root(r));
                assert(mid.is_root(large as int));
                assert(mid.is_root(small as int));
                if r == large {
                    assert(self.class_of(r) =~= mid.class_of(large as int) + mid.class_of(
                        small as int,
                    ));
                    lemma_set_disjoint_lens(
                        mid.class_of(large as int),
                        mid.class_of(small as int),
                    );
                    assert(mid.class_of(large as int) + mid.class_of(small as int) =~= mid.class_of(
                        small as int,
                    ) + mid.class_of(large as int));
                } else {
                    assert(self.class_of(r) =~= mid.class_of(r));
                }
            }
            assert(self.wf());
            // the root set loses exactly `small`
            assert(self.roots() =~= mid.roots().remove(small as int));
            mid.lemma_roots_finite();
            assert(mid.roots().contains(small as int));
            assert(self.num_classes() == mid.num_classes() - 1);
        }
    }
}

} // verus!
