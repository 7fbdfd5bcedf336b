//! Disjoint sets: over values of any hashable type, and over the numbers
//! `0..n`.
use crate::element::{duplicate, exact_clone, exact_eq};
use std::collections::HashMap;
use std::hash::Hash;
use vstd::prelude::*;
use vstd::std_specs::hash::obeys_key_model;

verus! {

/// Every number points to a number of the structure, and following the
/// pointers from a number that does not point to itself goes down in rank.
pub open spec fn ranked(fa: Seq<usize>, rank: Seq<nat>) -> bool {
    &&& rank.len() == fa.len()
    &&& forall|i: int| 0 <= i < fa.len() ==> (#[trigger] fa[i]) < fa.len()
    &&& forall|i: int|
        0 <= i < fa.len() && fa[i] != i ==> rank[(#[trigger] fa[i]) as int] < rank[i]
}

/// The number that the pointers lead to from `x`: the representative of the
/// set that holds `x`.
pub open spec fn root_of(fa: Seq<usize>, rank: Seq<nat>, x: int) -> int
    decreases rank[x],
{
    if 0 <= x < fa.len() && fa[x] != x && rank[fa[x] as int] < rank[x] {
        root_of(fa, rank, fa[x] as int)
    } else {
        x
    }
}

/// The representative of a number of the structure is a number of the
/// structure that points to itself, and is no higher in rank.
pub proof fn lemma_root_is_root(fa: Seq<usize>, rank: Seq<nat>, x: int)
    requires
        ranked(fa, rank),
        0 <= x < fa.len(),
    ensures
        0 <= root_of(fa, rank, x) < fa.len(),
        fa[root_of(fa, rank, x)] == root_of(fa, rank, x),
        rank[root_of(fa, rank, x)] <= rank[x],
        root_of(fa, rank, root_of(fa, rank, x)) == root_of(fa, rank, x),
        fa[x] != x ==> rank[root_of(fa, rank, x)] < rank[x],
    decreases rank[x],
{
    if fa[x] != x {
        lemma_root_is_root(fa, rank, fa[x] as int);
    }
}

/// Pointing a number straight to its representative changes no
/// representative.
proof fn lemma_compress_keeps_roots(fa: Seq<usize>, rank: Seq<nat>, x: int, a: int)
    requires
        ranked(fa, rank),
        0 <= x < fa.len(),
        0 <= a < fa.len(),
    ensures
        ranked(fa.update(x, root_of(fa, rank, x) as usize), rank),
        root_of(fa.update(x, root_of(fa, rank, x) as usize), rank, a) == root_of(fa, rank, a),
    decreases rank[a],
{
    let r = root_of(fa, rank, x);
    let next = fa.update(x, r as usize);
    lemma_root_is_root(fa, rank, x);
    assert(ranked(next, rank));
    if a == x {
        if r != x {
            lemma_compress_keeps_roots(fa, rank, x, r);
        }
    } else if fa[a] != a {
        lemma_compress_keeps_roots(fa, rank, x, fa[a] as int);
    }
}

/// The ranks after the tree of `from` is hung below the root `to`: every
/// number of that tree is lifted above `to`.
pub open spec fn lifted(fa: Seq<usize>, rank: Seq<nat>, from: int, to: int) -> Seq<nat> {
    Seq::new(
        rank.len(),
        |i: int|
            if root_of(fa, rank, i) == from {
                rank[i] + rank[to] + 1
            } else {
                rank[i]
            },
    )
}

/// Hanging the root `from` below another root `to` moves the numbers of
/// its set to the representative `to` and changes no other representative.
proof fn lemma_link_moves_roots(fa: Seq<usize>, rank: Seq<nat>, from: int, to: int, a: int)
    requires
        ranked(fa, rank),
        0 <= from < fa.len(),
        0 <= to < fa.len(),
        fa[from] == from,
        fa[to] == to,
        from != to,
        0 <= a < fa.len(),
    ensures
        ranked(fa.update(from, to as usize), lifted(fa, rank, from, to)),
        root_of(fa.update(from, to as usize), lifted(fa, rank, from, to), a) == if root_of(
            fa,
            rank,
            a,
        ) == from {
            to
        } else {
            root_of(fa, rank, a)
        },
    decreases rank[a],
{
    let next = fa.update(from, to as usize);
    let up = lifted(fa, rank, from, to);
    assert(ranked(next, up)) by {
        assert forall|i: int|
            0 <= i < next.len() && next[i] != i implies up[(#[trigger] next[i]) as int]
            < up[i] by {
            if i == from {
                assert(root_of(fa, rank, to) == to);
            } else {
                assert(fa[i] != i);
                assert(root_of(fa, rank, i) == root_of(fa, rank, fa[i] as int));
            }
        }
    }
    if a == from {
        assert(root_of(next, up, to) == to);
    } else if fa[a] != a {
        lemma_link_moves_roots(fa, rank, from, to, fa[a] as int);
    }
}

/// Disjoint sets over the numbers `0..n`, each set named by one of its
/// numbers, its representative.
pub struct CompactUnionSet {
    fa: Vec<usize>,
    rank: Ghost<Seq<nat>>,
}

impl CompactUnionSet {
    /// The representation invariant: the pointers lead every number to a
    /// representative.
    pub closed spec fn wf(&self) -> bool {
        ranked(self.fa@, self.rank@)
    }

    /// How many numbers the structure holds.
    pub closed spec fn len(&self) -> nat {
        self.fa@.len()
    }

    /// The representative of the set that holds `x`.
    pub closed spec fn find(&self, x: usize) -> usize {
        root_of(self.fa@, self.rank@, x as int) as usize
    }

    /// Whether `x` and `y` are in one set.
    pub open spec fn same_set(&self, x: usize, y: usize) -> bool {
        self.find(x) == self.find(y)
    }

    /// The representative of a set is in the set and represents itself.
    pub proof fn lemma_find_is_representative(&self, x: usize)
        requires
            self.wf(),
            x < self.len(),
        ensures
            self.find(x) < self.len(),
            self.find(self.find(x)) == self.find(x),
    {
        lemma_root_is_root(self.fa@, self.rank@, x as int);
    }

    /// Creates the structure over `0..n` with every number in a set of its
    /// own.
    pub fn new(n: usize) -> (r: Self)
        ensures
            r.wf(),
            r.len() == n,
            forall|x: usize| x < n ==> #[trigger] r.find(x) == x,
    {
        let mut fa: Vec<usize> = Vec::new();
        let mut i: usize = 0;
        while i < n
            invariant
                i <= n,
                fa@.len() == i,
                forall|j: int| 0 <= j < i ==> #[trigger] fa@[j] == j,
            decreases n - i,
        {
            fa.push(i);
            i += 1;
        }
        CompactUnionSet { fa, rank: Ghost(Seq::new(n as nat, |i: int| 0nat)) }
    }

    /// Enlarges the structure to the numbers `0..n`; a structure that
    /// holds them already stays as it is. The new numbers all join the set
    /// of 0.
    pub fn enlarge_to(&mut self, n: usize)
        requires
            old(self).wf(),
        ensures
            final(self).wf(),
            final(self).len() == if n <= old(self).len() {
                old(self).len()
            } else {
                n as nat
            },
            forall|x: usize|
                x < old(self).len() ==> #[trigger] final(self).find(x) == old(self).find(x),
            forall|x: usize|
                old(self).len() <= x < n ==> #[trigger] final(self).find(x) == final(self).find(0),
    {
        if n <= self.fa.len() {
            return ;
        }
        let ghost before = self.fa@;
        let ghost ranks = self.rank@;
        let ghost top = if before.len() == 0 {
            1nat
        } else {
            ranks[0] + 1
        };
        self.fa.resize(n, 0);
        proof {
            self.rank@ = Seq::new(
                n as nat,
                |i: int|
                    if i < before.len() {
                        ranks[i]
                    } else if i == 0 {
                        0nat
                    } else {
                        top
                    },
            );
            let fa = self.fa@;
            let rank = self.rank@;
            assert forall|i: int| 0 <= i < fa.len() implies (#[trigger] fa[i]) < fa.len() by {
                if i < before.len() {
                    assert(fa[i] == before[i]);
                }
            }
            assert forall|i: int|
                0 <= i < fa.len() && fa[i] != i implies rank[(#[trigger] fa[i]) as int]
                < rank[i] by {
                if i < before.len() {
                    assert(fa[i] == before[i]);
                    assert(before[i] < before.len());
                } else {
                    assert(fa[i] == 0);
                }
            }
            assert forall|x: usize| before.len() <= x < n implies #[trigger] self.find(x)
                == self.find(0) by {
                assert(fa[x as int] == 0);
                if x != 0 {
                    assert(root_of(fa, rank, x as int) == root_of(fa, rank, 0));
                }
            }
            assert forall|x: usize| x < before.len() implies #[trigger] self.find(x) == old(
                self,
            ).find(x) by {
                lemma_extend_keeps_roots(before, ranks, fa, rank, x as int);
            }
        }
    }

    /// Follows the pointers from `x` to its representative and points every
    /// number on the way straight to it.
    fn _getfa(&mut self, x: usize) -> (r: usize)
        requires
            old(self).wf(),
            x < old(self).len(),
        ensures
            final(self).wf(),
            final(self).len() == old(self).len(),
            final(self).rank == old(self).rank,
            r == old(self).find(x),
            forall|a: usize|
                a < old(self).len() ==> #[trigger] final(self).find(a) == old(self).find(a),
        decreases old(self).rank@[x as int],
    {
        let ghost before = self.fa@;
        let ghost ranks = self.rank@;
        let parent = self.fa[x];
        if parent == x {
            return parent;
        }
        let root = self._getfa(parent);
        let ghost mid = self.fa@;
        proof {
            lemma_root_is_root(before, ranks, x as int);
            lemma_root_is_root(before, ranks, parent as int);
            assert(root_of(before, ranks, x as int) == root_of(before, ranks, parent as int));
            lemma_root_is_root(mid, ranks, x as int);
            assert(self.find(x) == old(self).find(x));
            assert(root_of(mid, ranks, x as int) == root as int);
            assert forall|a: usize| a < mid.len() implies root_of(
                mid.update(x as int, root),
                ranks,
                a as int,
            ) as usize == #[trigger] old(self).find(a) by {
                lemma_compress_keeps_roots(mid, ranks, x as int, a as int);
                assert(self.find(a) == old(self).find(a));
            }
            lemma_compress_keeps_roots(mid, ranks, x as int, x as int);
        }
        self.fa[x] = root;
        assert(self.fa@ == mid.update(x as int, root));
        root
    }

    /// Returns the representative of the set that holds `x`, or an error
    /// where the structure does not hold `x`. The sets stay as they are.
    pub fn getfa(&mut self, x: usize) -> (r: Result<usize, ()>)
        requires
            old(self).wf(),
        ensures
            final(self).wf(),
            final(self).len() == old(self).len(),
            forall|a: usize|
                a < old(self).len() ==> #[trigger] final(self).find(a) == old(self).find(a),
            r == if x < old(self).len() {
                Ok::<usize, ()>(old(self).find(x))
            } else {
                Err::<usize, ()>(())
            },
    {
        if x >= self.fa.len() {
            return Err(());
        }
        Ok(self._getfa(x))
    }

    /// Returns whether `x` and `y` are in one set, or an error where the
    /// structure does not hold both. The sets stay as they are.
    pub fn is_union(&mut self, x: usize, y: usize) -> (r: Result<bool, ()>)
        requires
            old(self).wf(),
        ensures
            final(self).wf(),
            final(self).len() == old(self).len(),
            forall|a: usize|
                a < old(self).len() ==> #[trigger] final(self).find(a) == old(self).find(a),
            r == if x < old(self).len() && y < old(self).len() {
                Ok::<bool, ()>(old(self).same_set(x, y))
            } else {
                Err::<bool, ()>(())
            },
    {
        if x >= self.fa.len() || y >= self.fa.len() {
            return Err(());
        }
        let xfa = self._getfa(x);
        let yfa = self._getfa(y);
        Ok(xfa == yfa)
    }

    /// Unites the sets that hold `x` and `y`: the numbers of the set of `x`
    /// get the representative of `y`. Where the structure does not hold
    /// both, it stays as it is and the call is an error.
    pub fn unite(&mut self, x: usize, y: usize) -> (r: Result<(), ()>)
        requires
            old(self).wf(),
        ensures
            final(self).wf(),
            final(self).len() == old(self).len(),
            r is Ok <==> x < old(self).len() && y < old(self).len(),
            r is Ok ==> forall|a: usize|
                a < old(self).len() ==> #[trigger] final(self).find(a) == if old(self).same_set(
                    a,
                    x,
                ) {
                    old(self).find(y)
                } else {
                    old(self).find(a)
                },
            r is Err ==> forall|a: usize|
                a < old(self).len() ==> #[trigger] final(self).find(a) == old(self).find(a),
    {
        if x >= self.fa.len() || y >= self.fa.len() {
            return Err(());
        }
        let xfa = self._getfa(x);
        let ghost between = *self;
        let yfa = self._getfa(y);
        let ghost fa = self.fa@;
        let ghost ranks = self.rank@;
        proof {
            lemma_root_is_root(old(self).fa@, old(self).rank@, x as int);
            lemma_root_is_root(old(self).fa@, old(self).rank@, y as int);
            assert(between.find(y) == old(self).find(y));
            assert(yfa == old(self).find(y));
            assert forall|a: usize| a < fa.len() implies #[trigger] self.find(a) == old(self).find(
                a,
            ) by {
                assert(between.find(a) == old(self).find(a));
            }
            lemma_root_is_root(fa, ranks, x as int);
            lemma_root_is_root(fa, ranks, y as int);
            assert(self.find(x) == xfa);
            assert(self.find(y) == yfa);
            assert(fa[xfa as int] == xfa);
            assert(fa[yfa as int] == yfa);
        }
        if xfa != yfa {
            proof {
                assert forall|a: usize| a < fa.len() implies root_of(
                    fa.update(xfa as int, yfa),
                    lifted(fa, ranks, xfa as int, yfa as int),
                    a as int,
                ) as usize == if #[trigger] old(self).same_set(a, x) {
                    yfa
                } else {
                    old(self).find(a)
                } by {
                    lemma_link_moves_roots(fa, ranks, xfa as int, yfa as int, a as int);
                    lemma_root_is_root(fa, ranks, a as int);
                    assert(self.find(a) == old(self).find(a));
                }
                lemma_link_moves_roots(fa, ranks, xfa as int, yfa as int, 0);
                self.rank@ = lifted(fa, ranks, xfa as int, yfa as int);
            }
            self.fa[xfa] = yfa;
            assert(self.fa@ == fa.update(xfa as int, yfa));
            assert forall|a: usize| a < old(self).len() implies #[trigger] self.find(a) == if old(
                self,
            ).same_set(a, x) {
                old(self).find(y)
            } else {
                old(self).find(a)
            } by {}
        } else {
            let ghost unchanged = *self;
            self.fa[xfa] = yfa;
            assert(self.fa@ =~= fa);
            assert forall|a: usize| a < old(self).len() implies #[trigger] self.find(a) == if old(
                self,
            ).same_set(a, x) {
                old(self).find(y)
            } else {
                old(self).find(a)
            } by {
                assert(unchanged.find(a) == old(self).find(a));
            }
        }
        Ok(())
    }
}

/// Numbers added behind a structure change no representative in it.
proof fn lemma_extend_keeps_roots(
    fa: Seq<usize>,
    rank: Seq<nat>,
    more: Seq<usize>,
    ranks: Seq<nat>,
    x: int,
)
    requires
        ranked(fa, rank),
        ranked(more, ranks),
        fa.len() <= more.len(),
        forall|i: int| 0 <= i < fa.len() ==> fa[i] == more[i] && rank[i] == ranks[i],
        0 <= x < fa.len(),
    ensures
        root_of(more, ranks, x) == root_of(fa, rank, x),
    decreases rank[x],
{
    if fa[x] != x {
        lemma_extend_keeps_roots(fa, rank, more, ranks, fa[x] as int);
    }
}

/// Every value of the structure points to a value of the structure, and
/// following the pointers from a value that does not point to itself goes
/// down in rank.
pub open spec fn ranked_map<T>(fa: Map<T, T>, rank: Map<T, nat>) -> bool {
    &&& forall|x: T| fa.contains_key(x) ==> fa.contains_key(#[trigger] fa[x])
    &&& forall|x: T| fa.contains_key(x) && fa[x] != x ==> rank[#[trigger] fa[x]] < rank[x]
}

/// The value that the pointers lead to from `x`: the representative of the
/// set that holds `x`.
pub open spec fn root_in<T>(fa: Map<T, T>, rank: Map<T, nat>, x: T) -> T
    decreases rank[x],
{
    if fa.contains_key(x) && fa[x] != x && rank[fa[x]] < rank[x] {
        root_in(fa, rank, fa[x])
    } else {
        x
    }
}

/// The representative of a value of the structure is a value of the
/// structure that points to itself, and is lower in rank unless the value
/// is its own representative.
pub proof fn lemma_root_in_is_root<T>(fa: Map<T, T>, rank: Map<T, nat>, x: T)
    requires
        ranked_map(fa, rank),
        fa.contains_key(x),
    ensures
        fa.contains_key(root_in(fa, rank, x)),
        fa[root_in(fa, rank, x)] == root_in(fa, rank, x),
        root_in(fa, rank, root_in(fa, rank, x)) == root_in(fa, rank, x),
        rank[root_in(fa, rank, x)] <= rank[x],
        fa[x] != x ==> rank[root_in(fa, rank, x)] < rank[x],
    decreases rank[x],
{
    if fa[x] != x {
        lemma_root_in_is_root(fa, rank, fa[x]);
    }
}

/// Pointing a value straight to its representative changes no
/// representative.
proof fn lemma_compress_keeps_roots_in<T>(fa: Map<T, T>, rank: Map<T, nat>, x: T, a: T)
    requires
        ranked_map(fa, rank),
        fa.contains_key(x),
        fa.contains_key(a),
    ensures
        ranked_map(fa.insert(x, root_in(fa, rank, x)), rank),
        root_in(fa.insert(x, root_in(fa, rank, x)), rank, a) == root_in(fa, rank, a),
    decreases rank[a],
{
    let r = root_in(fa, rank, x);
    let next = fa.insert(x, r);
    lemma_root_in_is_root(fa, rank, x);
    assert(ranked_map(next, rank)) by {
        assert forall|y: T| next.contains_key(y) implies next.contains_key(#[trigger] next[y]) by {
            if y != x {
                assert(fa.contains_key(fa[y]));
            }
        }
        assert forall|y: T| next.contains_key(y) && next[y] != y implies rank[#[trigger] next[y]]
            < rank[y] by {
            if y != x {
                assert(rank[fa[y]] < rank[y]);
            }
        }
    }
    if a == x {
        if r != x {
            lemma_compress_keeps_roots_in(fa, rank, x, r);
        }
    } else if fa[a] != a {
        lemma_compress_keeps_roots_in(fa, rank, x, fa[a]);
    }
}

/// The ranks after the tree of `from` is hung below the root `to`: every
/// value of that tree is lifted above `to`.
pub open spec fn lifted_in<T>(fa: Map<T, T>, rank: Map<T, nat>, from: T, to: T) -> Map<T, nat> {
    Map::new(
        |x: T| true,
        |x: T|
            if root_in(fa, rank, x) == from {
                rank[x] + rank[to] + 1
            } else {
                rank[x]
            },
    )
}

/// Hanging the root `from` below another root `to` moves the values of its
/// set to the representative `to` and changes no other representative.
proof fn lemma_link_moves_roots_in<T>(fa: Map<T, T>, rank: Map<T, nat>, from: T, to: T, a: T)
    requires
        ranked_map(fa, rank),
        fa.contains_key(from),
        fa.contains_key(to),
        fa[from] == from,
        fa[to] == to,
        from != to,
        fa.contains_key(a),
    ensures
        ranked_map(fa.insert(from, to), lifted_in(fa, rank, from, to)),
        root_in(fa.insert(from, to), lifted_in(fa, rank, from, to), a) == if root_in(fa, rank, a)
            == from {
            to
        } else {
            root_in(fa, rank, a)
        },
    decreases rank[a],
{
    let next = fa.insert(from, to);
    let up = lifted_in(fa, rank, from, to);
    assert(ranked_map(next, up)) by {
        assert forall|y: T| next.contains_key(y) implies next.contains_key(#[trigger] next[y]) by {
            if y != from {
                assert(fa.contains_key(fa[y]));
            }
        }
        assert forall|y: T| next.contains_key(y) && next[y] != y implies up[#[trigger] next[y]]
            < up[y] by {
            if y == from {
                assert(root_in(fa, rank, to) == to);
            } else {
                assert(rank[fa[y]] < rank[y]);
                assert(root_in(fa, rank, y) == root_in(fa, rank, fa[y]));
            }
        }
    }
    if a == from {
        assert(root_in(next, up, to) == to);
    } else if fa[a] != a {
        lemma_link_moves_roots_in(fa, rank, from, to, fa[a]);
    }
}

/// A value put in as a set of its own changes no representative.
proof fn lemma_insert_keeps_roots_in<T>(fa: Map<T, T>, rank: Map<T, nat>, x: T, a: T)
    requires
        ranked_map(fa, rank),
        !fa.contains_key(x),
        fa.contains_key(a),
    ensures
        ranked_map(fa.insert(x, x), rank),
        root_in(fa.insert(x, x), rank, a) == root_in(fa, rank, a),
        root_in(fa.insert(x, x), rank, x) == x,
    decreases rank[a],
{
    let next = fa.insert(x, x);
    assert(ranked_map(next, rank)) by {
        assert forall|y: T| next.contains_key(y) implies next.contains_key(#[trigger] next[y]) by {
            if y != x {
                assert(fa.contains_key(fa[y]));
            }
        }
    }
    if fa[a] != a {
        assert(fa.contains_key(fa[a]));
        lemma_insert_keeps_roots_in(fa, rank, x, fa[a]);
    }
}

/// Disjoint sets of values, each set named by one of its values, its
/// representative.
#[verifier::reject_recursive_types(T)]
pub struct UnionSet<T: Clone + Hash + Eq> {
    fa: HashMap<T, T>,
    rank: Ghost<Map<T, nat>>,
}

impl<T: Clone + Hash + Eq> UnionSet<T> {
    /// What the structure asks of the type of its values: hashing and
    /// comparing go by the value, and a clone is the same value.
    pub open spec fn fits() -> bool {
        &&& obeys_key_model::<T>()
        &&& exact_eq::<T>()
        &&& exact_clone::<T>()
    }

    /// The representation invariant: the pointers lead every value to a
    /// representative.
    pub closed spec fn wf(&self) -> bool {
        ranked_map(self.fa@, self.rank@)
    }

    /// The values that the structure holds.
    pub closed spec fn values(&self) -> Set<T> {
        self.fa@.dom()
    }

    /// The representative of the set that holds `x`.
    pub closed spec fn find(&self, x: T) -> T {
        root_in(self.fa@, self.rank@, x)
    }

    /// Whether `x` and `y` are in one set.
    pub open spec fn same_set(&self, x: T, y: T) -> bool {
        self.find(x) == self.find(y)
    }

    /// The representative of a set is in the set and represents itself.
    pub proof fn lemma_find_is_representative(&self, x: T)
        requires
            self.wf(),
            self.values().contains(x),
        ensures
            self.values().contains(self.find(x)),
            self.find(self.find(x)) == self.find(x),
    {
        lemma_root_in_is_root(self.fa@, self.rank@, x);
    }

    /// Creates the structure with no value in it.
    pub fn new() -> (r: Self)
        requires
            Self::fits(),
        ensures
            r.wf(),
            r.values() == Set::<T>::empty(),
    {
        let r = UnionSet { fa: HashMap::new(), rank: Ghost(Map::new(|x: T| true, |x: T| 0nat)) };
        assert(r.values() =~= Set::<T>::empty());
        r
    }

    /// Creates the structure with the values of `x`, each in a set of its
    /// own.
    pub fn new_from_vec(x: &Vec<T>) -> (r: Self)
        requires
            Self::fits(),
        ensures
            r.wf(),
            r.values() == x@.to_set(),
            forall|v: T| x@.contains(v) ==> #[trigger] r.find(v) == v,
    {
        let mut fa: HashMap<T, T> = HashMap::new();
        let mut i: usize = 0;
        while i < x.len()
            invariant
                Self::fits(),
                i <= x@.len(),
                forall|v: T| fa@.contains_key(v) <==> x@.take(i as int).contains(v),
                forall|v: T| fa@.contains_key(v) ==> #[trigger] fa@[v] == v,
            decreases x@.len() - i,
        {
            let key = duplicate(&x[i]);
            let value = duplicate(&x[i]);
            fa.insert(key, value);
            proof {
                let head = x@.take(i as int);
                let more = x@.take(i + 1);
                assert(more =~= head.push(x@[i as int]));
                assert forall|v: T| fa@.contains_key(v) <==> more.contains(v) by {
                    if head.contains(v) {
                        let q = choose|q: int| 0 <= q < head.len() && head[q] == v;
                        assert(more[q] == v);
                    }
                    if v == x@[i as int] {
                        assert(more[i as int] == v);
                    }
                }
            }
            i += 1;
        }
        let r = UnionSet { fa, rank: Ghost(Map::new(|x: T| true, |x: T| 0nat)) };
        proof {
            assert(x@.take(x@.len() as int) =~= x@);
            assert(r.values() =~= x@.to_set());
        }
        r
    }

    /// Returns whether the structure holds `x`.
    pub fn contains(&self, x: &T) -> (r: bool)
        requires
            Self::fits(),
        ensures
            r == self.values().contains(*x),
    {
        self.fa.contains_key(x)
    }

    /// Puts `x` in as a set of its own; a value that the structure holds
    /// already is an error and changes nothing.
    pub fn insert(&mut self, x: &T) -> (r: Result<(), ()>)
        requires
            Self::fits(),
            old(self).wf(),
        ensures
            final(self).wf(),
            r is Err <==> old(self).values().contains(*x),
            r is Err ==> final(self).values() == old(self).values() && forall|a: T|
                old(self).values().contains(a) ==> #[trigger] final(self).find(a) == old(
                    self,
                ).find(a),
            r is Ok ==> final(self).values() == old(self).values().insert(*x),
            r is Ok ==> final(self).find(*x) == *x,
            r is Ok ==> forall|a: T|
                old(self).values().contains(a) ==> #[trigger] final(self).find(a) == old(
                    self,
                ).find(a),
    {
        if self.fa.contains_key(x) {
            return Err(());
        }
        proof {
            assert forall|a: T| old(self).values().contains(a) implies root_in(
                self.fa@.insert(*x, *x),
                self.rank@,
                a,
            ) == #[trigger] old(self).find(a) by {
                lemma_insert_keeps_roots_in(self.fa@, self.rank@, *x, a);
            }
            if exists|a: T| self.fa@.contains_key(a) {
                let a = choose|a: T| self.fa@.contains_key(a);
                lemma_insert_keeps_roots_in(self.fa@, self.rank@, *x, a);
            } else {
                assert(ranked_map(self.fa@.insert(*x, *x), self.rank@));
            }
        }
        self.fa.insert(duplicate(x), duplicate(x));
        Ok(())
    }

    /// Follows the pointers from `x` to its representative and points every
    /// value on the way straight to it.
    fn _getfa(&mut self, x: &T) -> (r: T)
        requires
            Self::fits(),
            old(self).wf(),
            old(self).values().contains(*x),
        ensures
            final(self).wf(),
            final(self).values() == old(self).values(),
            final(self).rank == old(self).rank,
            r == old(self).find(*x),
            forall|a: T|
                old(self).values().contains(a) ==> #[trigger] final(self).find(a) == old(
                    self,
                ).find(a),
        decreases old(self).rank@[*x],
    {
        let ghost before = self.fa@;
        let ghost ranks = self.rank@;
        let parent = match self.fa.get(x) {
            Some(p) => duplicate(p),
            None => duplicate(x),
        };
        if parent == *x {
            return parent;
        }
        let root = self._getfa(&parent);
        let ghost mid = self.fa@;
        proof {
            lemma_root_in_is_root(before, ranks, *x);
            lemma_root_in_is_root(before, ranks, parent);
            assert(root_in(before, ranks, *x) == root_in(before, ranks, parent));
            assert(self.values().contains(*x));
            lemma_root_in_is_root(mid, ranks, *x);
            assert(self.find(*x) == old(self).find(*x));
            assert(root_in(mid, ranks, *x) == root);
            assert forall|a: T| mid.contains_key(a) implies root_in(mid.insert(*x, root), ranks, a)
                == #[trigger] old(self).find(a) by {
                lemma_compress_keeps_roots_in(mid, ranks, *x, a);
                assert(old(self).values().contains(a));
                assert(self.find(a) == old(self).find(a));
            }
            lemma_compress_keeps_roots_in(mid, ranks, *x, *x);
            assert(mid.insert(*x, root).dom() =~= mid.dom());
        }
        self.fa.insert(duplicate(x), duplicate(&root));
        root
    }

    /// Returns the representative of the set that holds `x`, or an error
    /// where the structure does not hold `x`. The sets stay as they are.
    pub fn getfa(&mut self, x: &T) -> (r: Result<T, ()>)
        requires
            Self::fits(),
            old(self).wf(),
        ensures
            final(self).wf(),
            final(self).values() == old(self).values(),
            forall|a: T|
                old(self).values().contains(a) ==> #[trigger] final(self).find(a) == old(
                    self,
                ).find(a),
            r == if old(self).values().contains(*x) {
                Ok::<T, ()>(old(self).find(*x))
            } else {
                Err::<T, ()>(())
            },
    {
        if !self.fa.contains_key(x) {
            return Err(());
        }
        Ok(self._getfa(x))
    }

    /// Returns whether `x` and `y` are in one set, or an error where the
    /// structure does not hold both. The sets stay as they are.
    pub fn is_union(&mut self, x: &T, y: &T) -> (r: Result<bool, ()>)
        requires
            Self::fits(),
            old(self).wf(),
        ensures
            final(self).wf(),
            final(self).values() == old(self).values(),
            forall|a: T|
                old(self).values().contains(a) ==> #[trigger] final(self).find(a) == old(
                    self,
                ).find(a),
            r == if old(self).values().contains(*x) && old(self).values().contains(*y) {
                Ok::<bool, ()>(old(self).same_set(*x, *y))
            } else {
                Err::<bool, ()>(())
            },
    {
        if !self.fa.contains_key(x) || !self.fa.contains_key(y) {
            return Err(());
        }
        let xfa = self._getfa(x);
        let ghost between = *self;
        let yfa = self._getfa(y);
        proof {
            assert(between.find(*y) == old(self).find(*y));
            assert forall|a: T| old(self).values().contains(a) implies #[trigger] self.find(a)
                == old(self).find(a) by {
                assert(between.find(a) == old(self).find(a));
            }
        }
        Ok(xfa == yfa)
    }

    /// Unites the sets that hold `x` and `y`: the values of the set of `x`
    /// get the representative of `y`. Where the structure does not hold
    /// both, it stays as it is and the call is an error.
    pub fn unite(&mut self, x: &T, y: &T) -> (r: Result<(), ()>)
        requires
            Self::fits(),
            old(self).wf(),
        ensures
            final(self).wf(),
            final(self).values() == old(self).values(),
            r is Ok <==> old(self).values().contains(*x) && old(self).values().contains(*y),
            r is Ok ==> forall|a: T|
                old(self).values().contains(a) ==> #[trigger] final(self).find(a) == if old(
                    self,
                ).same_set(a, *x) {
                    old(self).find(*y)
                } else {
                    old(self).find(a)
                },
            r is Err ==> forall|a: T|
                old(self).values().contains(a) ==> #[trigger] final(self).find(a) == old(
                    self,
                ).find(a),
    {
        if !self.fa.contains_key(x) || !self.fa.contains_key(y) {
            return Err(());
        }
        let xfa = self._getfa(x);
        let ghost between = *self;
        let yfa = self._getfa(y);
        let ghost fa = self.fa@;
        let ghost ranks = self.rank@;
        let ghost joined = *self;
        proof {
            lemma_root_in_is_root(old(self).fa@, old(self).rank@, *x);
            lemma_root_in_is_root(old(self).fa@, old(self).rank@, *y);
            assert(between.find(*y) == old(self).find(*y));
            assert forall|a: T| old(self).values().contains(a) implies #[trigger] self.find(a)
                == old(self).find(a) by {
                assert(between.find(a) == old(self).find(a));
            }
            lemma_root_in_is_root(fa, ranks, *x);
            lemma_root_in_is_root(fa, ranks, *y);
            assert(self.find(*x) == xfa);
            assert(self.find(*y) == yfa);
            assert(fa[xfa] == xfa);
            assert(fa[yfa] == yfa);
            assert(fa.insert(xfa, yfa).dom() =~= fa.dom());
        }
        if xfa != yfa {
            proof {
                assert forall|a: T| fa.contains_key(a) implies root_in(
                    fa.insert(xfa, yfa),
                    lifted_in(fa, ranks, xfa, yfa),
                    a,
                ) == if #[trigger] old(self).same_set(a, *x) {
                    yfa
                } else {
                    old(self).find(a)
                } by {
                    lemma_link_moves_roots_in(fa, ranks, xfa, yfa, a);
                    assert(joined.find(a) == old(self).find(a));
                }
                lemma_link_moves_roots_in(fa, ranks, xfa, yfa, xfa);
                self.rank@ = lifted_in(fa, ranks, xfa, yfa);
            }
            self.fa.insert(xfa, yfa);
            assert forall|a: T|
                old(self).values().contains(a) implies #[trigger] self.find(a) == if old(
                self,
            ).same_set(a, *x) {
                old(self).find(*y)
            } else {
                old(self).find(a)
            } by {}
        } else {
            self.fa.insert(xfa, yfa);
            assert(self.fa@ =~= fa);
            assert forall|a: T|
                old(self).values().contains(a) implies #[trigger] self.find(a) == if old(
                self,
            ).same_set(a, *x) {
                old(self).find(*y)
            } else {
                old(self).find(a)
            } by {
                assert(joined.find(a) == old(self).find(a));
            }
        }
        Ok(())
    }
}

} // verus!
