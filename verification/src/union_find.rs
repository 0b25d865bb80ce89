//! A union-find (disjoint set) structure whose classes carry a value.
//!
//! Every element belongs to one class; a class is named by its representative (its root) and
//! carries one value. `find` gives the representative and compresses paths, `union` merges
//! two classes and lets the value type decide which representative survives.
use vstd::prelude::*;

verus! {

/// One of two values.
#[derive(Clone, Copy, Debug, PartialEq, Eq)]
pub enum Either<L, R> {
    /// The left one.
    Left(L),
    /// The right one.
    Right(R),
}

/// The value carried by a class.
pub trait UFValue: Sized + Copy {
    /// The value of a fresh singleton class for element `key`.
    spec fn spec_init(key: usize) -> Self;

    /// The value of the merge of two classes; `Left` keeps the first representative,
    /// `Right` the second.
    spec fn spec_union(x: Self, y: Self) -> Either<Self, Self>;

    /// The value of a fresh singleton class for element `key`.
    fn init(key: usize) -> (r: Self)
        ensures
            r == Self::spec_init(key),
    ;

    /// Merges two class values; `Left` keeps the first representative, `Right` the second.
    fn union(x: Self, y: Self) -> (r: Either<Self, Self>)
        ensures
            r == Self::spec_union(x, y),
    ;
}

/// Class sizes: a fresh class has size one, and the larger class (the second on a tie)
/// keeps its representative.
impl UFValue for usize {
    open spec fn spec_init(key: usize) -> usize {
        1
    }

    open spec fn spec_union(x: usize, y: usize) -> Either<usize, usize> {
        if x > y {
            Either::Left(x.wrapping_add(y))
        } else {
            Either::Right(x.wrapping_add(y))
        }
    }

    fn init(_key: usize) -> (r: usize) {
        1
    }

    fn union(x: usize, y: usize) -> (r: Either<usize, usize>) {
        if x > y {
            Either::Left(x.wrapping_add(y))
        } else {
            Either::Right(x.wrapping_add(y))
        }
    }
}

/// A node of the forest: a link to another element, or the value of a class whose
/// representative is this node.
#[derive(Clone, Copy, Debug)]
pub enum UFNode<V> {
    /// A link towards the representative.
    UFKey(usize),
    /// The value of the class whose representative this is.
    UFNValue(V),
}

impl<V: Copy> UFNode<V> {
    /// The element this node links to.
    pub fn get_key(&self) -> (r: usize)
        requires
            self is UFKey,
        ensures
            r == self->UFKey_0,
    {
        match self {
            UFNode::UFKey(k) => *k,
            UFNode::UFNValue(_) => 0,
        }
    }

    /// The class value stored in this node.
    pub fn get_value(&self) -> (r: V)
        requires
            self is UFNValue,
        ensures
            r == self->UFNValue_0,
    {
        match self {
            UFNode::UFNValue(v) => *v,
            UFNode::UFKey(_) => vstd::pervasive::unreached(),
        }
    }
}

/// A union-find over the elements `0 .. size()`.
#[derive(Clone)]
pub struct UnionFind<V> {
    data: Vec<UFNode<V>>,
    rep: Ghost<Seq<nat>>,
    rank: Ghost<Seq<nat>>,
    max_rank: Ghost<nat>,
}

impl<V: Copy> UnionFind<V> {
    /// The forest is consistent: every element links, with growing rank, to its
    /// representative, and representatives hold the class values.
    pub closed spec fn wf(&self) -> bool {
        let n = self.data.len();
        let rep = self.rep@;
        let rank = self.rank@;
        &&& rep.len() == n
        &&& rank.len() == n
        &&& forall|i: int| 0 <= i < n ==> #[trigger] rank[i] <= self.max_rank@
        &&& forall|i: int|
            0 <= i < n ==> {
                &&& #[trigger] rep[i] < n
                &&& self.data@[rep[i] as int] is UFNValue
                &&& rep[rep[i] as int] == rep[i]
            }
        &&& forall|i: int|
            0 <= i < n ==> match #[trigger] self.data@[i] {
                UFNode::UFKey(p) => {
                    &&& p < n
                    &&& rank[i] < rank[p as int]
                    &&& rep[p as int] == rep[i]
                    &&& rank[i] < rank[rep[i] as int]
                },
                UFNode::UFNValue(_) => rep[i] == i,
            }
    }

    /// How far element `x` may still be from its representative.
    pub closed spec fn find_measure(&self, x: int) -> int {
        self.max_rank@ - self.rank@[x]
    }

    /// The number of elements.
    pub closed spec fn spec_size(&self) -> nat {
        self.data@.len()
    }

    /// The representative of every element.
    pub closed spec fn reps(&self) -> Seq<nat> {
        self.rep@
    }

    /// The value of the class of element `i`.
    pub closed spec fn value_of(&self, i: int) -> V {
        self.data@[self.rep@[i] as int]->UFNValue_0
    }

    /// The values of the classes, indexed by element.
    pub open spec fn values(&self) -> Seq<V> {
        Seq::new(self.spec_size(), |i: int| self.value_of(i))
    }

    /// Representatives are the elements that represent themselves.
    pub proof fn lemma_rep_is_root(&self, i: int)
        requires
            self.wf(),
            0 <= i < self.spec_size(),
        ensures
            self.reps().len() == self.spec_size(),
            self.spec_size() <= usize::MAX,
            self.reps()[i] < self.spec_size(),
            self.reps()[self.reps()[i] as int] == self.reps()[i],
    {
    }

    /// Creates `n` singleton classes; element `k` starts with `V::init(k)`.
    pub fn new(n: usize) -> (r: UnionFind<V>)
        where
            V: UFValue,
        ensures
            r.wf(),
            r.spec_size() == n,
            r.reps() == Seq::new(n as nat, |i: int| i as nat),
            r.values() == Seq::new(n as nat, |i: int| V::spec_init(i as usize)),
    {
        let mut data: Vec<UFNode<V>> = Vec::new();
        let mut k: usize = 0;
        while k < n
            invariant
                k <= n,
                data.len() == k,
                forall|i: int| 0 <= i < k ==> #[trigger] data@[i] == UFNode::UFNValue(V::spec_init(i as usize)),
            decreases n - k,
        {
            data.push(UFNode::UFNValue(V::init(k)));
            k = k + 1;
        }
        let r = UnionFind {
            data: data,
            rep: Ghost(Seq::new(n as nat, |i: int| i as nat)),
            rank: Ghost(Seq::new(n as nat, |i: int| 0nat)),
            max_rank: Ghost(0nat),
        };
        assert(r.values() =~= Seq::new(n as nat, |i: int| V::spec_init(i as usize)));
        r
    }

    /// Creates one singleton class per value of `values`.
    pub fn from_values(values: Vec<V>) -> (r: UnionFind<V>)
        ensures
            r.wf(),
            r.spec_size() == values.len(),
            r.reps() == Seq::new(values.len() as nat, |i: int| i as nat),
            r.values() == values@,
    {
        let n = values.len();
        let mut data: Vec<UFNode<V>> = Vec::new();
        let mut k: usize = 0;
        while k < n
            invariant
                k <= n,
                n == values.len(),
                data.len() == k,
                forall|i: int| 0 <= i < k ==> #[trigger] data@[i] == UFNode::UFNValue(values@[i]),
            decreases n - k,
        {
            data.push(UFNode::UFNValue(values[k]));
            k = k + 1;
        }
        let r = UnionFind {
            data: data,
            rep: Ghost(Seq::new(n as nat, |i: int| i as nat)),
            rank: Ghost(Seq::new(n as nat, |i: int| 0nat)),
            max_rank: Ghost(0nat),
        };
        assert(r.values() =~= values@);
        r
    }

    /// The number of elements.
    pub fn size(&self) -> (r: usize)
        ensures
            r == self.spec_size(),
    {
        self.data.len()
    }

    /// The representative of `x`; compresses the path from `x` to it.
    pub fn find(&mut self, x: usize) -> (r: usize)
        requires
            old(self).wf(),
            x < old(self).spec_size(),
        ensures
            final(self).wf(),
            r == old(self).reps()[x as int],
            final(self).spec_size() == old(self).spec_size(),
            final(self).reps() == old(self).reps(),
            final(self).values() == old(self).values(),
    {
        self.find_rec(x)
    }

    fn find_rec(&mut self, x: usize) -> (r: usize)
        requires
            old(self).wf(),
            x < old(self).spec_size(),
        ensures
            final(self).wf(),
            r == old(self).reps()[x as int],
            final(self).spec_size() == old(self).spec_size(),
            final(self).reps() == old(self).reps(),
            final(self).values() == old(self).values(),
            final(self).rank@ == old(self).rank@,
            final(self).max_rank@ == old(self).max_rank@,
        decreases old(self).find_measure(x as int),
    {
        match self.data[x] {
            UFNode::UFNValue(_) => x,
            UFNode::UFKey(idx) => {
                let ghost before = *self;
                let root = self.find_rec(idx);
                let ghost mid = *self;
                proof {
                    assert(mid.data@[x as int] is UFKey) by {
                        assert(mid.rep@[x as int] != x);
                    }
                }
                self.data.set(x, UFNode::UFKey(root));
                proof {
                    let n = self.data@.len();
                    assert forall|i: int| 0 <= i < n implies match #[trigger] self.data@[i] {
                        UFNode::UFKey(p) => {
                            &&& p < n
                            &&& self.rank@[i] < self.rank@[p as int]
                            &&& self.rep@[p as int] == self.rep@[i]
                            &&& self.rank@[i] < self.rank@[self.rep@[i] as int]
                        },
                        UFNode::UFNValue(_) => self.rep@[i] == i,
                    } by {
                        if i != x as int {
                            assert(self.data@[i] == mid.data@[i]);
                        }
                    }
                    assert forall|i: int| 0 <= i < n implies {
                        &&& #[trigger] self.rep@[i] < n
                        &&& self.data@[self.rep@[i] as int] is UFNValue
                        &&& self.rep@[self.rep@[i] as int] == self.rep@[i]
                    } by {
                        assert(mid.rep@[i] < n);
                        assert(mid.data@[mid.rep@[i] as int] is UFNValue);
                    }
                    assert(self.values() =~= mid.values()) by {
                        assert forall|i: int| 0 <= i < self.spec_size() implies self.value_of(i)
                            == mid.value_of(i) by {
                            let ri = mid.rep@[i] as int;
                            assert(mid.data@[ri] is UFNValue);
                        }
                    }
                }
                root
            },
        }
    }

    /// Merges the classes of `x` and `y`; returns whether they were different.
    /// `V::union` decides the new value and which representative survives.
    pub fn union(&mut self, x: usize, y: usize) -> (r: bool)
        where
            V: UFValue,
        requires
            old(self).wf(),
            x < old(self).spec_size(),
            y < old(self).spec_size(),
        ensures
            final(self).wf(),
            final(self).spec_size() == old(self).spec_size(),
            r == (old(self).reps()[x as int] != old(self).reps()[y as int]),
            !r ==> final(self).reps() == old(self).reps() && final(self).values()
                == old(self).values(),
            r ==> union_result::<V>(
                old(self).reps(),
                old(self).values(),
                x as int,
                y as int,
                final(self).reps(),
                final(self).values(),
            ),
    {
        let ghost x0 = x as int;
        let ghost y0 = y as int;
        let x = self.find(x);
        let y = self.find(y);
        if x == y {
            return false;
        }
        let x_value = self.data[x].get_value();
        let y_value = self.data[y].get_value();
        proof {
            assert(self.values()[x0] == x_value);
            assert(self.values()[y0] == y_value);
        }
        let ghost mid = *self;
        match V::union(x_value, y_value) {
            Either::Left(new_x) => {
                self.link(y, x, new_x);
                proof {
                    assert(mid.reps()[x0] == x as nat);
                    assert(mid.reps()[y0] == y as nat);
                }
            },
            Either::Right(new_y) => {
                self.link(x, y, new_y);
                proof {
                    assert(mid.reps()[x0] == x as nat);
                    assert(mid.reps()[y0] == y as nat);
                }
            },
        }
        true
    }

    /// Merges the classes of `x` and `y` with the value `v`; `keep_x` tells whether the
    /// representative of `x` survives. Returns whether the classes were different.
    pub fn union_with(&mut self, x: usize, y: usize, keep_x: bool, v: V) -> (r: bool)
        requires
            old(self).wf(),
            x < old(self).spec_size(),
            y < old(self).spec_size(),
        ensures
            final(self).wf(),
            final(self).spec_size() == old(self).spec_size(),
            r == (old(self).reps()[x as int] != old(self).reps()[y as int]),
            !r ==> final(self).reps() == old(self).reps() && final(self).values()
                == old(self).values(),
            r && keep_x ==> merged(
                old(self).reps(),
                old(self).values(),
                old(self).reps()[y as int],
                old(self).reps()[x as int],
                v,
                final(self).reps(),
                final(self).values(),
            ),
            r && !keep_x ==> merged(
                old(self).reps(),
                old(self).values(),
                old(self).reps()[x as int],
                old(self).reps()[y as int],
                v,
                final(self).reps(),
                final(self).values(),
            ),
    {
        let x = self.find(x);
        let y = self.find(y);
        if x == y {
            return false;
        }
        if keep_x {
            self.link(y, x, v);
        } else {
            self.link(x, y, v);
        }
        true
    }

    /// Puts the class of representative `child` under representative `root` with value `v`.
    fn link(&mut self, child: usize, root: usize, v: V)
        requires
            old(self).wf(),
            child < old(self).spec_size(),
            root < old(self).spec_size(),
            child != root,
            old(self).reps()[child as int] == child,
            old(self).reps()[root as int] == root,
        ensures
            final(self).wf(),
            final(self).spec_size() == old(self).spec_size(),
            merged(
                old(self).reps(),
                old(self).values(),
                child as nat,
                root as nat,
                v,
                final(self).reps(),
                final(self).values(),
            ),
    {
        let ghost before = *self;
        let ghost n = self.data@.len();
        let ghost new_rank_root = if before.rank@[root as int] > before.rank@[child as int] {
            before.rank@[root as int]
        } else {
            before.rank@[child as int] + 1
        };
        self.data.set(root, UFNode::UFNValue(v));
        self.data.set(child, UFNode::UFKey(root));
        self.rep = Ghost(
            Seq::new(
                n,
                |i: int|
                    if before.rep@[i] == child as nat {
                        root as nat
                    } else {
                        before.rep@[i]
                    },
            ),
        );
        self.rank = Ghost(before.rank@.update(root as int, new_rank_root));
        self.max_rank = Ghost(
            if new_rank_root > before.max_rank@ {
                new_rank_root
            } else {
                before.max_rank@
            },
        );
        proof {
            assert forall|i: int| 0 <= i < n implies match #[trigger] self.data@[i] {
                UFNode::UFKey(p) => {
                    &&& p < n
                    &&& self.rank@[i] < self.rank@[p as int]
                    &&& self.rep@[p as int] == self.rep@[i]
                    &&& self.rank@[i] < self.rank@[self.rep@[i] as int]
                },
                UFNode::UFNValue(_) => self.rep@[i] == i,
            } by {
                if i != child as int && i != root as int {
                    match before.data@[i] {
                        UFNode::UFKey(p) => {
                            assert(before.rep@[p as int] == before.rep@[i]);
                            assert(before.rank@[i] < before.rank@[before.rep@[i] as int]);
                        },
                        UFNode::UFNValue(_) => {},
                    }
                }
            }
            assert forall|i: int| 0 <= i < n implies {
                &&& #[trigger] self.rep@[i] < n
                &&& self.data@[self.rep@[i] as int] is UFNValue
                &&& self.rep@[self.rep@[i] as int] == self.rep@[i]
            } by {
                assert(before.rep@[i] < n);
                assert(before.data@[before.rep@[i] as int] is UFNValue);
            }
            assert forall|i: int| 0 <= i < n implies #[trigger] self.rank@[i] <= self.max_rank@ by {
                assert(before.rank@[i] <= before.max_rank@);
            }
            assert(self.values() =~= Seq::new(
                n,
                |i: int|
                    if before.reps()[i] == child as nat || before.reps()[i] == root as nat {
                        v
                    } else {
                        before.values()[i]
                    },
            )) by {
                assert forall|i: int| 0 <= i < n implies self.value_of(i) == (if before.reps()[i]
                    == child as nat || before.reps()[i] == root as nat {
                    v
                } else {
                    before.values()[i]
                }) by {
                    assert(before.rep@[i] < n);
                }
            }
            assert(self.rep@ =~= Seq::new(
                n,
                |i: int|
                    if before.rep@[i] == child as nat {
                        root as nat
                    } else {
                        before.rep@[i]
                    },
            ));
        }
    }

    /// The value of the class of `x`.
    pub fn get_value(&mut self, x: usize) -> (r: V)
        requires
            old(self).wf(),
            x < old(self).spec_size(),
        ensures
            final(self).wf(),
            r == old(self).values()[x as int],
            final(self).spec_size() == old(self).spec_size(),
            final(self).reps() == old(self).reps(),
            final(self).values() == old(self).values(),
    {
        let key = self.find(x);
        proof {
            assert(self.data@[key as int] is UFNValue);
            assert(self.values()[x as int] == self.value_of(x as int));
        }
        self.data[key].get_value()
    }

    /// Replaces the value of the class of `x`.
    pub fn set_value(&mut self, x: usize, value: V)
        requires
            old(self).wf(),
            x < old(self).spec_size(),
        ensures
            final(self).wf(),
            final(self).spec_size() == old(self).spec_size(),
            final(self).reps() == old(self).reps(),
            final(self).values() == Seq::new(
                old(self).spec_size(),
                |i: int|
                    if old(self).reps()[i] == old(self).reps()[x as int] {
                        value
                    } else {
                        old(self).values()[i]
                    },
            ),
    {
        let key = self.find(x);
        let ghost before = *self;
        self.data.set(key, UFNode::UFNValue(value));
        proof {
            let n = self.data@.len();
            assert forall|i: int| 0 <= i < n implies match #[trigger] self.data@[i] {
                UFNode::UFKey(p) => {
                    &&& p < n
                    &&& self.rank@[i] < self.rank@[p as int]
                    &&& self.rep@[p as int] == self.rep@[i]
                    &&& self.rank@[i] < self.rank@[self.rep@[i] as int]
                },
                UFNode::UFNValue(_) => self.rep@[i] == i,
            } by {
                if i != key as int {
                    assert(self.data@[i] == before.data@[i]);
                }
            }
            assert forall|i: int| 0 <= i < n implies {
                &&& #[trigger] self.rep@[i] < n
                &&& self.data@[self.rep@[i] as int] is UFNValue
                &&& self.rep@[self.rep@[i] as int] == self.rep@[i]
            } by {
                assert(before.rep@[i] < n);
                assert(before.data@[before.rep@[i] as int] is UFNValue);
            }
            assert(self.values() =~= Seq::new(
                n,
                |i: int|
                    if before.reps()[i] == before.reps()[x as int] {
                        value
                    } else {
                        before.values()[i]
                    },
            ));
        }
    }
    /// A copy of the forest.
    pub fn duplicate(&self) -> (r: UnionFind<V>)
        ensures
            r.wf() == self.wf(),
            r.spec_size() == self.spec_size(),
            r.reps() == self.reps(),
            r.values() == self.values(),
    {
        let mut data: Vec<UFNode<V>> = Vec::new();
        let mut i: usize = 0;
        while i < self.data.len()
            invariant
                i <= self.data@.len(),
                data@ == self.data@.take(i as int),
            decreases self.data@.len() - i,
        {
            data.push(self.data[i]);
            i = i + 1;
            assert(data@ =~= self.data@.take(i as int));
        }
        assert(data@ =~= self.data@);
        let r = UnionFind { data: data, rep: Ghost(self.rep@), rank: Ghost(self.rank@), max_rank: Ghost(self.max_rank@) };
        assert(r.values() =~= self.values());
        r
    }

}

/// What `union` leaves behind when `x` and `y` were in different classes: the class of the
/// representative that `V::union` drops is merged into the other, which gets the new value.
pub open spec fn union_result<V: UFValue>(
    reps: Seq<nat>,
    values: Seq<V>,
    x: int,
    y: int,
    new_reps: Seq<nat>,
    new_values: Seq<V>,
) -> bool {
    let rx = reps[x];
    let ry = reps[y];
    match V::spec_union(values[x], values[y]) {
        Either::Left(v) => merged(reps, values, ry, rx, v, new_reps, new_values),
        Either::Right(v) => merged(reps, values, rx, ry, v, new_reps, new_values),
    }
}

/// The class of `child` is merged into the class of `root`, which gets value `v`.
pub open spec fn merged<V>(
    reps: Seq<nat>,
    values: Seq<V>,
    child: nat,
    root: nat,
    v: V,
    new_reps: Seq<nat>,
    new_values: Seq<V>,
) -> bool {
    &&& new_reps.len() == reps.len()
    &&& new_values.len() == values.len()
    &&& forall|i: int|
        0 <= i < reps.len() ==> #[trigger] new_reps[i] == if reps[i] == child {
            root
        } else {
            reps[i]
        }
    &&& forall|i: int|
        0 <= i < values.len() ==> #[trigger] new_values[i] == if reps[i] == child || reps[i]
            == root {
            v
        } else {
            values[i]
        }
}


/// The number of the first `k` elements whose representative is `r`.
pub open spec fn count_rep(reps: Seq<nat>, r: nat, k: int) -> nat
    decreases k,
{
    if k <= 0 {
        0
    } else {
        count_rep(reps, r, k - 1) + if reps[k - 1] == r {
            1nat
        } else {
            0nat
        }
    }
}

/// Every element holds the size of its class.
pub open spec fn sizes_ok(reps: Seq<nat>, values: Seq<usize>) -> bool {
    &&& values.len() == reps.len()
    &&& forall|i: int| 0 <= i < reps.len() ==> #[trigger] values[i] == count_rep(reps, reps[i], reps.len() as int)
}

/// Counting in the merged classes: the new class of `root` counts both old classes,
/// and every other class counts as before.
pub proof fn lemma_count_merged(reps: Seq<nat>, new_reps: Seq<nat>, child: nat, root: nat, r: nat, k: int)
    requires
        child != root,
        0 <= k <= reps.len(),
        new_reps.len() == reps.len(),
        forall|i: int| 0 <= i < reps.len() ==> #[trigger] new_reps[i] == if reps[i] == child {
            root
        } else {
            reps[i]
        },
    ensures
        r == root ==> count_rep(new_reps, r, k) == count_rep(reps, root, k) + count_rep(reps, child, k),
        r != root && r != child ==> count_rep(new_reps, r, k) == count_rep(reps, r, k),
    decreases k,
{
    if k > 0 {
        lemma_count_merged(reps, new_reps, child, root, r, k - 1);
        assert(new_reps[k - 1] == if reps[k - 1] == child { root } else { reps[k - 1] });
    }
}

/// Two different classes hold at most `k` of the first `k` elements between them.
pub proof fn lemma_count_two(reps: Seq<nat>, r1: nat, r2: nat, k: int)
    requires
        r1 != r2,
        0 <= k <= reps.len(),
    ensures
        count_rep(reps, r1, k) + count_rep(reps, r2, k) <= k,
    decreases k,
{
    if k > 0 {
        lemma_count_two(reps, r1, r2, k - 1);
    }
}

/// Among the first `k` elements of a fresh forest, each element below `k` is alone in its
/// class.
pub proof fn lemma_count_fresh(n: nat, r: nat, k: int)
    requires
        0 <= k <= n,
    ensures
        count_rep(Seq::new(n, |i: int| i as nat), r, k) == if r < k { 1nat } else { 0nat },
    decreases k,
{
    if k > 0 {
        lemma_count_fresh(n, r, k - 1);
    }
}

/// A fresh union-find of class sizes holds one, the size of every singleton class.
pub proof fn lemma_fresh_sizes(n: nat)
    ensures
        sizes_ok(Seq::new(n, |i: int| i as nat), Seq::new(n, |i: int| <usize as UFValue>::spec_init(i as usize))),
{
    let reps = Seq::new(n, |i: int| i as nat);
    let vals = Seq::new(n, |i: int| <usize as UFValue>::spec_init(i as usize));
    assert forall|i: int| 0 <= i < n implies #[trigger] vals[i] == count_rep(reps, reps[i], n as int) by {
        lemma_count_fresh(n, i as nat, n as int);
    }
}

/// Joining two classes of a union-find of class sizes, as `union` does, leaves every
/// element holding the size of its class: the merged class holds the sum of the two.
pub proof fn lemma_union_sizes(reps: Seq<nat>, values: Seq<usize>, x: int, y: int, new_reps: Seq<nat>, new_values: Seq<usize>)
    requires
        0 <= x < reps.len(),
        0 <= y < reps.len(),
        reps.len() <= usize::MAX,
        reps[x] != reps[y],
        sizes_ok(reps, values),
        union_result::<usize>(reps, values, x, y, new_reps, new_values),
    ensures
        sizes_ok(new_reps, new_values),
{
    let n = reps.len() as int;
    let rx = reps[x];
    let ry = reps[y];
    lemma_count_two(reps, rx, ry, n);
    assert(values[x] == count_rep(reps, rx, n));
    assert(values[y] == count_rep(reps, ry, n));
    assert(values[x].wrapping_add(values[y]) == values[x] + values[y]);
    let (child, root) = if values[x] > values[y] { (ry, rx) } else { (rx, ry) };
    assert(merged(reps, values, child, root, (values[x] + values[y]) as usize, new_reps, new_values));
    assert forall|i: int| 0 <= i < n implies #[trigger] new_values[i] == count_rep(new_reps, new_reps[i], n) by {
        lemma_count_merged(reps, new_reps, child, root, new_reps[i], n);
        if reps[i] != child && reps[i] != root {
            assert(values[i] == count_rep(reps, reps[i], n));
        }
    }
}

} // verus!
