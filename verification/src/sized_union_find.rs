//! A union-find that keeps the size of every class and merges the smaller class into the
//! larger one.
use vstd::prelude::*;

use crate::union_find::{merged, UnionFind as Forest};

verus! {

/// Values that can be combined when their classes merge.
pub trait Union: Sized {
    /// The combination of two values.
    spec fn spec_union(self, other: Self) -> Self;

    /// Combines two values.
    fn union(&self, other: &Self) -> (r: Self)
        ensures
            r == self.spec_union(*other),
    ;
}

/// Classes that carry no value.
impl Union for () {
    open spec fn spec_union(self, other: ()) -> () {
        ()
    }

    fn union(&self, _other: &()) -> (r: ()) {
        ()
    }
}

/// The value of a class together with the number of its elements.
#[derive(Clone, Copy, Debug)]
pub struct SizedValue<T> {
    /// The value of the class.
    pub value: T,
    /// The number of elements of the class.
    pub size: usize,
}

/// The number of elements of `reps` equal to `r`.
pub open spec fn count_class(reps: Seq<nat>, r: nat) -> nat
    decreases reps.len(),
{
    if reps.len() == 0 {
        0
    } else {
        count_class(reps.drop_last(), r) + if reps.last() == r {
            1nat
        } else {
            0nat
        }
    }
}

/// A class never has more elements than there are.
pub proof fn lemma_count_le_len(reps: Seq<nat>, r: nat)
    ensures
        count_class(reps, r) <= reps.len(),
    decreases reps.len(),
{
    if reps.len() > 0 {
        lemma_count_le_len(reps.drop_last(), r);
    }
}

/// In the identity mapping every element is alone in its class.
pub proof fn lemma_count_identity(n: nat, r: nat)
    requires
        r < n,
    ensures
        count_class(Seq::new(n, |i: int| i as nat), r) == 1,
    decreases n,
{
    let s = Seq::new(n, |i: int| i as nat);
    assert(s.drop_last() =~= Seq::new((n - 1) as nat, |i: int| i as nat));
    if r == n - 1 {
        lemma_count_absent(Seq::new((n - 1) as nat, |i: int| i as nat), r);
    } else {
        lemma_count_identity((n - 1) as nat, r);
    }
}

/// A value that does not occur is counted zero times.
pub proof fn lemma_count_absent(reps: Seq<nat>, r: nat)
    requires
        forall|i: int| 0 <= i < reps.len() ==> reps[i] != r,
    ensures
        count_class(reps, r) == 0,
    decreases reps.len(),
{
    if reps.len() > 0 {
        lemma_count_absent(reps.drop_last(), r);
    }
}

/// Redirecting class `child` to `root` adds the counts of the two classes and leaves the
/// others alone.
pub proof fn lemma_count_redirect(reps: Seq<nat>, new_reps: Seq<nat>, child: nat, root: nat, q: nat)
    requires
        child != root,
        new_reps.len() == reps.len(),
        forall|i: int|
            0 <= i < reps.len() ==> #[trigger] new_reps[i] == if reps[i] == child {
                root
            } else {
                reps[i]
            },
    ensures
        q == root ==> count_class(new_reps, q) == count_class(reps, root) + count_class(reps, child),
        q == child ==> count_class(new_reps, q) == 0,
        q != root && q != child ==> count_class(new_reps, q) == count_class(reps, q),
    decreases reps.len(),
{
    if reps.len() > 0 {
        let a = reps.drop_last();
        let b = new_reps.drop_last();
        assert forall|i: int| 0 <= i < a.len() implies #[trigger] b[i] == if a[i] == child {
            root
        } else {
            a[i]
        } by {
            assert(b[i] == new_reps[i]);
        }
        lemma_count_redirect(a, b, child, root, q);
        assert(new_reps.last() == new_reps[reps.len() - 1]);
    }
}

/// The number of representatives: elements that represent themselves.
pub open spec fn count_roots(reps: Seq<nat>) -> nat
    decreases reps.len(),
{
    if reps.len() == 0 {
        0
    } else {
        count_roots(reps.drop_last()) + if reps.last() == (reps.len() - 1) as nat {
            1nat
        } else {
            0nat
        }
    }
}

/// There are no more representatives than elements.
pub proof fn lemma_count_roots_le_len(reps: Seq<nat>)
    ensures
        count_roots(reps) <= reps.len(),
    decreases reps.len(),
{
    if reps.len() > 0 {
        lemma_count_roots_le_len(reps.drop_last());
    }
}

/// In the identity mapping every element is a representative.
pub proof fn lemma_count_roots_identity(n: nat)
    ensures
        count_roots(Seq::new(n, |i: int| i as nat)) == n,
    decreases n,
{
    if n > 0 {
        assert(Seq::new(n, |i: int| i as nat).drop_last() =~= Seq::new((n - 1) as nat, |i: int| i as nat));
        lemma_count_roots_identity((n - 1) as nat);
    }
}

/// Redirecting the representative `child` to the representative `root` loses exactly one
/// representative.
pub proof fn lemma_count_roots_redirect(reps: Seq<nat>, new_reps: Seq<nat>, child: nat, root: nat)
    requires
        child != root,
        child < reps.len(),
        root < reps.len(),
        reps[child as int] == child,
        reps[root as int] == root,
        new_reps.len() == reps.len(),
        forall|i: int|
            0 <= i < reps.len() ==> #[trigger] new_reps[i] == if reps[i] == child {
                root
            } else {
                reps[i]
            },
    ensures
        count_roots(new_reps) + 1 == count_roots(reps),
    decreases reps.len(),
{
    let n = reps.len();
    let a = reps.drop_last();
    let b = new_reps.drop_last();
    assert forall|i: int| 0 <= i < a.len() implies #[trigger] b[i] == if a[i] == child {
        root
    } else {
        a[i]
    } by {
        assert(b[i] == new_reps[i]);
    }
    assert(new_reps.last() == new_reps[n - 1]);
    if child == n - 1 {
        lemma_count_roots_same(a, b, child);
    } else if root == n - 1 {
        lemma_count_roots_lose(a, b, child, root);
    } else {
        lemma_count_roots_redirect(a, b, child, root);
    }
}

/// Without `child` among the elements, redirecting it changes no representative.
proof fn lemma_count_roots_same(reps: Seq<nat>, new_reps: Seq<nat>, child: nat)
    requires
        child >= reps.len(),
        new_reps.len() == reps.len(),
        forall|i: int|
            0 <= i < reps.len() ==> reps[i] != child ==> #[trigger] new_reps[i] == reps[i],
        forall|i: int| 0 <= i < reps.len() ==> reps[i] == child ==> #[trigger] new_reps[i] != i,
    ensures
        count_roots(new_reps) == count_roots(reps),
    decreases reps.len(),
{
    if reps.len() > 0 {
        let a = reps.drop_last();
        let b = new_reps.drop_last();
        assert forall|i: int| 0 <= i < a.len() && a[i] != child implies #[trigger] b[i] == a[i] by {
            assert(b[i] == new_reps[i]);
        }
        assert forall|i: int| 0 <= i < a.len() && a[i] == child implies #[trigger] b[i] != i by {
            assert(b[i] == new_reps[i]);
        }
        assert(new_reps.last() == new_reps[reps.len() - 1]);
        lemma_count_roots_same(a, b, child);
    }
}

/// With `child` among the elements but `root` not, redirecting loses exactly one
/// representative.
proof fn lemma_count_roots_lose(reps: Seq<nat>, new_reps: Seq<nat>, child: nat, root: nat)
    requires
        child < reps.len(),
        root >= reps.len(),
        reps[child as int] == child,
        new_reps.len() == reps.len(),
        forall|i: int|
            0 <= i < reps.len() ==> #[trigger] new_reps[i] == if reps[i] == child {
                root
            } else {
                reps[i]
            },
    ensures
        count_roots(new_reps) + 1 == count_roots(reps),
    decreases reps.len(),
{
    let n = reps.len();
    let a = reps.drop_last();
    let b = new_reps.drop_last();
    assert forall|i: int| 0 <= i < a.len() implies #[trigger] b[i] == if a[i] == child {
        root
    } else {
        a[i]
    } by {
        assert(b[i] == new_reps[i]);
    }
    assert(new_reps.last() == new_reps[n - 1]);
    if child == n - 1 {
        lemma_count_roots_same(a, b, child);
    } else {
        lemma_count_roots_lose(a, b, child, root);
    }
}

/// `new_reps` is `reps` with the classes of `x` and `y` joined: two elements are together
/// afterwards exactly when they were before, or one was with `x` and the other with `y`.
pub open spec fn joined(reps: Seq<nat>, x: int, y: int, new_reps: Seq<nat>) -> bool {
    &&& new_reps.len() == reps.len()
    &&& forall|i: int, j: int|
        0 <= i < reps.len() && 0 <= j < reps.len() ==> (#[trigger] new_reps[i] == #[trigger] new_reps[j] <==> (
        reps[i] == reps[j] || (reps[i] == reps[x] && reps[j] == reps[y]) || (reps[i] == reps[y]
            && reps[j] == reps[x])))
}

/// A union-find over `0 .. get_total_size()` whose classes keep their size.
#[derive(Clone)]
pub struct UnionFind<T> {
    forest: Forest<SizedValue<T>>,
}

impl<T: Union + Copy> UnionFind<T> {
    /// The forest is consistent and every class records its number of elements.
    pub closed spec fn wf(&self) -> bool {
        &&& self.forest.wf()
        &&& forall|i: int|
            0 <= i < self.forest.spec_size() ==> (#[trigger] self.forest.values()[i]).size
                == count_class(self.forest.reps(), self.forest.reps()[i])
    }

    /// The number of elements.
    pub closed spec fn spec_size(&self) -> nat {
        self.forest.spec_size()
    }

    /// The representative of every element.
    pub closed spec fn reps(&self) -> Seq<nat> {
        self.forest.reps()
    }

    /// The value of the class of every element.
    pub closed spec fn values(&self) -> Seq<T> {
        Seq::new(self.forest.spec_size(), |i: int| self.forest.values()[i].value)
    }

    /// Whether `i` and `j` belong to the same class.
    pub open spec fn same(&self, i: int, j: int) -> bool {
        self.reps()[i] == self.reps()[j]
    }

    /// The number of elements in the class of `i`.
    pub open spec fn class_size(&self, i: int) -> nat {
        count_class(self.reps(), self.reps()[i])
    }

    /// Facts about a consistent union-find: there is one representative per element,
    /// representatives represent themselves and classes are no larger than the whole.
    pub proof fn lemma_wf(&self, i: int)
        requires
            self.wf(),
            0 <= i < self.spec_size(),
        ensures
            self.reps().len() == self.spec_size(),
            self.reps()[i] < self.spec_size(),
            self.reps()[self.reps()[i] as int] == self.reps()[i],
            self.class_size(i) <= self.spec_size(),
            self.spec_size() <= usize::MAX,
    {
        self.forest.lemma_rep_is_root(i);
        lemma_count_le_len(self.reps(), self.reps()[i]);
    }

    /// One singleton class per value of `data`.
    pub fn new(data: Vec<T>) -> (r: UnionFind<T>)
        ensures
            r.wf(),
            r.spec_size() == data.len(),
            r.reps() == Seq::new(data.len() as nat, |i: int| i as nat),
            r.values() == data@,
    {
        let n = data.len();
        let mut vals: Vec<SizedValue<T>> = Vec::new();
        let mut k: usize = 0;
        while k < n
            invariant
                k <= n,
                n == data.len(),
                vals.len() == k,
                forall|i: int| 0 <= i < k ==> #[trigger] vals@[i] == (SizedValue { value: data@[i], size: 1 }),
            decreases n - k,
        {
            vals.push(SizedValue { value: data[k], size: 1 });
            k = k + 1;
        }
        let forest = Forest::from_values(vals);
        let r = UnionFind { forest: forest };
        proof {
            assert forall|i: int| 0 <= i < r.forest.spec_size() implies (#[trigger] r.forest.values()[i]).size
                == count_class(r.forest.reps(), r.forest.reps()[i]) by {
                lemma_count_identity(n as nat, i as nat);
            }
            assert(r.values() =~= data@);
        }
        r
    }

    /// `size` singleton classes that all carry `init`.
    pub fn from_elem(size: usize, init: T) -> (r: UnionFind<T>)
        ensures
            r.wf(),
            r.spec_size() == size,
            r.reps() == Seq::new(size as nat, |i: int| i as nat),
            r.values() == Seq::new(size as nat, |_i: int| init),
    {
        let mut data: Vec<T> = Vec::new();
        let mut k: usize = 0;
        while k < size
            invariant
                k <= size,
                data@ == Seq::new(k as nat, |_i: int| init),
            decreases size - k,
        {
            data.push(init);
            k = k + 1;
            assert(data@ =~= Seq::new(k as nat, |_i: int| init));
        }
        UnionFind::new(data)
    }

    /// The number of elements.
    pub fn get_total_size(&self) -> (r: usize)
        ensures
            r == self.spec_size(),
    {
        self.forest.size()
    }

    /// The number of elements in the class of `key`.
    pub fn get_size(&mut self, key: usize) -> (r: usize)
        requires
            old(self).wf(),
            key < old(self).spec_size(),
        ensures
            final(self).wf(),
            r == old(self).class_size(key as int),
            final(self).spec_size() == old(self).spec_size(),
            final(self).reps() == old(self).reps(),
            final(self).values() == old(self).values(),
    {
        let v = self.forest.get_value(key);
        proof {
            assert(self.values() =~= old(self).values());
        }
        v.size
    }

    /// Merges the classes of `key1` and `key2`; the larger class (the first on a tie)
    /// keeps its representative. Returns whether the classes were different.
    pub fn union(&mut self, key1: usize, key2: usize) -> (r: bool)
        requires
            old(self).wf(),
            key1 < old(self).spec_size(),
            key2 < old(self).spec_size(),
        ensures
            final(self).wf(),
            final(self).spec_size() == old(self).spec_size(),
            r == !old(self).same(key1 as int, key2 as int),
            !r ==> final(self).reps() == old(self).reps() && final(self).values() == old(self).values(),
            r ==> sized_union_result(old(self).reps(), old(self).values(), key1 as int, key2 as int, final(self).reps(), final(self).values()),
            joined(old(self).reps(), key1 as int, key2 as int, final(self).reps()),
            r ==> count_roots(final(self).reps()) + 1 == count_roots(old(self).reps()),
    {
        let ghost before = *self;
        let v1 = self.forest.get_value(key1);
        let v2 = self.forest.get_value(key2);
        proof {
            self.forest.lemma_rep_is_root(key1 as int);
            self.forest.lemma_rep_is_root(key2 as int);
        }
        let ghost r1 = self.forest.reps()[key1 as int];
        let ghost r2 = self.forest.reps()[key2 as int];
        if self.find(key1, key2) {
            proof {
                assert(self.values() =~= before.values());
                self.forest.lemma_rep_is_root(0);
            }
            return false;
        }
        proof {
            lemma_count_le_len(self.forest.reps(), r1);
            lemma_count_le_len(self.forest.reps(), r2);
            assert(v1.size == count_class(self.forest.reps(), r1));
            assert(v2.size == count_class(self.forest.reps(), r2));
            lemma_count_split(self.forest.reps(), r1, r2);
        }
        let keep_first = v1.size >= v2.size;
        let ghost mid = self.forest;
        let merged_value = if keep_first {
            SizedValue { value: v1.value.union(&v2.value), size: v1.size + v2.size }
        } else {
            SizedValue { value: v2.value.union(&v1.value), size: v1.size + v2.size }
        };
        self.forest.union_with(key1, key2, keep_first, merged_value);
        proof {
            let (child, root) = if keep_first { (r2, r1) } else { (r1, r2) };
            let n = self.forest.spec_size();
            assert forall|i: int| 0 <= i < n implies (#[trigger] self.forest.values()[i]).size
                == count_class(self.forest.reps(), self.forest.reps()[i]) by {
                mid.lemma_rep_is_root(i);
                lemma_count_redirect(mid.reps(), self.forest.reps(), child, root, self.forest.reps()[i]);
                lemma_count_redirect(mid.reps(), self.forest.reps(), child, root, mid.reps()[i]);
            }
            assert forall|i: int| 0 <= i < n implies #[trigger] self.values()[i] == if before.reps()[i] == r1 || before.reps()[i] == r2 {
                merged_value.value
            } else {
                before.values()[i]
            } by {}
            mid.lemma_rep_is_root(key1 as int);
            mid.lemma_rep_is_root(key2 as int);
            lemma_count_roots_redirect(mid.reps(), self.forest.reps(), child, root);
            assert forall|i: int, j: int|
                0 <= i < n && 0 <= j < n implies (#[trigger] self.forest.reps()[i] == #[trigger] self.forest.reps()[j] <==> (
                mid.reps()[i] == mid.reps()[j] || (mid.reps()[i] == r1 && mid.reps()[j] == r2) || (mid.reps()[i] == r2
                    && mid.reps()[j] == r1))) by {
                mid.lemma_rep_is_root(i);
                mid.lemma_rep_is_root(j);
            }
        }
        true
    }

    /// Whether `key1` and `key2` are in the same class.
    pub fn find(&mut self, key1: usize, key2: usize) -> (r: bool)
        requires
            old(self).wf(),
            key1 < old(self).spec_size(),
            key2 < old(self).spec_size(),
        ensures
            final(self).wf(),
            r == old(self).same(key1 as int, key2 as int),
            final(self).spec_size() == old(self).spec_size(),
            final(self).reps() == old(self).reps(),
            final(self).values() == old(self).values(),
    {
        let key1 = self.find_root_key(key1);
        let key2 = self.find_root_key(key2);
        key1 == key2
    }

    pub fn find_root_key(&mut self, key: usize) -> (r: usize)
        requires
            old(self).wf(),
            key < old(self).spec_size(),
        ensures
            final(self).wf(),
            r == old(self).reps()[key as int],
            final(self).spec_size() == old(self).spec_size(),
            final(self).reps() == old(self).reps(),
            final(self).values() == old(self).values(),
    {
        let r = self.forest.find(key);
        proof {
            assert(self.values() =~= old(self).values());
        }
        r
    }
    /// A copy of the union-find.
    pub fn duplicate(&self) -> (r: UnionFind<T>)
        ensures
            r.wf() == self.wf(),
            r.spec_size() == self.spec_size(),
            r.reps() == self.reps(),
            r.values() == self.values(),
    {
        let r = UnionFind { forest: self.forest.duplicate() };
        assert(r.values() =~= self.values());
        r
    }

}

/// Two different classes together are no larger than the whole.
pub proof fn lemma_count_split(reps: Seq<nat>, a: nat, b: nat)
    requires
        a != b,
    ensures
        count_class(reps, a) + count_class(reps, b) <= reps.len(),
    decreases reps.len(),
{
    if reps.len() > 0 {
        lemma_count_split(reps.drop_last(), a, b);
    }
}

/// What `union` leaves behind when `x` and `y` were in different classes: the smaller class
/// (the one of `y` on a tie) joins the larger, and the merged class carries the larger
/// class value combined with the smaller one.
pub open spec fn sized_union_result<T: Union + Copy>(
    reps: Seq<nat>,
    values: Seq<T>,
    x: int,
    y: int,
    new_reps: Seq<nat>,
    new_values: Seq<T>,
) -> bool {
    let rx = reps[x];
    let ry = reps[y];
    if count_class(reps, rx) >= count_class(reps, ry) {
        merged(reps, values, ry, rx, values[x].spec_union(values[y]), new_reps, new_values)
    } else {
        merged(reps, values, rx, ry, values[y].spec_union(values[x]), new_reps, new_values)
    }
}

} // verus!
