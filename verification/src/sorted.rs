//! Sorted sequences without repeats, for values with a strict total order.
use vstd::prelude::*;

verus! {

/// Values with a strict total order that can be compared at run time.
pub trait Ordered: Copy + Sized {
    /// The strict order.
    spec fn spec_lt(self, other: Self) -> bool;

    /// The order is irreflexive, transitive and total.
    proof fn lemma_order(a: Self, b: Self, c: Self)
        ensures
            !a.spec_lt(a),
            a.spec_lt(b) && b.spec_lt(c) ==> a.spec_lt(c),
            a != b ==> a.spec_lt(b) || b.spec_lt(a),
    ;

    /// Whether `self` comes before `other`.
    fn lt(&self, other: &Self) -> (r: bool)
        ensures
            r == self.spec_lt(*other),
    ;

    /// Whether `self` and `other` are the same.
    fn equal(&self, other: &Self) -> (r: bool)
        ensures
            r == (*self == *other),
    ;
}

/// Every element comes before every later one: sorted, with no repeats.
pub open spec fn strictly_sorted<T: Ordered>(s: Seq<T>) -> bool {
    forall|i: int, j: int| 0 <= i < j < s.len() ==> (#[trigger] s[i]).spec_lt(#[trigger] s[j])
}

/// `r` holds the elements of `s` in order, each once.
pub open spec fn sorted_set_of<T: Ordered>(r: Seq<T>, s: Seq<T>) -> bool {
    &&& strictly_sorted(r)
    &&& forall|y: T| #[trigger] r.contains(y) <==> s.contains(y)
}

/// Inserts `x` at its place in a strictly sorted vector, unless it is there already.
pub fn insert_sorted<T: Ordered>(v: &mut Vec<T>, x: T)
    requires
        strictly_sorted(old(v)@),
    ensures
        strictly_sorted(final(v)@),
        forall|y: T| #[trigger] final(v)@.contains(y) <==> old(v)@.contains(y) || y == x,
{
    let n = v.len();
    let mut k: usize = 0;
    while k < n && v[k].lt(&x)
        invariant
            k <= n,
            n == v@.len(),
            forall|i: int| 0 <= i < k ==> (#[trigger] v@[i]).spec_lt(x),
        decreases n - k,
    {
        k = k + 1;
    }
    if k < n && v[k].equal(&x) {
        return;
    }
    let ghost old_v = v@;
    proof {
        if k < n {
            T::lemma_order(x, old_v[k as int], x);
            assert(x.spec_lt(old_v[k as int]));
        }
        assert forall|j: int| k <= j < n implies x.spec_lt(#[trigger] old_v[j]) by {
            if j > k {
                T::lemma_order(x, old_v[k as int], old_v[j]);
            }
        }
    }
    v.insert(k, x);
    proof {
        let nv = v@;
        assert forall|i: int, j: int| 0 <= i < j < nv.len() implies (#[trigger] nv[i]).spec_lt(#[trigger] nv[j]) by {
            if j < k {
                assert(nv[i] == old_v[i] && nv[j] == old_v[j]);
            } else if j == k {
                assert(nv[i] == old_v[i]);
            } else if i < k {
                assert(nv[i] == old_v[i] && nv[j] == old_v[j - 1]);
                T::lemma_order(old_v[i], x, old_v[j - 1]);
            } else if i == k {
                assert(nv[j] == old_v[j - 1]);
            } else {
                assert(nv[i] == old_v[i - 1] && nv[j] == old_v[j - 1]);
            }
        }
        assert forall|y: T| #[trigger] nv.contains(y) <==> old_v.contains(y) || y == x by {
            if nv.contains(y) {
                let i = choose|i: int| 0 <= i < nv.len() && nv[i] == y;
                if i < k {
                    assert(old_v[i] == y);
                } else if i > k {
                    assert(old_v[i - 1] == y);
                }
            }
            if old_v.contains(y) {
                let i = choose|i: int| 0 <= i < old_v.len() && old_v[i] == y;
                if i < k {
                    assert(nv[i] == y);
                } else {
                    assert(nv[i + 1] == y);
                }
            }
            if y == x {
                assert(nv[k as int] == x);
            }
        }
    }
}

/// The distinct values of `v` in increasing order.
pub fn sort_dedup<T: Ordered>(v: &Vec<T>) -> (r: Vec<T>)
    ensures
        strictly_sorted(r@),
        forall|y: T| #[trigger] r@.contains(y) <==> v@.contains(y),
{
    let mut out: Vec<T> = Vec::new();
    let mut i: usize = 0;
    while i < v.len()
        invariant
            i <= v.len(),
            strictly_sorted(out@),
            forall|y: T| #[trigger] out@.contains(y) <==> v@.take(i as int).contains(y),
        decreases v.len() - i,
    {
        let x = v[i];
        insert_sorted(&mut out, x);
        proof {
            let before = v@.take(i as int);
            let after = v@.take(i as int + 1);
            assert(after =~= before.push(x));
            assert forall|y: T| #[trigger] after.contains(y) <==> before.contains(y) || y == x by {
                if after.contains(y) {
                    let j = choose|j: int| 0 <= j < after.len() && after[j] == y;
                    if j < i {
                        assert(before[j] == y);
                    }
                }
                if before.contains(y) {
                    let j = choose|j: int| 0 <= j < before.len() && before[j] == y;
                    assert(after[j] == y);
                }
                if y == x {
                    assert(after[i as int] == x);
                }
            }
        }
        i = i + 1;
    }
    assert(v@.take(v.len() as int) =~= v@);
    out
}

/// Two strictly sorted sequences with the same elements are equal.
pub proof fn lemma_sorted_unique<T: Ordered>(a: Seq<T>, b: Seq<T>)
    requires
        strictly_sorted(a),
        strictly_sorted(b),
        forall|y: T| #[trigger] a.contains(y) <==> b.contains(y),
    ensures
        a == b,
    decreases a.len(),
{
    if a.len() == 0 {
        assert(b.len() == 0) by {
            if b.len() > 0 {
                assert(b.contains(b[0]));
                assert(a.contains(b[0]));
            }
        }
        assert(a =~= b);
    } else {
        assert(a.contains(a[0]));
        assert(b.len() > 0);
        assert(b.contains(b[0]));
        assert(a.contains(b[0]));
        let i = choose|i: int| 0 <= i < b.len() && b[i] == a[0];
        let j = choose|j: int| 0 <= j < a.len() && a[j] == b[0];
        if i != 0 && j != 0 {
            assert(b[0].spec_lt(b[i]));
            assert(a[0].spec_lt(a[j]));
            T::lemma_order(a[0], b[0], a[0]);
            assert(false);
        }
        assert(a[0] == b[0]);
        let a1 = a.drop_first();
        let b1 = b.drop_first();
        assert forall|y: T| #[trigger] a1.contains(y) <==> b1.contains(y) by {
            if a1.contains(y) {
                let k = choose|k: int| 0 <= k < a1.len() && a1[k] == y;
                assert(a[k + 1] == y);
                assert(a.contains(y));
                let m = choose|m: int| 0 <= m < b.len() && b[m] == y;
                T::lemma_order(a[0], a[k + 1], a[0]);
                assert(m != 0);
                assert(b1[m - 1] == y);
            }
            if b1.contains(y) {
                let k = choose|k: int| 0 <= k < b1.len() && b1[k] == y;
                assert(b[k + 1] == y);
                assert(b.contains(y));
                assert(a.contains(y));
                let m = choose|m: int| 0 <= m < a.len() && a[m] == y;
                T::lemma_order(b[0], b[k + 1], b[0]);
                assert(m != 0);
                assert(a1[m - 1] == y);
            }
        }
        lemma_sorted_unique(a1, b1);
        assert(a =~= seq![a[0]] + a1);
        assert(b =~= seq![b[0]] + b1);
    }
}

/// Lexicographic order on sequences: the first difference decides, and a proper prefix
/// comes first.
pub open spec fn seq_lt<T: Ordered>(a: Seq<T>, b: Seq<T>) -> bool
    decreases a.len(),
{
    if a.len() == 0 {
        b.len() > 0
    } else if b.len() == 0 {
        false
    } else if a[0].spec_lt(b[0]) {
        true
    } else if a[0] == b[0] {
        seq_lt(a.drop_first(), b.drop_first())
    } else {
        false
    }
}

/// The lexicographic order is irreflexive, transitive and total.
pub proof fn lemma_seq_lt_order<T: Ordered>(a: Seq<T>, b: Seq<T>, c: Seq<T>)
    ensures
        !seq_lt(a, a),
        seq_lt(a, b) && seq_lt(b, c) ==> seq_lt(a, c),
        a != b ==> seq_lt(a, b) || seq_lt(b, a),
    decreases a.len(),
{
    if a.len() > 0 {
        T::lemma_order(a[0], a[0], a[0]);
        lemma_seq_lt_order(a.drop_first(), a.drop_first(), a.drop_first());
        if b.len() > 0 {
            T::lemma_order(a[0], b[0], a[0]);
            if c.len() > 0 {
                T::lemma_order(a[0], b[0], c[0]);
                lemma_seq_lt_order(a.drop_first(), b.drop_first(), c.drop_first());
            } else {
                lemma_seq_lt_order(a.drop_first(), b.drop_first(), b.drop_first());
            }
            if a != b && a[0] == b[0] {
                assert(a.drop_first() != b.drop_first()) by {
                    if a.drop_first() == b.drop_first() {
                        assert(a =~= seq![a[0]] + a.drop_first());
                        assert(b =~= seq![b[0]] + b.drop_first());
                    }
                }
            }
        }
    } else if b.len() == 0 {
        assert(a =~= b);
    }
}

/// Whether `a` comes before `b` in the lexicographic order.
pub fn seq_less<T: Ordered>(a: &Vec<T>, b: &Vec<T>) -> (r: bool)
    ensures
        r == seq_lt(a@, b@),
{
    let mut i: usize = 0;
    assert(a@.skip(0) =~= a@);
    assert(b@.skip(0) =~= b@);
    while i < a.len() && i < b.len()
        invariant
            i <= a.len(),
            i <= b.len(),
            forall|j: int| 0 <= j < i ==> a@[j] == b@[j],
            seq_lt(a@, b@) == seq_lt(a@.skip(i as int), b@.skip(i as int)),
        decreases a.len() - i,
    {
        if a[i].lt(&b[i]) {
            proof {
                assert(a@.skip(i as int)[0] == a@[i as int]);
                assert(b@.skip(i as int)[0] == b@[i as int]);
            }
            return true;
        }
        if !a[i].equal(&b[i]) {
            proof {
                assert(a@.skip(i as int)[0] == a@[i as int]);
                assert(b@.skip(i as int)[0] == b@[i as int]);
            }
            return false;
        }
        proof {
            assert(a@.skip(i as int).drop_first() =~= a@.skip(i as int + 1));
            assert(b@.skip(i as int).drop_first() =~= b@.skip(i as int + 1));
        }
        i = i + 1;
    }
    i == a.len() && i < b.len()
}

/// Whether the two sequences are the same.
pub fn seq_same<T: Ordered>(a: &Vec<T>, b: &Vec<T>) -> (r: bool)
    ensures
        r == (a@ == b@),
{
    if a.len() != b.len() {
        return false;
    }
    let mut i: usize = 0;
    while i < a.len()
        invariant
            i <= a.len(),
            a.len() == b.len(),
            forall|j: int| 0 <= j < i ==> a@[j] == b@[j],
        decreases a.len() - i,
    {
        if !a[i].equal(&b[i]) {
            return false;
        }
        i = i + 1;
    }
    assert(a@ =~= b@);
    true
}

} // verus!
