//! Text helpers: characters of strings, lines of text and building strings.
use vstd::prelude::*;

verus! {

/// The characters of `s`.
pub fn str_chars(s: &str) -> (r: Vec<char>)
    ensures
        r@ == s@,
{
    let mut v: Vec<char> = Vec::new();
    for c in it: s.chars()
        invariant
            v@ == it.seq().take(it.index() as int),
    {
        v.push(c);
    }
    v
}

/// Appends `c` to `s` (`String::push`).
#[verifier::external_body]
fn push_char(s: &mut String, c: char)
    ensures
        final(s)@ == old(s)@.push(c),
{
    s.push(c);
}

/// The string made of the characters of `v`.
pub fn string_from_chars(v: &Vec<char>) -> (r: String)
    ensures
        r@ == v@,
{
    let mut s = String::new();
    let mut i: usize = 0;
    while i < v.len()
        invariant
            i <= v.len(),
            s@ == v@.take(i as int),
        decreases v.len() - i,
    {
        push_char(&mut s, v[i]);
        i = i + 1;
        assert(s@ =~= v@.take(i as int));
    }
    assert(v@.take(v.len() as int) =~= v@);
    s
}

/// The position of the first line feed in `t` at or after `from`, or `t.len()` if none.
pub open spec fn next_newline(t: Seq<char>, from: int) -> int
    decreases t.len() - from,
{
    if from >= t.len() {
        t.len() as int
    } else if t[from] == '\n' {
        from
    } else {
        next_newline(t, from + 1)
    }
}

/// A line without its final carriage return, if it has one.
pub open spec fn strip_cr(l: Seq<char>) -> Seq<char> {
    if l.len() > 0 && l.last() == '\r' {
        l.drop_last()
    } else {
        l
    }
}

/// The lines of `t`, as `str::lines` gives them: split at each line feed, a carriage
/// return before a line feed dropped, and no empty line after a final line feed.
pub open spec fn lines_of(t: Seq<char>) -> Seq<Seq<char>>
    decreases t.len(),
{
    if t.len() == 0 {
        Seq::empty()
    } else {
        let k = next_newline(t, 0);
        proof {
            lemma_next_newline_range(t, 0);
        }
        if k >= t.len() {
            seq![t]
        } else {
            seq![strip_cr(t.subrange(0, k))] + lines_of(t.subrange(k + 1, t.len() as int))
        }
    }
}

/// The first line feed at or after `from` lies between `from` and the end.
pub proof fn lemma_next_newline_range(t: Seq<char>, from: int)
    requires
        0 <= from,
    ensures
        from <= t.len() ==> from <= next_newline(t, from) <= t.len(),
        from > t.len() ==> next_newline(t, from) == t.len(),
    decreases t.len() - from,
{
    if from < t.len() && t[from] != '\n' {
        lemma_next_newline_range(t, from + 1);
    }
}

/// The first line feed at or after `from` is at `k` when there is none before `k`.
proof fn lemma_next_newline(t: Seq<char>, from: int, k: int)
    requires
        0 <= from <= k <= t.len(),
        forall|j: int| from <= j < k ==> t[j] != '\n',
        k == t.len() || t[k] == '\n',
    ensures
        next_newline(t, from) == k,
    decreases k - from,
{
    if from < k {
        lemma_next_newline(t, from + 1, k);
    }
}

/// Splits `s` into lines the way `str::lines` does; each line is a vector of characters.
pub fn split_lines(s: &Vec<char>) -> (r: Vec<Vec<char>>)
    ensures
        r@.len() == lines_of(s@).len(),
        forall|i: int| 0 <= i < r@.len() ==> #[trigger] r@[i]@ == lines_of(s@)[i],
{
    let mut out: Vec<Vec<char>> = Vec::new();
    let mut cur: Vec<char> = Vec::new();
    let ghost mut start: int = 0;
    let mut i: usize = 0;
    proof {
        assert(s@.subrange(0, s@.len() as int) =~= s@);
        assert(Seq::new(out@.len(), |k: int| out@[k]@) =~= Seq::<Seq<char>>::empty());
    }
    while i < s.len()
        invariant
            0 <= start <= i <= s.len(),
            cur@ == s@.subrange(start, i as int),
            forall|j: int| start <= j < i ==> s@[j] != '\n',
            lines_of(s@) == Seq::new(out@.len(), |k: int| out@[k]@) + lines_of(s@.subrange(start, s@.len() as int)),
        decreases s.len() - i,
    {
        let c = s[i];
        if c == '\n' {
            let ghost t = s@.subrange(start, s@.len() as int);
            proof {
                assert forall|j: int| 0 <= j < i - start implies t[j] != '\n' by {
                    assert(t[j] == s@[start + j]);
                }
                lemma_next_newline(t, 0, i - start);
                assert(t.subrange(0, i - start) =~= cur@);
                assert(t.subrange(i - start + 1, t.len() as int) =~= s@.subrange(i + 1, s@.len() as int));
            }
            let mut line = cur;
            if line.len() > 0 && line[line.len() - 1] == '\r' {
                line.pop();
            }
            let ghost before = out@;
            out.push(line);
            proof {
                assert(Seq::new(out@.len(), |k: int| out@[k]@) =~= Seq::new(before.len(), |k: int| before[k]@).push(strip_cr(cur@)));
                start = i + 1;
            }
            cur = Vec::new();
        } else {
            cur.push(c);
        }
        i = i + 1;
        proof {
            assert(cur@ =~= s@.subrange(start, i as int));
        }
    }
    let ghost t = s@.subrange(start, s@.len() as int);
    if cur.len() > 0 {
        proof {
            assert forall|j: int| 0 <= j < t.len() implies t[j] != '\n' by {
                assert(t[j] == s@[start + j]);
            }
            lemma_next_newline(t, 0, t.len() as int);
            assert(t =~= cur@);
        }
        let ghost before = out@;
        out.push(cur);
        proof {
            assert(Seq::new(out@.len(), |k: int| out@[k]@) =~= Seq::new(before.len(), |k: int| before[k]@).push(t));
        }
    } else {
        proof {
            assert(t.len() == 0);
        }
    }
    proof {
        assert(lines_of(s@) =~= Seq::new(out@.len(), |k: int| out@[k]@));
        assert forall|i: int| 0 <= i < out@.len() implies #[trigger] out@[i]@ == lines_of(s@)[i] by {
            assert(Seq::new(out@.len(), |k: int| out@[k]@)[i] == out@[i]@);
        }
    }
    out
}

/// `s` without its leading elements that satisfy `p`.
pub open spec fn drop_front_while<A>(s: Seq<A>, p: spec_fn(A) -> bool) -> Seq<A>
    decreases s.len(),
{
    if s.len() > 0 && p(s[0]) {
        drop_front_while(s.drop_first(), p)
    } else {
        s
    }
}

/// `s` without its trailing elements that satisfy `p`.
pub open spec fn drop_back_while<A>(s: Seq<A>, p: spec_fn(A) -> bool) -> Seq<A>
    decreases s.len(),
{
    if s.len() > 0 && p(s.last()) {
        drop_back_while(s.drop_last(), p)
    } else {
        s
    }
}

/// Dropping the leading run of `p` keeps `s` from the first index where `p` fails.
pub proof fn lemma_drop_front_while<A>(s: Seq<A>, p: spec_fn(A) -> bool, a: int)
    requires
        0 <= a <= s.len(),
        forall|j: int| 0 <= j < a ==> p(#[trigger] s[j]),
        a == s.len() || !p(s[a]),
    ensures
        drop_front_while(s, p) == s.subrange(a, s.len() as int),
    decreases a,
{
    if a == 0 {
        assert(s.subrange(0, s.len() as int) =~= s);
    } else {
        assert(p(s[0]));
        let t = s.drop_first();
        assert forall|j: int| 0 <= j < a - 1 implies p(#[trigger] t[j]) by {
            assert(t[j] == s[j + 1]);
        }
        lemma_drop_front_while(t, p, a - 1);
        assert(t.subrange(a - 1, t.len() as int) =~= s.subrange(a, s.len() as int));
    }
}

/// Dropping the trailing run of `p` keeps `s` up to the last index where `p` fails.
pub proof fn lemma_drop_back_while<A>(s: Seq<A>, p: spec_fn(A) -> bool, b: int)
    requires
        0 <= b <= s.len(),
        forall|j: int| b <= j < s.len() ==> p(#[trigger] s[j]),
        b == 0 || !p(s[b - 1]),
    ensures
        drop_back_while(s, p) == s.subrange(0, b),
    decreases s.len() - b,
{
    if b == s.len() {
        assert(s.subrange(0, b) =~= s);
    } else {
        assert(p(s.last()));
        let t = s.drop_last();
        assert forall|j: int| b <= j < t.len() implies p(#[trigger] t[j]) by {
            assert(t[j] == s[j]);
        }
        lemma_drop_back_while(t, p, b);
        assert(t.subrange(0, b) =~= s.subrange(0, b));
    }
}

} // verus!
