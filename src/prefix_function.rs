//! The failure function of a string and the smallest period it gives.

use vstd::prelude::*;

verus! {

broadcast use vstd::string::group_string_axioms;

/// The first `k` characters of `s` are also its last `k`.
pub open spec fn is_border(s: Seq<char>, k: int) -> bool {
    &&& 0 <= k <= s.len()
    &&& forall|m: int| 0 <= m < k ==> #[trigger] s[m] == s[s.len() - k + m]
}

/// `k` is the length of the longest border of `s` shorter than `s` itself.
pub open spec fn is_longest_proper_border(s: Seq<char>, k: int) -> bool {
    &&& k < s.len()
    &&& is_border(s, k)
    &&& forall|j: int| k < j < s.len() ==> !#[trigger] is_border(s, j)
}

/// Shifting `s` by `p` positions keeps every character that stays in range.
pub open spec fn is_period(s: Seq<char>, p: int) -> bool {
    &&& 1 <= p <= s.len()
    &&& forall|i: int| 0 <= i < s.len() - p ==> #[trigger] s[i] == s[i + p]
}

/// `p` is the smallest period of a non-empty `s`.
pub open spec fn is_smallest_period(s: Seq<char>, p: int) -> bool {
    &&& is_period(s, p)
    &&& forall|q: int| 1 <= q < p ==> !#[trigger] is_period(s, q)
}

/// The characters of `s`, in order.
pub fn chars_of(s: &str) -> (r: Vec<char>)
    ensures
        r@ == s@,
{
    let mut out: Vec<char> = Vec::new();
    for c in it: s.chars()
        invariant
            it.seq() == s@,
            out@ == s@.take(it.index() as int),
    {
        out.push(c);
    }
    out
}

/// A border of a border is a border.
proof fn lemma_border_of_border(c: Seq<char>, i: int, j: int, k: int)
    requires
        0 <= k <= j <= i <= c.len(),
        is_border(c.take(i), j),
        is_border(c.take(j), k),
    ensures
        is_border(c.take(i), k),
{
    assert forall|m: int| 0 <= m < k implies #[trigger] c.take(i)[m] == c.take(i)[i - k + m] by {
        assert(c.take(j)[m] == c.take(j)[j - k + m]);
        assert(c.take(i)[j - k + m] == c.take(i)[i - j + (j - k + m)]);
    }
}

/// Of two borders, the shorter is a border of the longer.
proof fn lemma_border_of_longer_border(c: Seq<char>, i: int, j: int, k: int)
    requires
        0 <= k <= j <= i <= c.len(),
        is_border(c.take(i), j),
        is_border(c.take(i), k),
    ensures
        is_border(c.take(j), k),
{
    assert forall|m: int| 0 <= m < k implies #[trigger] c.take(j)[m] == c.take(j)[j - k + m] by {
        assert(c.take(i)[m] == c.take(i)[i - k + m]);
        assert(c.take(i)[j - k + m] == c.take(i)[i - j + (j - k + m)]);
    }
}

/// A border of `c.take(i)` followed by a match of the next character grows by one.
proof fn lemma_border_extend(c: Seq<char>, i: int, j: int)
    requires
        0 <= j < i < c.len(),
        is_border(c.take(i), j),
        c[j] == c[i],
    ensures
        is_border(c.take(i + 1), j + 1),
{
    assert forall|m: int| 0 <= m < j + 1 implies #[trigger] c.take(i + 1)[m] == c.take(i + 1)[i
        + 1 - (j + 1) + m] by {
        if m < j {
            assert(c.take(i)[m] == c.take(i)[i - j + m]);
        }
    }
}

/// A non-empty border of `c.take(i + 1)` is a border of `c.take(i)` grown by one match.
proof fn lemma_border_shrink(c: Seq<char>, i: int, k: int)
    requires
        1 <= k <= i + 1,
        i < c.len(),
        is_border(c.take(i + 1), k),
    ensures
        is_border(c.take(i), k - 1),
        c[k - 1] == c[i],
{
    assert(c.take(i + 1)[k - 1] == c.take(i + 1)[i + 1 - k + k - 1]);
    assert forall|m: int| 0 <= m < k - 1 implies #[trigger] c.take(i)[m] == c.take(i)[i - (k - 1)
        + m] by {
        assert(c.take(i + 1)[m] == c.take(i + 1)[i + 1 - k + m]);
    }
}

/// The failure function of `s`: entry `i` is the length of the longest proper
/// border of the first `i + 1` characters. An empty `s` gives `[0]`.
pub fn prefix_function(s: &String) -> (pi: Vec<usize>)
    ensures
        s@.len() == 0 ==> pi@ == seq![0usize],
        s@.len() > 0 ==> pi@.len() == s@.len(),
        forall|i: int|
            0 <= i < s@.len() ==> is_longest_proper_border(s@.take(i + 1), #[trigger] pi@[i] as int),
{
    let c = chars_of(s.as_str());
    let n = c.len();
    let mut pi: Vec<usize> = Vec::with_capacity(n);
    pi.push(0);
    if n == 0 {
        return pi;
    }
    assert(is_longest_proper_border(c@.take(1), pi@[0] as int));
    let mut i: usize = 1;
    while i < n
        invariant
            n == c@.len(),
            c@ == s@,
            1 <= i <= n,
            pi@.len() == i,
            forall|q: int|
                0 <= q < i ==> is_longest_proper_border(c@.take(q + 1), #[trigger] pi@[q] as int),
        decreases n - i,
    {
        let mut j = pi[i - 1];
        while j > 0 && c[j] != c[i]
            invariant
                n == c@.len(),
                1 <= i < n,
                c@ == s@,
                pi@.len() == i,
                forall|q: int|
                    0 <= q < i ==> is_longest_proper_border(c@.take(q + 1), #[trigger] pi@[q] as int),
                j < i,
                is_border(c@.take(i as int), j as int),
                forall|k: int|
                    j < k < i && is_border(c@.take(i as int), k) ==> #[trigger] c@[k] != c@[i as int],
            decreases j,
        {
            let next = pi[j - 1];
            proof {
                assert(is_longest_proper_border(c@.take(j as int), next as int));
                lemma_border_of_border(c@, i as int, j as int, next as int);
                assert forall|k: int|
                    next < k < i && is_border(c@.take(i as int), k) implies #[trigger] c@[k]
                    != c@[i as int] by {
                    if k < j {
                        lemma_border_of_longer_border(c@, i as int, j as int, k);
                    }
                }
            }
            j = next;
        }
        let v: usize = if c[j] == c[i] {
            j + 1
        } else {
            0
        };
        proof {
            let t = c@.take(i + 1);
            if c@[j as int] == c@[i as int] {
                lemma_border_extend(c@, i as int, j as int);
            } else {
                assert(is_border(t, 0));
            }
            assert forall|k: int| v < k < i + 1 implies !#[trigger] is_border(t, k) by {
                if is_border(t, k) {
                    lemma_border_shrink(c@, i as int, k);
                }
            }
        }
        pi.push(v);
        i = i + 1;
    }
    pi
}

/// The smallest period of `s`, taken as its length less its longest proper
/// border; 0 for the empty string.
pub fn period(s: &String) -> (r: usize)
    ensures
        s@.len() == 0 ==> r == 0,
        s@.len() > 0 ==> is_smallest_period(s@, r as int),
{
    let pi = prefix_function(s);
    let n = chars_of(s.as_str()).len();
    let last = pi[pi.len() - 1];
    proof {
        if n > 0 {
            let b = last as int;
            assert(s@.take(n as int) == s@);
            assert(is_longest_proper_border(s@, b));
            lemma_border_is_period(s@, b);
            assert forall|q: int| 1 <= q < n - b implies !#[trigger] is_period(s@, q) by {
                if is_period(s@, q) {
                    lemma_period_is_border(s@, q);
                }
            }
        }
    }
    n - last
}

proof fn lemma_border_is_period(s: Seq<char>, k: int)
    requires
        0 <= k < s.len(),
        is_border(s, k),
    ensures
        is_period(s, s.len() - k),
{
    let p = s.len() - k;
    assert forall|i: int| 0 <= i < s.len() - p implies #[trigger] s[i] == s[i + p] by {
        assert(s[i] == s[s.len() - k + i]);
    }
}

proof fn lemma_period_is_border(s: Seq<char>, p: int)
    requires
        is_period(s, p),
    ensures
        is_border(s, s.len() - p),
{
    let k = s.len() - p;
    assert forall|m: int| 0 <= m < k implies #[trigger] s[m] == s[s.len() - k + m] by {
        assert(s[m] == s[m + p]);
    }
}

} // verus!
