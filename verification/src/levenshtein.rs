//! Levenshtein edit distance: specification, metric laws, and a
//! verified dynamic-programming implementation.

use vstd::prelude::*;

verus! {

/// Minimum of three natural numbers.
pub open spec fn min3(a: nat, b: nat, c: nat) -> nat {
    if a <= b && a <= c {
        a
    } else if b <= c {
        b
    } else {
        c
    }
}

/// Cost of substituting one character for another: 0 when they are
/// equal, 1 otherwise.
pub open spec fn sub_cost(x: char, y: char) -> nat {
    if x == y {
        0
    } else {
        1
    }
}

/// The Levenshtein edit distance between two character sequences: the
/// least number of single-character insertions, deletions and
/// substitutions that turns one into the other, by the classic
/// recurrence on the last characters.
pub open spec fn edit_dist(a: Seq<char>, b: Seq<char>) -> nat
    decreases a.len() + b.len(),
{
    if a.len() == 0 {
        b.len()
    } else if b.len() == 0 {
        a.len()
    } else {
        min3(
            edit_dist(a.drop_last(), b) + 1,
            edit_dist(a, b.drop_last()) + 1,
            edit_dist(a.drop_last(), b.drop_last()) + sub_cost(a.last(), b.last()),
        )
    }
}

/// The distance to an empty sequence is the other sequence's length.
pub proof fn lemma_edit_dist_empty(s: Seq<char>)
    ensures
        edit_dist(Seq::<char>::empty(), s) == s.len(),
        edit_dist(s, Seq::<char>::empty()) == s.len(),
{
}

/// The edit distance never exceeds the longer sequence's length.
pub proof fn lemma_edit_dist_le_max(a: Seq<char>, b: Seq<char>)
    ensures
        edit_dist(a, b) <= (if a.len() >= b.len() {
            a.len()
        } else {
            b.len()
        }),
    decreases a.len() + b.len(),
{
    if a.len() == 0 || b.len() == 0 {
    } else {
        lemma_edit_dist_le_max(a.drop_last(), b.drop_last());
    }
}

/// The edit distance is at least the difference of the lengths.
pub proof fn lemma_edit_dist_ge_len_diff(a: Seq<char>, b: Seq<char>)
    ensures
        edit_dist(a, b) + a.len() >= b.len(),
        edit_dist(a, b) + b.len() >= a.len(),
    decreases a.len() + b.len(),
{
    if a.len() == 0 || b.len() == 0 {
    } else {
        lemma_edit_dist_ge_len_diff(a.drop_last(), b);
        lemma_edit_dist_ge_len_diff(a, b.drop_last());
        lemma_edit_dist_ge_len_diff(a.drop_last(), b.drop_last());
    }
}

/// The edit distance is symmetric in its arguments.
pub proof fn lemma_edit_dist_symmetric(a: Seq<char>, b: Seq<char>)
    ensures
        edit_dist(a, b) == edit_dist(b, a),
    decreases a.len() + b.len(),
{
    if a.len() == 0 || b.len() == 0 {
    } else {
        lemma_edit_dist_symmetric(a.drop_last(), b);
        lemma_edit_dist_symmetric(a, b.drop_last());
        lemma_edit_dist_symmetric(a.drop_last(), b.drop_last());
    }
}

/// A sequence is at distance zero from itself.
pub proof fn lemma_edit_dist_self(a: Seq<char>)
    ensures
        edit_dist(a, a) == 0,
    decreases a.len(),
{
    if a.len() == 0 {
    } else {
        lemma_edit_dist_self(a.drop_last());
    }
}

/// Sequences at distance zero are equal.
pub proof fn lemma_edit_dist_zero_implies_eq(a: Seq<char>, b: Seq<char>)
    requires
        edit_dist(a, b) == 0,
    ensures
        a == b,
    decreases a.len() + b.len(),
{
    if a.len() == 0 {
        assert(a =~= b);
    } else if b.len() == 0 {
        assert(a =~= b);
    } else {
        assert(edit_dist(a.drop_last(), b.drop_last()) == 0 && sub_cost(a.last(), b.last()) == 0);
        lemma_edit_dist_zero_implies_eq(a.drop_last(), b.drop_last());
        assert forall|i: int| 0 <= i < a.len() implies a[i] == b[i] by {
            if i < a.len() - 1 {
                assert(a.drop_last()[i] == b.drop_last()[i]);
            } else {
                assert(a.last() == b.last());
            }
        }
        assert(a =~= b);
    }
}

/// Dropping the last character of the first argument changes the
/// distance by at most one.
proof fn lemma_edit_dist_drop_a(a: Seq<char>, b: Seq<char>)
    requires
        a.len() > 0,
    ensures
        edit_dist(a, b) <= edit_dist(a.drop_last(), b) + 1,
{
}

/// Dropping the last character of the second argument changes the
/// distance by at most one.
proof fn lemma_edit_dist_drop_b(a: Seq<char>, b: Seq<char>)
    requires
        b.len() > 0,
    ensures
        edit_dist(a, b) <= edit_dist(a, b.drop_last()) + 1,
{
}

/// Dropping the last character of both arguments changes the distance
/// by at most the substitution cost of those characters.
proof fn lemma_edit_dist_drop_both(a: Seq<char>, b: Seq<char>)
    requires
        a.len() > 0,
        b.len() > 0,
    ensures
        edit_dist(a, b) <= edit_dist(a.drop_last(), b.drop_last()) + sub_cost(
            a.last(),
            b.last(),
        ),
{
}

/// The triangle inequality: going through any midpoint sequence can
/// only lengthen the way.
pub proof fn lemma_edit_dist_triangle(a: Seq<char>, b: Seq<char>, c: Seq<char>)
    ensures
        edit_dist(a, c) <= edit_dist(a, b) + edit_dist(b, c),
    decreases a.len() + b.len() + c.len(),
{
    if b.len() == 0 {
        lemma_edit_dist_le_max(a, c);
    } else if a.len() == 0 {
        lemma_edit_dist_ge_len_diff(b, c);
    } else if c.len() == 0 {
        lemma_edit_dist_ge_len_diff(a, b);
    } else {
        let ap = a.drop_last();
        let bp = b.drop_last();
        let cp = c.drop_last();
        let dab = edit_dist(a, b);
        let dbc = edit_dist(b, c);
        if dab == edit_dist(ap, b) + 1 {
            lemma_edit_dist_triangle(ap, b, c);
            lemma_edit_dist_drop_a(a, c);
        } else if dbc == edit_dist(b, cp) + 1 {
            lemma_edit_dist_triangle(a, b, cp);
            lemma_edit_dist_drop_b(a, c);
        } else if dab == edit_dist(a, bp) + 1 {
            if dbc == edit_dist(bp, c) + 1 {
                lemma_edit_dist_triangle(a, bp, c);
            } else {
                assert(dbc == edit_dist(bp, cp) + sub_cost(b.last(), c.last()));
                lemma_edit_dist_triangle(a, bp, cp);
                lemma_edit_dist_drop_b(a, c);
            }
        } else {
            assert(dab == edit_dist(ap, bp) + sub_cost(a.last(), b.last()));
            if dbc == edit_dist(bp, c) + 1 {
                lemma_edit_dist_triangle(ap, bp, c);
                lemma_edit_dist_drop_a(a, c);
            } else {
                assert(dbc == edit_dist(bp, cp) + sub_cost(b.last(), c.last()));
                lemma_edit_dist_triangle(ap, bp, cp);
                lemma_edit_dist_drop_both(a, c);
            }
        }
    }
}

/// The recurrence satisfied by distances of prefixes, as the
/// dynamic-programming table fills it in.
proof fn lemma_edit_dist_step(a: Seq<char>, b: Seq<char>, i: int, j: int)
    requires
        1 <= i <= a.len(),
        1 <= j <= b.len(),
    ensures
        edit_dist(a.take(i), b.take(j)) == min3(
            edit_dist(a.take(i - 1), b.take(j)) + 1,
            edit_dist(a.take(i), b.take(j - 1)) + 1,
            edit_dist(a.take(i - 1), b.take(j - 1)) + sub_cost(a[i - 1], b[j - 1]),
        ),
{
    assert(a.take(i).drop_last() =~= a.take(i - 1));
    assert(b.take(j).drop_last() =~= b.take(j - 1));
    assert(a.take(i).last() == a[i - 1]);
    assert(b.take(j).last() == b[j - 1]);
}

/// Collects the characters of a string slice in order.
fn collect_chars(s: &str) -> (r: Vec<char>)
    ensures
        r@ == s@,
{
    let n = s.unicode_len();
    let mut r: Vec<char> = Vec::new();
    let mut i: usize = 0;
    while i < n
        invariant
            i <= n,
            n == s@.len(),
            r@ == s@.take(i as int),
        decreases n - i,
    {
        let c = s.get_char(i);
        r.push(c);
        proof {
            assert(s@.take(i as int + 1) =~= s@.take(i as int).push(s@[i as int]));
        }
        i = i + 1;
    }
    proof {
        assert(s@.take(n as int) =~= s@);
    }
    r
}

/// Relies on str::len, which returns the string's length in bytes.
/// Rust never holds a value larger than isize::MAX bytes, and every
/// char of a str occupies at least one byte, so the character count is
/// bounded by the byte count.
#[verifier::external_body]
fn byte_len(s: &str) -> (n: usize)
    ensures
        s@.len() <= n <= isize::MAX as usize,
{
    s.len()
}

/// The minimum number of single-character insertions, deletions and
/// substitutions required to transform `s` into `t`, by the classic
/// dynamic-programming table over prefixes, kept one row at a time.
pub fn levenshtein_distance(s: &str, t: &str) -> (d: usize)
    ensures
        d == edit_dist(s@, t@),
{
    let s_chars = collect_chars(s);
    let t_chars = collect_chars(t);
    let n = s_chars.len();
    let m = t_chars.len();

    if n == 0 {
        return m;
    }
    if m == 0 {
        return n;
    }
    // the byte lengths bound the character counts, so every table
    // entry plus one stays within usize
    let s_bytes = byte_len(s);
    let t_bytes = byte_len(t);
    proof {
        assert(n <= s_bytes && m <= t_bytes);
    }
    let ghost sv = s@;
    let ghost tv = t@;

    // prev[k] holds the distance between the first i characters of s
    // and the first k characters of t.
    let mut prev: Vec<usize> = Vec::new();
    let mut j: usize = 0;
    while j <= m
        invariant
            j <= m + 1,
            m == tv.len(),
            m <= isize::MAX as usize,
            prev@.len() == j,
            forall|k: int| 0 <= k < j ==> prev@[k] == k,
        decreases m + 1 - j,
    {
        prev.push(j);
        j = j + 1;
    }
    proof {
        assert(sv.take(0) =~= Seq::<char>::empty());
        assert forall|k: int| 0 <= k <= m implies prev@[k] == edit_dist(sv.take(0), tv.take(k)) by {
            assert(tv.take(k).len() == k);
        }
    }

    let mut i: usize = 0;
    while i < n
        invariant
            i <= n,
            n == sv.len(),
            m == tv.len(),
            0 < n <= isize::MAX as usize,
            0 < m <= isize::MAX as usize,
            s_chars@ == sv,
            t_chars@ == tv,
            prev@.len() == m + 1,
            forall|k: int| 0 <= k <= m ==> prev@[k] == edit_dist(sv.take(i as int), tv.take(k)),
        decreases n - i,
    {
        let mut cur: Vec<usize> = Vec::new();
        cur.push(i + 1);
        proof {
            assert(tv.take(0) =~= Seq::<char>::empty());
            assert(sv.take(i as int + 1).len() == i + 1);
        }
        let mut j: usize = 0;
        while j < m
            invariant
                j <= m,
                i < n,
                n == sv.len(),
                m == tv.len(),
                0 < n <= isize::MAX as usize,
                0 < m <= isize::MAX as usize,
                s_chars@ == sv,
                t_chars@ == tv,
                prev@.len() == m + 1,
                forall|k: int| 0 <= k <= m ==> prev@[k] == edit_dist(sv.take(i as int), tv.take(k)),
                cur@.len() == j + 1,
                forall|k: int| 0 <= k <= j ==> cur@[k] == edit_dist(
                    sv.take(i as int + 1),
                    tv.take(k),
                ),
            decreases m - j,
        {
            let cost: usize = if s_chars[i] == t_chars[j] {
                0
            } else {
                1
            };
            proof {
                lemma_edit_dist_le_max(sv.take(i as int), tv.take(j as int + 1));
                lemma_edit_dist_le_max(sv.take(i as int + 1), tv.take(j as int));
                lemma_edit_dist_le_max(sv.take(i as int), tv.take(j as int));
            }
            let del = prev[j + 1] + 1;
            let ins = cur[j] + 1;
            let sub = prev[j] + cost;
            let mut best = del;
            if ins < best {
                best = ins;
            }
            if sub < best {
                best = sub;
            }
            proof {
                lemma_edit_dist_step(sv, tv, i as int + 1, j as int + 1);
                assert(sub_cost(sv[i as int], tv[j as int]) == cost);
            }
            cur.push(best);
            j = j + 1;
        }
        prev = cur;
        i = i + 1;
    }
    proof {
        assert(sv.take(n as int) =~= sv);
        assert(tv.take(m as int) =~= tv);
    }
    prev[m]
}

} // verus!
