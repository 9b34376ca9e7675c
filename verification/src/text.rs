//! Strings as sequences of characters, and the edit distances over them.
use vstd::prelude::*;
use vstd::string::StrSliceExecFns;
use crate::std_wrappers::string_push;

verus! {

/// The smaller of two naturals.
pub open spec fn min_nat(a: nat, b: nat) -> nat {
    if a <= b {
        a
    } else {
        b
    }
}

/// Levenshtein distance between prefixes, by its standard recurrence: the
/// least number of single-character insertions, deletions and
/// substitutions that turn `a` into `b`.
pub open spec fn edit_distance(a: Seq<char>, b: Seq<char>) -> nat
    decreases a.len() + b.len(),
{
    if a.len() == 0 {
        b.len()
    } else if b.len() == 0 {
        a.len()
    } else if a.last() == b.last() {
        edit_distance(a.drop_last(), b.drop_last())
    } else {
        1 + min_nat(
            edit_distance(a.drop_last(), b.drop_last()),
            min_nat(edit_distance(a, b.drop_last()), edit_distance(a.drop_last(), b)),
        )
    }
}

/// The distance between the prefixes of lengths `i` and `j`.
pub open spec fn prefix_distance(a: Seq<char>, b: Seq<char>, i: int, j: int) -> nat {
    edit_distance(a.take(i), b.take(j))
}

/// One step of the recurrence, written over prefix lengths.
pub proof fn lemma_prefix_distance_step(a: Seq<char>, b: Seq<char>, i: int, j: int)
    requires
        0 <= i <= a.len(),
        0 <= j <= b.len(),
    ensures
        i == 0 ==> prefix_distance(a, b, i, j) == j,
        i > 0 && j == 0 ==> prefix_distance(a, b, i, j) == i,
        i > 0 && j > 0 && a[i - 1] == b[j - 1] ==> prefix_distance(a, b, i, j) == prefix_distance(
            a,
            b,
            i - 1,
            j - 1,
        ),
        i > 0 && j > 0 && a[i - 1] != b[j - 1] ==> prefix_distance(a, b, i, j) == 1 + min_nat(
            prefix_distance(a, b, i - 1, j - 1),
            min_nat(prefix_distance(a, b, i, j - 1), prefix_distance(a, b, i - 1, j)),
        ),
{
    if i > 0 {
        assert(a.take(i).drop_last() =~= a.take(i - 1));
    }
    if j > 0 {
        assert(b.take(j).drop_last() =~= b.take(j - 1));
    }
}

/// The distance between prefixes never exceeds the longer prefix.
pub proof fn lemma_prefix_distance_bound(a: Seq<char>, b: Seq<char>, i: int, j: int)
    requires
        0 <= i <= a.len(),
        0 <= j <= b.len(),
    ensures
        prefix_distance(a, b, i, j) <= if i >= j { i } else { j },
    decreases i + j,
{
    lemma_prefix_distance_step(a, b, i, j);
    if i > 0 && j > 0 {
        lemma_prefix_distance_bound(a, b, i - 1, j - 1);
    }
}

/// The characters of `s`, in order.
pub fn chars_of(s: &str) -> (r: Vec<char>)
    ensures
        r@ == s@,
{
    let n = s.unicode_len();
    let mut out: Vec<char> = Vec::new();
    let mut i: usize = 0;
    while i < n
        invariant
            n == s@.len(),
            i <= n,
            out@ == s@.take(i as int),
        decreases n - i,
    {
        let c = s.get_char(i);
        out.push(c);
        i = i + 1;
        proof {
            assert(out@ =~= s@.take(i as int));
        }
    }
    proof {
        assert(s@.take(n as int) =~= s@);
    }
    out
}

/// The string made of the characters `cs[from..to]`.
pub fn string_from_chars(cs: &Vec<char>, from: usize, to: usize) -> (r: String)
    requires
        from <= to <= cs@.len(),
    ensures
        r@ == cs@.subrange(from as int, to as int),
{
    let mut s = String::new();
    let mut i = from;
    while i < to
        invariant
            from <= i <= to,
            to <= cs@.len(),
            s@ == cs@.subrange(from as int, i as int),
        decreases to - i,
    {
        string_push(&mut s, cs[i]);
        i = i + 1;
        proof {
            assert(s@ =~= cs@.subrange(from as int, i as int));
        }
    }
    s
}

/// Levenshtein distance between the character sequences `a` and `b`,
/// computed row by row.
pub fn levenshtein_chars(a: &Vec<char>, b: &Vec<char>) -> (d: usize)
    ensures
        d == edit_distance(a@, b@),
{
    let n = a.len();
    let m = b.len();
    let mut rest: Vec<usize> = Vec::new();
    let mut k: usize = 0;
    while k < m
        invariant
            m == b@.len(),
            k <= m,
            rest@.len() == k,
            forall|t: int| 0 <= t < k ==> #[trigger] rest@[t] == t + 1,
        decreases m - k,
    {
        rest.push(k + 1);
        k = k + 1;
    }
    proof {
        assert forall|t: int| 0 <= t < m implies #[trigger] rest@[t] == prefix_distance(
            a@,
            b@,
            0,
            t + 1,
        ) by {
            lemma_prefix_distance_step(a@, b@, 0, t + 1);
        }
    }
    let mut head: usize = 0;
    let mut i: usize = 0;
    while i < n
        invariant
            n == a@.len(),
            m == b@.len(),
            i <= n,
            rest@.len() == m,
            head == i,
            forall|t: int| 0 <= t < m ==> #[trigger] rest@[t] == prefix_distance(a@, b@, i as int, t + 1),
        decreases n - i,
    {
        let ca = a[i];
        let mut last: usize = head;
        head = i + 1;
        proof {
            lemma_prefix_distance_step(a@, b@, i as int, 0);
            lemma_prefix_distance_step(a@, b@, i + 1, 0);
        }
        let mut j: usize = 0;
        while j < m
            invariant
                n == a@.len(),
                m == b@.len(),
                i < n,
                ca == a@[i as int],
                j <= m,
                rest@.len() == m,
                head == i + 1,
                head == prefix_distance(a@, b@, i + 1, 0),
                last == prefix_distance(a@, b@, i as int, j as int),
                forall|t: int|
                    0 <= t < j ==> #[trigger] rest@[t] == prefix_distance(a@, b@, i + 1, t + 1),
                forall|t: int|
                    j <= t < m ==> #[trigger] rest@[t] == prefix_distance(a@, b@, i as int, t + 1),
            decreases m - j,
        {
            let up = rest[j];
            let left = if j == 0 { head } else { rest[j - 1] };
            proof {
                lemma_prefix_distance_step(a@, b@, i + 1, j + 1);
                lemma_prefix_distance_bound(a@, b@, i + 1, j + 1);
            }
            let cell = if ca == b[j] {
                last
            } else {
                let mut low = last;
                if left < low {
                    low = left;
                }
                if up < low {
                    low = up;
                }
                1 + low
            };
            rest.set(j, cell);
            last = up;
            j = j + 1;
        }
        i = i + 1;
    }
    proof {
        assert(a@.take(n as int) =~= a@);
        assert(b@.take(m as int) =~= b@);
        lemma_prefix_distance_step(a@, b@, n as int, 0);
    }
    if m == 0 {
        head
    } else {
        rest[m - 1]
    }
}

} // verus!

verus! {

/// Removing the last character of either string changes the distance by
/// at most one, in either direction.
pub proof fn lemma_step_bounds(a: Seq<char>, c: Seq<char>)
    ensures
        a.len() > 0 ==> edit_distance(a, c) <= edit_distance(a.drop_last(), c) + 1,
        a.len() > 0 ==> edit_distance(a.drop_last(), c) <= edit_distance(a, c) + 1,
        c.len() > 0 ==> edit_distance(a, c) <= edit_distance(a, c.drop_last()) + 1,
        c.len() > 0 ==> edit_distance(a, c.drop_last()) <= edit_distance(a, c) + 1,
    decreases a.len() + c.len(),
{
    lemma_distance_le_max(a, c);
    lemma_distance_ge_len_diff(a, c);
    if a.len() > 0 {
        lemma_step_bounds(a.drop_last(), c);
        lemma_distance_le_max(a.drop_last(), c);
        lemma_distance_ge_len_diff(a.drop_last(), c);
    }
    if c.len() > 0 {
        lemma_step_bounds(a, c.drop_last());
        lemma_distance_le_max(a, c.drop_last());
        lemma_distance_ge_len_diff(a, c.drop_last());
    }
    if a.len() > 0 && c.len() > 0 {
        lemma_step_bounds(a.drop_last(), c.drop_last());
    }
}

/// The distance never exceeds the longer string.
pub proof fn lemma_distance_le_max(a: Seq<char>, b: Seq<char>)
    ensures
        edit_distance(a, b) <= if a.len() >= b.len() { a.len() } else { b.len() },
    decreases a.len() + b.len(),
{
    if a.len() > 0 && b.len() > 0 {
        lemma_distance_le_max(a.drop_last(), b.drop_last());
    }
}

/// The distance is at least the difference of the lengths.
pub proof fn lemma_distance_ge_len_diff(a: Seq<char>, b: Seq<char>)
    ensures
        edit_distance(a, b) >= a.len() - b.len(),
        edit_distance(a, b) >= b.len() - a.len(),
    decreases a.len() + b.len(),
{
    if a.len() > 0 && b.len() > 0 {
        lemma_distance_ge_len_diff(a.drop_last(), b.drop_last());
        lemma_distance_ge_len_diff(a, b.drop_last());
        lemma_distance_ge_len_diff(a.drop_last(), b);
    }
}

/// The distance is symmetric.
pub proof fn lemma_distance_symmetric(a: Seq<char>, b: Seq<char>)
    ensures
        edit_distance(a, b) == edit_distance(b, a),
    decreases a.len() + b.len(),
{
    if a.len() > 0 && b.len() > 0 {
        lemma_distance_symmetric(a.drop_last(), b.drop_last());
        lemma_distance_symmetric(a, b.drop_last());
        lemma_distance_symmetric(a.drop_last(), b);
    }
}

/// The distance satisfies the triangle inequality.
pub proof fn lemma_distance_triangle(a: Seq<char>, b: Seq<char>, c: Seq<char>)
    ensures
        edit_distance(a, c) <= edit_distance(a, b) + edit_distance(b, c),
    decreases a.len() + b.len() + c.len(),
{
    if b.len() == 0 {
        lemma_distance_le_max(a, c);
    } else if a.len() == 0 {
        lemma_distance_ge_len_diff(b, c);
    } else if c.len() == 0 {
        lemma_distance_ge_len_diff(a, b);
    } else {
        let a1 = a.drop_last();
        let b1 = b.drop_last();
        let c1 = c.drop_last();
        let x = a.last();
        let y = b.last();
        let z = c.last();
        lemma_step_bounds(a, c);
        let dab = edit_distance(a, b);
        let dbc = edit_distance(b, c);
        if dab == edit_distance(a1, b) + 1 {
            lemma_distance_triangle(a1, b, c);
        } else if dbc == edit_distance(b, c1) + 1 {
            lemma_distance_triangle(a, b, c1);
        } else if dab == edit_distance(a, b1) + 1 {
            if dbc == edit_distance(b1, c) + 1 {
                lemma_distance_triangle(a, b1, c);
            } else {
                lemma_distance_triangle(a, b1, c1);
            }
        } else {
            if dbc == edit_distance(b1, c) + 1 {
                lemma_distance_triangle(a1, b1, c);
            } else {
                lemma_distance_triangle(a1, b1, c1);
            }
        }
    }
}

} // verus!

verus! {

/// Lexicographic order of character sequences by code point, which is the
/// order of the strings' UTF-8 bytes.
pub open spec fn seq_less(a: Seq<char>, b: Seq<char>) -> bool
    decreases a.len(),
{
    if a.len() == 0 {
        b.len() > 0
    } else if b.len() == 0 {
        false
    } else if a[0] != b[0] {
        (a[0] as int) < (b[0] as int)
    } else {
        seq_less(a.drop_first(), b.drop_first())
    }
}

/// The lexicographic order is irreflexive, asymmetric and total.
pub proof fn lemma_seq_less_total(a: Seq<char>, b: Seq<char>)
    ensures
        !seq_less(a, a),
        seq_less(a, b) ==> !seq_less(b, a),
        a != b ==> seq_less(a, b) || seq_less(b, a),
    decreases a.len(),
{
    lemma_seq_less_irreflexive(a);
    if a.len() == 0 {
        if b.len() == 0 {
            assert(a =~= b);
        }
    } else if b.len() == 0 {
    } else {
        lemma_seq_less_total(a.drop_first(), b.drop_first());
        if a[0] != b[0] {
            assert((a[0] as int) != (b[0] as int));
        }
        if a[0] == b[0] && a.drop_first() == b.drop_first() {
            assert(a =~= seq![a[0]] + a.drop_first());
            assert(b =~= seq![b[0]] + b.drop_first());
        }
    }
}

/// No sequence comes before itself.
pub proof fn lemma_seq_less_irreflexive(a: Seq<char>)
    ensures
        !seq_less(a, a),
    decreases a.len(),
{
    if a.len() > 0 {
        lemma_seq_less_irreflexive(a.drop_first());
    }
}

/// The lexicographic order is transitive.
pub proof fn lemma_seq_less_transitive(a: Seq<char>, b: Seq<char>, c: Seq<char>)
    requires
        seq_less(a, b),
        seq_less(b, c),
    ensures
        seq_less(a, c),
    decreases a.len(),
{
    if a.len() > 0 && b.len() > 0 && c.len() > 0 && a[0] == b[0] && b[0] == c[0] {
        lemma_seq_less_transitive(a.drop_first(), b.drop_first(), c.drop_first());
    }
}

/// Whether `a` comes strictly before `b` in lexicographic order.
pub fn chars_less(a: &Vec<char>, b: &Vec<char>) -> (r: bool)
    ensures
        r == seq_less(a@, b@),
{
    let mut i: usize = 0;
    proof {
        assert(a@.skip(0) =~= a@);
        assert(b@.skip(0) =~= b@);
    }
    while i < a.len() && i < b.len()
        invariant
            i <= a@.len(),
            i <= b@.len(),
            a@.take(i as int) == b@.take(i as int),
            seq_less(a@, b@) == seq_less(a@.skip(i as int), b@.skip(i as int)),
        decreases a@.len() - i,
    {
        let x = a[i];
        let y = b[i];
        proof {
            assert(a@.skip(i as int)[0] == x);
            assert(b@.skip(i as int)[0] == y);
            assert(a@.skip(i as int).drop_first() =~= a@.skip(i + 1));
            assert(b@.skip(i as int).drop_first() =~= b@.skip(i + 1));
        }
        if x != y {
            return x < y;
        }
        i = i + 1;
        proof {
            assert(a@.take(i as int) =~= a@.take(i - 1).push(x));
            assert(b@.take(i as int) =~= b@.take(i - 1).push(y));
        }
    }
    i < b.len()
}

/// Whether `a` and `b` hold the same characters.
pub fn chars_eq(a: &Vec<char>, b: &Vec<char>) -> (r: bool)
    ensures
        r == (a@ == b@),
{
    if a.len() != b.len() {
        return false;
    }
    let mut i: usize = 0;
    while i < a.len()
        invariant
            a@.len() == b@.len(),
            i <= a@.len(),
            forall|k: int| 0 <= k < i ==> a@[k] == b@[k],
        decreases a@.len() - i,
    {
        if a[i] != b[i] {
            return false;
        }
        i = i + 1;
    }
    proof {
        assert(a@ =~= b@);
    }
    true
}

} // verus!
