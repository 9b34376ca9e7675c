//! A spelling-suggestion index built on the deletions of its words.
use vstd::prelude::*;
use indexmap::IndexSet;
use crate::bk_tree::{levenshtein, within};
use crate::default_map::{key_index, lemma_key_index, lemma_push_distinct};
use crate::id_map::{index_order, indexes_clear, indexes_contains, indexes_get, indexes_insert, indexes_len, indexes_new};
use crate::ordered_keys::{key_order, keys_clear, keys_get_index, keys_index_of, keys_insert_full, keys_len, keys_new};
use crate::ranking::{entries_sorted, entries_view, sort_entries};
use crate::std_wrappers::string_push;
use crate::text::{chars_eq, chars_of, edit_distance};
use std::collections::HashMap;

verus! {

/// The number of characters of `value`.
pub fn string_length(value: &str) -> (r: usize)
    ensures
        r == value@.len(),
{
    value.unicode_len()
}

/// `w` without the character at each place in turn.
pub open spec fn deletes_of(w: Seq<char>) -> Seq<Seq<char>> {
    Seq::new(w.len(), |i: int| w.remove(i))
}

/// The first `c` characters of `w`, without the one at `i` when it is
/// among them.
pub open spec fn prefix_without(w: Seq<char>, c: int, i: int) -> Seq<char> {
    if i < c {
        w.take(c).remove(i)
    } else {
        w.take(c)
    }
}

/// The words made by deleting one character of `word`, deleting the
/// first character first.
pub fn one_character_deletes(word: &str) -> (r: Vec<String>)
    ensures
        r@.map_values(|s: String| s@) == deletes_of(word@),
{
    let characters = chars_of(word);
    let n = characters.len();
    let mut out: Vec<String> = Vec::new();
    let mut index: usize = 0;
    while index < n
        invariant
            characters@ == word@,
            n == word@.len(),
            index <= n,
            out@.map_values(|s: String| s@) == deletes_of(word@).take(index as int),
        decreases n - index,
    {
        let mut s = String::new();
        let mut current: usize = 0;
        while current < n
            invariant
                characters@ == word@,
                n == word@.len(),
                index < n,
                current <= n,
                s@ == prefix_without(word@, current as int, index as int),
            decreases n - current,
        {
            let ghost s0 = s@;
            if current != index {
                string_push(&mut s, characters[current]);
            }
            proof {
                let w = word@;
                let c = current as int;
                let i = index as int;
                if i < c {
                    assert(w.take(c + 1).remove(i) =~= w.take(c).remove(i).push(w[c]));
                } else if i == c {
                    assert(w.take(c + 1).remove(i) =~= w.take(c));
                } else {
                    assert(w.take(c + 1) =~= w.take(c).push(w[c]));
                }
            }
            current = current + 1;
        }
        let ghost o0 = out@;
        proof {
            assert(word@.take(n as int) =~= word@);
            assert(s@ == word@.remove(index as int));
        }
        let ghost sv = s@;
        out.push(s);
        index = index + 1;
        proof {
            assert(out@.map_values(|s: String| s@) =~= o0.map_values(|s: String| s@).push(sv));
            assert(deletes_of(word@).take(index as int) =~= deletes_of(word@).take(index - 1).push(sv));
            assert(out@.map_values(|s: String| s@) =~= deletes_of(word@).take(index as int));
        }
    }
    proof {
        assert(deletes_of(word@).take(n as int) =~= deletes_of(word@));
    }
    out
}

/// The deletions recorded by visiting `w` at `distance`: every word one
/// deletion away, from the first place on, is recorded once, and those
/// newly recorded while `distance + 1` is below `max` are visited in turn.
pub open spec fn visit_spec(w: Seq<char>, distance: nat, max: nat, acc: Seq<Seq<char>>) -> Seq<Seq<char>>
    decreases w.len(), 1nat, 0nat,
{
    if w.len() > 1 {
        visit_from(w, 0, distance + 1, max, acc)
    } else {
        acc
    }
}

/// `visit_spec` over the deletions of `w` from place `i` on, at distance
/// `d`.
pub open spec fn visit_from(w: Seq<char>, i: nat, d: nat, max: nat, acc: Seq<Seq<char>>) -> Seq<Seq<char>>
    decreases w.len(), 0nat, w.len() - i,
{
    if i >= w.len() {
        acc
    } else {
        let del = w.remove(i as int);
        let acc1 = if acc.contains(del) {
            acc
        } else if d < max {
            visit_spec(del, d, max, acc.push(del))
        } else {
            acc.push(del)
        };
        visit_from(w, i + 1, d, max, acc1)
    }
}

/// Records in `deletes` the words reached from `word` by deletions, as
/// `visit_spec` says.
fn visit(word: &str, distance: usize, max_distance: usize, deletes: &mut IndexSet<String>)
    requires
        distance < usize::MAX,
    ensures
        key_order(*final(deletes)) == visit_spec(word@, distance as nat, max_distance as nat, key_order(*old(deletes))),
    decreases word@.len(),
{
    let distance = distance + 1;
    if string_length(word) > 1 {
        let dels = one_character_deletes(word);
        let ghost w = word@;
        proof {
            assert(dels@.map_values(|s: String| s@).len() == dels@.len());
            assert(deletes_of(w).len() == w.len());
        }
        let n = dels.len();
        let mut i: usize = 0;
        while i < n
            invariant
                w == word@,
                w.len() > 1,
                n == w.len(),
                dels@.map_values(|s: String| s@) == deletes_of(w),
                i <= n,
                visit_from(w, 0, distance as nat, max_distance as nat, key_order(*old(deletes))) == visit_from(
                    w,
                    i as nat,
                    distance as nat,
                    max_distance as nat,
                    key_order(*deletes),
                ),
            decreases n - i,
        {
            proof {
                assert(dels@.map_values(|s: String| s@).len() == dels@.len());
                assert(dels@.map_values(|s: String| s@)[i as int] == dels@[i as int]@);
            }
            let deleted = &dels[i];
            proof {
                assert(deleted@ == w.remove(i as int));
            }
            let (_, added) = keys_insert_full(deletes, deleted.clone());
            if added && distance < max_distance {
                visit(deleted.as_str(), distance, max_distance, deletes);
            }
            i = i + 1;
        }
    }
}

/// Every word reached from `word` by deleting up to `max_distance`
/// characters, in the order `visit_spec` finds them.
pub fn edits(word: &str, max_distance: usize) -> (r: IndexSet<String>)
    ensures
        key_order(r) == visit_spec(word@, 0, max_distance as nat, Seq::empty()),
{
    let mut deletes = keys_new();
    visit(word, 0, max_distance, &mut deletes);
    deletes
}

/// The last row `p` in `1..=k` whose character of `a` is `c`, 0 if none.
pub open spec fn last_row(a: Seq<char>, c: char, k: int) -> int
    decreases k,
{
    if k <= 0 {
        0
    } else if a[k - 1] == c {
        k
    } else {
        last_row(a, c, k - 1)
    }
}

/// `last_row` lies in `0..=k`.
proof fn lemma_last_row(a: Seq<char>, c: char, k: int)
    ensures
        0 <= last_row(a, c, k),
        k >= 0 ==> last_row(a, c, k) <= k,
    decreases k,
{
    if k > 0 {
        lemma_last_row(a, c, k - 1);
    }
}

/// `x` when it lies in `0..=hi`, else 0.
pub open spec fn clamp(x: int, hi: int) -> int {
    if 0 <= x <= hi {
        x
    } else {
        0
    }
}

/// The smaller of two integers.
pub open spec fn min2(x: int, y: int) -> int {
    if x <= y {
        x
    } else {
        y
    }
}

/// The cell `(i, j)` of the table of the Damerau-Levenshtein distance of
/// `a` and `b` with adjacent transpositions and later edits between them:
/// row and column 0 are the border, worth `|a| + |b|`; row and column 1
/// count the characters of the other side; cell `(i + 1, j + 1)` is the
/// distance between the first `i` characters of `a` and the first `j` of
/// `b`.
pub open spec fn dl_cell(a: Seq<char>, b: Seq<char>, i: int, j: int) -> int
    decreases i + j,
{
    let inf = (a.len() + b.len()) as int;
    if i <= 0 || j <= 0 {
        inf
    } else if i == 1 {
        j - 1
    } else if j == 1 {
        i - 1
    } else {
        let li = i - 1;
        let ri = j - 1;
        let base = if a[li - 1] == b[ri - 1] {
            dl_cell(a, b, li, ri)
        } else {
            min2(min2(dl_cell(a, b, li, ri) + 1, dl_cell(a, b, i, ri) + 1), dl_cell(a, b, li, j) + 1)
        };
        let pl = clamp(last_row(a, b[ri - 1], li - 1), li - 1);
        let pr = clamp(last_row(b, a[li - 1], ri - 1), ri - 1);
        min2(base, dl_cell(a, b, pl, pr) + (li - pl - 1) + 1 + (ri - pr - 1))
    }
}

/// The Damerau-Levenshtein distance of `a` and `b`, transpositions of
/// adjacent characters included, with edits allowed between them.
pub open spec fn damerau_distance(a: Seq<char>, b: Seq<char>) -> int {
    dl_cell(a, b, a.len() + 1 as int, b.len() + 1 as int)
}

/// Every cell past the border lies between 0 and `i + j - 2`.
proof fn lemma_dl_bounds(a: Seq<char>, b: Seq<char>, i: int, j: int)
    requires
        1 <= i,
        1 <= j,
    ensures
        0 <= dl_cell(a, b, i, j) <= i + j - 2,
    decreases i + j,
{
    if i > 1 && j > 1 {
        let li = i - 1;
        let ri = j - 1;
        lemma_dl_bounds(a, b, li, ri);
        lemma_dl_bounds(a, b, i, ri);
        lemma_dl_bounds(a, b, li, j);
        let pl = clamp(last_row(a, b[ri - 1], li - 1), li - 1);
        let pr = clamp(last_row(b, a[li - 1], ri - 1), ri - 1);
        if pl >= 1 && pr >= 1 {
            lemma_dl_bounds(a, b, pl, pr);
        }
        let base = if a[li - 1] == b[ri - 1] {
            dl_cell(a, b, li, ri)
        } else {
            min2(min2(dl_cell(a, b, li, ri) + 1, dl_cell(a, b, i, ri) + 1), dl_cell(a, b, li, j) + 1)
        };
        assert(dl_cell(a, b, i, j) == min2(base, dl_cell(a, b, pl, pr) + (li - pl - 1) + 1 + (ri - pr - 1)));
        assert(0 <= base <= i + j - 2);
        assert(dl_cell(a, b, pl, pr) >= 0);
    }
}

/// The Damerau-Levenshtein distance between `left` and `right`, counting
/// a transposition of adjacent characters as one edit even with other
/// edits between them.
/// The border of the Damerau-Levenshtein table for words of `n` and `m`
/// characters: row and column 0 hold `infinity`, row and column 1 count up
/// from 0, and every other cell is 0.
fn dl_border(n: usize, m: usize, infinity: usize) -> (matrix: Vec<Vec<usize>>)
    requires
        n + m <= usize::MAX / 4,
    ensures
        matrix@.len() == n + 2,
        forall|x: int| 0 <= x < n + 2 ==> (#[trigger] matrix@[x])@.len() == m + 2,
        forall|x: int| 0 <= x < n + 2 ==> (#[trigger] matrix@[x])@[0] == infinity,
        forall|x: int| 1 <= x < n + 2 ==> (#[trigger] matrix@[x])@[1] == x - 1,
        forall|y: int| 1 <= y < m + 2 ==> (#[trigger] matrix@[1]@[y]) == y - 1,
        forall|y: int| 0 <= y < m + 2 ==> (#[trigger] matrix@[0]@[y]) == infinity,
{
    let mut matrix: Vec<Vec<usize>> = Vec::new();
    let mut r: usize = 0;
    while r < n + 2
        invariant
            n + m <= usize::MAX / 4,
            r <= n + 2,
            matrix@.len() == r,
            forall|x: int| 0 <= x < r ==> (#[trigger] matrix@[x])@.len() == m + 2,
        decreases n + 2 - r,
    {
        let mut row: Vec<usize> = Vec::new();
        let mut c: usize = 0;
        while c < m + 2
            invariant
                n + m <= usize::MAX / 4,
                c <= m + 2,
                row@.len() == c,
            decreases m + 2 - c,
        {
            row.push(0);
            c = c + 1;
        }
        matrix.push(row);
        r = r + 1;
    }
    set_cell(&mut matrix, 0, 0, infinity);
    let mut li: usize = 0;
    while li <= n
        invariant
            n + m <= usize::MAX / 4,
            li <= n + 1,
            matrix@.len() == n + 2,
            forall|x: int| 0 <= x < n + 2 ==> (#[trigger] matrix@[x])@.len() == m + 2,
            matrix@[0]@[0] == infinity,
            forall|x: int| 1 <= x < li + 1 ==> (#[trigger] matrix@[x])@[1] == x - 1 && matrix@[x]@[0] == infinity,
        decreases n + 1 - li,
    {
        set_cell(&mut matrix, li + 1, 1, li);
        set_cell(&mut matrix, li + 1, 0, infinity);
        li = li + 1;
    }
    let mut ri: usize = 0;
    while ri <= m
        invariant
            n + m <= usize::MAX / 4,
            ri <= m + 1,
            matrix@.len() == n + 2,
            forall|x: int| 0 <= x < n + 2 ==> (#[trigger] matrix@[x])@.len() == m + 2,
            matrix@[0]@[0] == infinity,
            forall|x: int| 2 <= x < n + 2 ==> (#[trigger] matrix@[x])@[1] == x - 1 && matrix@[x]@[0] == infinity,
            matrix@[1]@[0] == infinity,
            forall|y: int| 1 <= y < ri + 1 ==> (#[trigger] matrix@[1]@[y]) == y - 1 && matrix@[0]@[y] == infinity,
        decreases m + 1 - ri,
    {
        set_cell(&mut matrix, 1, ri + 1, ri);
        set_cell(&mut matrix, 0, ri + 1, infinity);
        ri = ri + 1;
    }
    assert forall|y: int| 0 <= y < m + 2 implies (#[trigger] matrix@[0]@[y]) == infinity by {
        if y >= 1 {
            assert(matrix@[1]@[y] == y - 1);
        }
    }
    matrix
}

/// Every character of `a` and `b`, by code point, mapped to 0.
fn dl_seen(a: &Vec<char>, b: &Vec<char>) -> (last_seen: HashMap<u32, usize>)
    ensures
        forall|c: u32| #[trigger] last_seen@.contains_key(c) ==> last_seen@[c] == 0,
        forall|x: int| 0 <= x < a@.len() ==> last_seen@.contains_key(#[trigger] a@[x] as u32),
        forall|x: int| 0 <= x < b@.len() ==> last_seen@.contains_key(#[trigger] b@[x] as u32),
{
    let n = a.len();
    let m = b.len();
    let ghost av = a@;
    let ghost bv = b@;
    let mut last_seen: HashMap<u32, usize> = HashMap::new();
    let mut k: usize = 0;
    while k < n
        invariant
            forall|c: u32| #[trigger] last_seen@.contains_key(c) ==> last_seen@[c] == 0,
            forall|x: int| 0 <= x < k ==> last_seen@.contains_key(#[trigger] av[x] as u32),
            av == a@,
            n == av.len(),
            k <= n,
        decreases n - k,
    {
        let key = a[k] as u32;
        if !last_seen.contains_key(&key) {
            last_seen.insert(key, 0);
        }
        k = k + 1;
    }
    let mut k: usize = 0;
    while k < m
        invariant
            forall|c: u32| #[trigger] last_seen@.contains_key(c) ==> last_seen@[c] == 0,
            forall|x: int| 0 <= x < n ==> last_seen@.contains_key(#[trigger] av[x] as u32),
            forall|x: int| 0 <= x < k ==> last_seen@.contains_key(#[trigger] bv[x] as u32),
            av == a@,
            bv == b@,
            n == av.len(),
            m == bv.len(),
            k <= m,
        decreases m - k,
    {
        let key = b[k] as u32;
        if !last_seen.contains_key(&key) {
            last_seen.insert(key, 0);
        }
        k = k + 1;
    }
    last_seen
}

pub fn damerau_levenshtein(left: &str, right: &str) -> (r: usize)
    requires
        left@.len() + right@.len() <= usize::MAX / 4,
    ensures
        r == damerau_distance(left@, right@),
{
    let a = chars_of(left);
    let b = chars_of(right);
    let n = a.len();
    let m = b.len();
    let infinity = n + m;
    let ghost av = a@;
    let ghost bv = b@;
    let mut matrix = dl_border(n, m, infinity);
    let mut last_seen = dl_seen(&a, &b);
    proof {
        assert forall|x: int, y: int| 0 <= x <= 1 && 0 <= y < m + 2 implies #[trigger] matrix@[x]@[y]
            == dl_cell(av, bv, x, y) by {
            if y >= 1 {
                assert(matrix@[1]@[y] == y - 1);
                assert(matrix@[0]@[y] == infinity);
            }
        }
    }
    let mut li: usize = 1;
    while li <= n
        invariant
            n + m <= usize::MAX / 4,
            infinity == n + m,
            av == a@,
            bv == b@,
            n == av.len(),
            m == bv.len(),
            1 <= li <= n + 1,
            matrix@.len() == n + 2,
            forall|x: int| 0 <= x < n + 2 ==> (#[trigger] matrix@[x])@.len() == m + 2,
            forall|x: int, y: int|
                0 <= x <= li && 0 <= y < m + 2 ==> #[trigger] matrix@[x]@[y] == dl_cell(av, bv, x, y),
            forall|x: int| li < x < n + 2 ==> (#[trigger] matrix@[x])@[0] == dl_cell(av, bv, x, 0) && matrix@[x]@[1]
                == dl_cell(av, bv, x, 1),
            forall|x: int| 0 <= x < n ==> last_seen@.contains_key(#[trigger] av[x] as u32),
            forall|x: int| 0 <= x < m ==> last_seen@.contains_key(#[trigger] bv[x] as u32),
            forall|x: int| 0 <= x < m ==> last_seen@[#[trigger] bv[x] as u32] == last_row(av, bv[x], li - 1),
        decreases n + 1 - li,
    {
        let mut last_matching_right: usize = 0;
        let mut ri: usize = 1;
        while ri <= m
            invariant
                n + m <= usize::MAX / 4,
                infinity == n + m,
                av == a@,
                bv == b@,
                n == av.len(),
                m == bv.len(),
                1 <= li <= n,
                1 <= ri <= m + 1,
                matrix@.len() == n + 2,
                forall|x: int| 0 <= x < n + 2 ==> (#[trigger] matrix@[x])@.len() == m + 2,
                forall|x: int, y: int|
                    0 <= x <= li && 0 <= y < m + 2 ==> #[trigger] matrix@[x]@[y] == dl_cell(av, bv, x, y),
                forall|y: int| 0 <= y <= ri ==> #[trigger] matrix@[li + 1]@[y] == dl_cell(av, bv, li + 1, y),
                forall|x: int| li + 1 < x < n + 2 ==> (#[trigger] matrix@[x])@[0] == dl_cell(av, bv, x, 0)
                    && matrix@[x]@[1] == dl_cell(av, bv, x, 1),
                forall|x: int| 0 <= x < m ==> last_seen@.contains_key(#[trigger] bv[x] as u32),
                forall|x: int| 0 <= x < m ==> last_seen@[#[trigger] bv[x] as u32] == last_row(av, bv[x], li - 1),
                last_matching_right == last_row(bv, av[li - 1], ri - 1),
            decreases m + 1 - ri,
        {
            let key = b[ri - 1] as u32;
            let previous_left = *last_seen.get(&key).unwrap();
            let previous_right = last_matching_right;
            proof {
                lemma_last_row(av, bv[ri - 1], li - 1);
                lemma_last_row(bv, av[li - 1], ri - 1);
                lemma_dl_bounds(av, bv, li as int, ri as int);
                lemma_dl_bounds(av, bv, li + 1, ri as int);
                lemma_dl_bounds(av, bv, li as int, ri + 1);
                if previous_left >= 1 && previous_right >= 1 {
                    lemma_dl_bounds(av, bv, previous_left as int, previous_right as int);
                }
                assert(matrix@[previous_left as int]@[previous_right as int] == dl_cell(av, bv, previous_left as int, previous_right as int));
            }
            let mut v: usize;
            if a[li - 1] == b[ri - 1] {
                v = matrix[li][ri];
                last_matching_right = ri;
            } else {
                let x1 = matrix[li][ri] + 1;
                let x2 = matrix[li + 1][ri] + 1;
                let x3 = matrix[li][ri + 1] + 1;
                v = if x1 <= x2 { x1 } else { x2 };
                v = if v <= x3 { v } else { x3 };
            }
            let t = matrix[previous_left][previous_right] + (li - previous_left - 1) + 1 + (ri - previous_right - 1);
            if t < v {
                v = t;
            }
            proof {
                assert(v == dl_cell(av, bv, li + 1, ri + 1));
            }
            set_cell(&mut matrix, li + 1, ri + 1, v);
            ri = ri + 1;
        }
        let key = a[li - 1] as u32;
        let ghost before = last_seen@;
        last_seen.insert(key, li);
        proof {
            assert forall|x: int| 0 <= x < m implies last_seen@[#[trigger] bv[x] as u32] == last_row(
                av,
                bv[x],
                li as int,
            ) by {
                lemma_char_code(bv[x]);
                lemma_char_code(av[li - 1]);
                if bv[x] == av[li - 1] {
                    assert(bv[x] as u32 == key);
                } else {
                    assert(bv[x] as u32 != av[li - 1] as u32);
                    assert(last_seen@[bv[x] as u32] == before[bv[x] as u32]);
                }
            }
        }
        li = li + 1;
    }
    matrix[n + 1][m + 1]
}

/// A character's code point is its value as a `u32`.
proof fn lemma_char_code(c: char)
    ensures
        c as u32 == c as int,
{
    assert(0 <= c as int <= 0x10FFFF);
}

/// Sets cell `(i, j)` of a table to `v`.
fn set_cell(matrix: &mut Vec<Vec<usize>>, i: usize, j: usize, v: usize)
    requires
        i < old(matrix)@.len(),
        j < old(matrix)@[i as int]@.len(),
    ensures
        final(matrix)@.len() == old(matrix)@.len(),
        forall|x: int| 0 <= x < old(matrix)@.len() && x != i ==> #[trigger] final(matrix)@[x] == old(matrix)@[x],
        final(matrix)@[i as int]@ == old(matrix)@[i as int]@.update(j as int, v),
{
    let mut row: Vec<usize> = Vec::new();
    std::mem::swap(&mut row, &mut matrix[i]);
    row.set(j, v);
    std::mem::swap(&mut row, &mut matrix[i]);
}

/// The entry of one key of the dictionary: the positions of the words it
/// suggests, in the order they were recorded, and how many times the key
/// itself was added as a word since it last lost its suggestions.
#[derive(Debug)]
struct DictionaryEntry {
    suggestions: IndexSet<usize>,
    count: usize,
}

/// The mathematical value of an entry.
pub open spec fn entry_of(suggestions: Seq<usize>, count: nat) -> (Seq<usize>, nat) {
    (suggestions, count)
}

/// A suggestion: a dictionary word, its distance to the query and how many
/// times it was added.
#[derive(Debug, Clone, PartialEq, Eq)]
pub struct SymSpellSuggestion {
    pub term: String,
    pub distance: usize,
    pub count: usize,
}

/// A delete-based spelling index: every word added is recorded with the
/// words reached from it by deleting up to `max_distance` characters, and
/// those deletions point back to the words they came from.
#[derive(Debug)]
pub struct SymSpell {
    max_distance: usize,
    verbosity: u8,
    size: usize,
    keys: IndexSet<String>,
    entries: Vec<DictionaryEntry>,
    max_length: usize,
    words: Vec<String>,
}

/// The dictionary held by keys and entries side by side.
pub open spec fn dict_of(ks: Seq<Seq<char>>, es: Seq<(Seq<usize>, nat)>) -> Map<Seq<char>, (Seq<usize>, nat)> {
    Map::new(|k: Seq<char>| ks.contains(k), |k: Seq<char>| es[key_index(ks, k)])
}

impl SymSpell {
    /// The words recorded, in the order they were recorded.
    pub closed spec fn words_view(&self) -> Seq<Seq<char>> {
        self.words@.map_values(|w: String| w@)
    }

    /// The keys of the dictionary, in insertion order.
    closed spec fn keys_view(&self) -> Seq<Seq<char>> {
        key_order(self.keys)
    }

    /// The entries of the dictionary, at the positions of their keys.
    closed spec fn entries_view(&self) -> Seq<(Seq<usize>, nat)> {
        self.entries@.map_values(|e: DictionaryEntry| entry_of(index_order(e.suggestions), e.count as nat))
    }

    /// The dictionary: each key with its suggestions and count.
    pub closed spec fn dict(&self) -> Map<Seq<char>, (Seq<usize>, nat)> {
        dict_of(self.keys_view(), self.entries_view())
    }

    /// How many words were added.
    pub closed spec fn size_view(&self) -> nat {
        self.size as nat
    }

    /// The largest number of deletions indexed.
    pub closed spec fn max_distance_view(&self) -> nat {
        self.max_distance as nat
    }

    /// The verbosity: 0 keeps the best suggestion, 1 the best ones, 2 all.
    pub closed spec fn verbosity_view(&self) -> nat {
        self.verbosity as nat
    }

    /// The length of the longest key added as a word.
    pub closed spec fn max_length_view(&self) -> nat {
        self.max_length as nat
    }

    /// The index is well formed.
    pub closed spec fn wf(&self) -> bool {
        &&& 1 <= self.max_distance
        &&& self.verbosity <= 2
        &&& self.keys_view().len() == self.entries@.len()
        &&& self.keys_view().no_duplicates()
        &&& forall|p: int| 0 <= p < self.entries@.len() ==> (#[trigger] self.entries@[p]).count <= self.size
        &&& forall|i: int| 0 <= i < self.words@.len() ==> (#[trigger] self.words@[i])@.len() <= usize::MAX / 8
        &&& forall|p: int, t: int|
            0 <= p < self.entries@.len() && 0 <= t < index_order(self.entries@[p].suggestions).len() ==> {
                let i = #[trigger] index_order(self.entries@[p].suggestions)[t];
                &&& i < self.words@.len()
                &&& self.words@[i as int]@.len() > self.keys_view()[p].len()
            }
    }

    /// An index with the default options: up to 2 deletions, verbosity 2.
    pub fn new() -> (r: Self)
        ensures
            r.wf(),
            r.size_view() == 0,
            r.max_distance_view() == 2,
            r.verbosity_view() == 2,
            r.max_length_view() == 0,
            r.words_view() == Seq::<Seq<char>>::empty(),
            r.dict() == Map::<Seq<char>, (Seq<usize>, nat)>::empty(),
    {
        SymSpell::empty_with(2, 2)
    }

    /// An empty index with the given options, which must be valid.
    fn empty_with(max_distance: usize, verbosity: u8) -> (r: Self)
        requires
            1 <= max_distance,
            verbosity <= 2,
        ensures
            r.wf(),
            r.size_view() == 0,
            r.max_distance_view() == max_distance,
            r.verbosity_view() == verbosity,
            r.max_length_view() == 0,
            r.words_view() == Seq::<Seq<char>>::empty(),
            r.dict() == Map::<Seq<char>, (Seq<usize>, nat)>::empty(),
    {
        let r = SymSpell {
            max_distance,
            verbosity,
            size: 0,
            keys: keys_new(),
            entries: Vec::new(),
            max_length: 0,
            words: Vec::new(),
        };
        proof {
            assert(r.words_view() =~= Seq::<Seq<char>>::empty());
            assert(r.dict() =~= Map::<Seq<char>, (Seq<usize>, nat)>::empty());
        }
        r
    }

    /// An empty index that records up to `max_distance` deletions and keeps
    /// suggestions by `verbosity`; refused when `max_distance` is 0 or
    /// `verbosity` is above 2.
    pub fn with_options(max_distance: usize, verbosity: u8) -> (r: Result<Self, &'static str>)
        ensures
            max_distance == 0 ==> r is Err,
            max_distance > 0 && verbosity > 2 ==> r is Err,
            max_distance > 0 && verbosity <= 2 <==> r is Ok,
            r matches Ok(s) ==> s.wf() && s.size_view() == 0 && s.max_distance_view() == max_distance
                && s.verbosity_view() == verbosity && s.max_length_view() == 0 && s.words_view() == Seq::<
                Seq<char>,
            >::empty() && s.dict() == Map::<Seq<char>, (Seq<usize>, nat)>::empty(),
    {
        if max_distance == 0 {
            return Err("max_distance must be greater than zero");
        }
        if verbosity > 2 {
            return Err("verbosity must be 0, 1, or 2");
        }
        Ok(SymSpell::empty_with(max_distance, verbosity))
    }

    /// How many words were added.
    pub fn size(&self) -> (r: usize)
        ensures
            r == self.size_view(),
    {
        self.size
    }

    /// The largest number of deletions indexed.
    pub fn max_distance(&self) -> (r: usize)
        ensures
            r == self.max_distance_view(),
    {
        self.max_distance
    }

    /// The verbosity of searches.
    pub fn verbosity(&self) -> (r: u8)
        ensures
            r == self.verbosity_view(),
    {
        self.verbosity
    }

    /// Forgets every word, keeping the options.
    pub fn clear(&mut self)
        requires
            old(self).wf(),
        ensures
            final(self).wf(),
            final(self).size_view() == 0,
            final(self).max_length_view() == 0,
            final(self).words_view() == Seq::<Seq<char>>::empty(),
            final(self).dict() == Map::<Seq<char>, (Seq<usize>, nat)>::empty(),
            final(self).max_distance_view() == old(self).max_distance_view(),
            final(self).verbosity_view() == old(self).verbosity_view(),
    {
        self.size = 0;
        keys_clear(&mut self.keys);
        self.entries = Vec::new();
        self.max_length = 0;
        self.words = Vec::new();
        proof {
            assert(self.words_view() =~= Seq::<Seq<char>>::empty());
            assert(self.dict() =~= Map::<Seq<char>, (Seq<usize>, nat)>::empty());
        }
    }

    /// Records word `index` under the deletion `deleted`, as `absorb` says.
    fn absorb_one(&mut self, index: usize, deleted: &String)
        requires
            old(self).wf(),
            index < old(self).words@.len(),
            old(self).words@[index as int]@.len() > deleted@.len(),
        ensures
            final(self).wf(),
            final(self).dict() == absorb(
                old(self).words_view(),
                old(self).verbosity as nat,
                old(self).dict(),
                index,
                deleted@,
            ),
            final(self).words@ == old(self).words@,
            final(self).size == old(self).size,
            final(self).max_length == old(self).max_length,
            final(self).max_distance == old(self).max_distance,
            final(self).verbosity == old(self).verbosity,
    {
        let ghost ks = self.keys_view();
        let ghost es = self.entries_view();
        match keys_index_of(&self.keys, deleted.as_str()) {
            Some(p) => {
                proof {
                    lemma_key_index(ks, p as int);
                    assert(es[p as int] == entry_of(index_order(self.entries@[p as int].suggestions), self.entries@[p as int].count as nat));
                    assert(self.dict()[deleted@] == es[p as int]);
                }
                if !indexes_contains(&self.entries[p].suggestions, index) {
                    let mut e = DictionaryEntry { suggestions: indexes_new(), count: 0 };
                    std::mem::swap(&mut e, &mut self.entries[p]);
                    let ghost e_old = e;
                    add_lowest_distance(&self.words, self.verbosity, &mut e, index, deleted.as_str());
                    let ghost e_new = entry_of(index_order(e.suggestions), e.count as nat);
                    std::mem::swap(&mut e, &mut self.entries[p]);
                    proof {
                        assert(self.entries_view() =~= es.update(p as int, e_new));
                        lemma_dict_set(ks, es, p as int, e_new);
                        assert(self.keys_view() == ks);
                        assert forall|q: int, t: int|
                            0 <= q < self.entries@.len() && 0 <= t < index_order(self.entries@[q].suggestions).len() implies {
                                let i = #[trigger] index_order(self.entries@[q].suggestions)[t];
                                &&& i < self.words@.len()
                                &&& self.words@[i as int]@.len() > self.keys_view()[q].len()
                            } by {
                            if q == p {
                                let i = index_order(self.entries@[q].suggestions)[t];
                                if i != index {
                                    let u = choose|u: int| 0 <= u < index_order(e_old.suggestions).len() && index_order(e_old.suggestions)[u] == i;
                                    assert(index_order(old(self).entries@[q].suggestions)[u] == i);
                                }
                            } else {
                                assert(self.entries@[q] == old(self).entries@[q]);
                            }
                        }
                        assert forall|q: int| 0 <= q < self.entries@.len() implies (#[trigger] self.entries@[q]).count <= self.size by {
                            if q != p {
                                assert(self.entries@[q] == old(self).entries@[q]);
                            }
                        }
                    }
                }
            },
            None => {
                let mut sug = indexes_new();
                indexes_insert(&mut sug, index);
                let ghost e_new = entry_of(index_order(sug), 0);
                keys_insert_full(&mut self.keys, deleted.clone());
                self.entries.push(DictionaryEntry { suggestions: sug, count: 0 });
                proof {
                    assert(self.entries_view() =~= es.push(e_new));
                    assert(index_order(sug) =~= seq![index]);
                    lemma_dict_push(ks, es, deleted@, e_new);
                    assert forall|q: int, t: int|
                        0 <= q < self.entries@.len() && 0 <= t < index_order(self.entries@[q].suggestions).len() implies {
                            let i = #[trigger] index_order(self.entries@[q].suggestions)[t];
                            &&& i < self.words@.len()
                            &&& self.words@[i as int]@.len() > self.keys_view()[q].len()
                        } by {
                        if q < ks.len() {
                            assert(self.entries@[q] == old(self).entries@[q]);
                            assert(self.keys_view()[q] == ks[q]);
                        }
                    }
                    assert forall|q: int| 0 <= q < self.entries@.len() implies (#[trigger] self.entries@[q]).count <= self.size by {
                        if q < ks.len() {
                            assert(self.entries@[q] == old(self).entries@[q]);
                        }
                    }
                }
            },
        }
    }

    /// Adds `word`: its count goes up by one, and when that count becomes
    /// 1 the word is recorded, with every deletion of up to `max_distance`
    /// characters pointing back to it as `absorb_all` says.
    pub fn add(&mut self, word: &str)
        requires
            old(self).wf(),
            old(self).size_view() < usize::MAX,
            word@.len() <= usize::MAX / 8,
        ensures
            ({
                let o = *old(self);
                let f = *final(self);
                let known = o.dict().contains_key(word@);
                let c0: nat = if known { o.dict()[word@].1 } else { 0 };
                let s0 = if known { o.dict()[word@].0 } else { Seq::<usize>::empty() };
                let d1 = o.dict().insert(word@, entry_of(s0, c0 + 1));
                &&& f.wf()
                &&& f.size_view() == o.size_view() + 1
                &&& f.max_distance_view() == o.max_distance_view()
                &&& f.verbosity_view() == o.verbosity_view()
                &&& f.max_length_view() == (if known || o.max_length_view() >= word@.len() {
                    o.max_length_view()
                } else {
                    word@.len()
                })
                &&& c0 == 0 ==> f.words_view() == o.words_view().push(word@) && f.dict() == absorb_all(
                    f.words_view(),
                    o.verbosity_view(),
                    d1,
                    o.words_view().len() as usize,
                    visit_spec(word@, 0, o.max_distance_view(), Seq::empty()),
                )
                &&& c0 > 0 ==> f.words_view() == o.words_view() && f.dict() == d1
            }),
    {
        let ghost ks = self.keys_view();
        let ghost es = self.entries_view();
        let ghost known = self.dict().contains_key(word@);
        let ghost c0: nat = if known { self.dict()[word@].1 } else { 0 };
        let ghost s0 = if known { self.dict()[word@].0 } else { Seq::<usize>::empty() };
        let ghost d1s = self.dict().insert(word@, entry_of(s0, c0 + 1));
        self.size = self.size + 1;
        let count: usize;
        match keys_index_of(&self.keys, word) {
            Some(p) => {
                proof {
                    lemma_key_index(ks, p as int);
                    assert(es[p as int] == entry_of(index_order(self.entries@[p as int].suggestions), self.entries@[p as int].count as nat));
                }
                let mut e = DictionaryEntry { suggestions: indexes_new(), count: 0 };
                std::mem::swap(&mut e, &mut self.entries[p]);
                e.count = e.count + 1;
                count = e.count;
                let ghost e_new = entry_of(index_order(e.suggestions), e.count as nat);
                std::mem::swap(&mut e, &mut self.entries[p]);
                proof {
                    assert(self.entries_view() =~= es.update(p as int, e_new));
                    lemma_dict_set(ks, es, p as int, e_new);
                    assert forall|q: int, t: int|
                        0 <= q < self.entries@.len() && 0 <= t < index_order(self.entries@[q].suggestions).len() implies {
                            let i = #[trigger] index_order(self.entries@[q].suggestions)[t];
                            &&& i < self.words@.len()
                            &&& self.words@[i as int]@.len() > self.keys_view()[q].len()
                        } by {
                        if q != p {
                            assert(self.entries@[q] == old(self).entries@[q]);
                        }
                    }
                    assert forall|q: int| 0 <= q < self.entries@.len() implies (#[trigger] self.entries@[q]).count <= self.size by {
                        if q != p {
                            assert(self.entries@[q] == old(self).entries@[q]);
                        }
                    }
                }
            },
            None => {
                keys_insert_full(&mut self.keys, word.to_string());
                self.entries.push(DictionaryEntry { suggestions: indexes_new(), count: 1 });
                let ghost e_new = entry_of(Seq::<usize>::empty(), 1);
                proof {
                    assert(self.entries_view() =~= es.push(e_new));
                    lemma_dict_push(ks, es, word@, e_new);
                    assert forall|q: int, t: int|
                        0 <= q < self.entries@.len() && 0 <= t < index_order(self.entries@[q].suggestions).len() implies {
                            let i = #[trigger] index_order(self.entries@[q].suggestions)[t];
                            &&& i < self.words@.len()
                            &&& self.words@[i as int]@.len() > self.keys_view()[q].len()
                        } by {
                        if q < ks.len() {
                            assert(self.entries@[q] == old(self).entries@[q]);
                            assert(self.keys_view()[q] == ks[q]);
                        }
                    }
                    assert forall|q: int| 0 <= q < self.entries@.len() implies (#[trigger] self.entries@[q]).count <= self.size by {
                        if q < ks.len() {
                            assert(self.entries@[q] == old(self).entries@[q]);
                        }
                    }
                }
                let length = string_length(word);
                if length > self.max_length {
                    self.max_length = length;
                }
                count = 1;
            },
        }
        assert(self.dict() == d1s);
        assert(count == c0 + 1);
        assert(self.words_view() == old(self).words_view());
        if count == 1 {
            let index = self.words.len();
            let ghost w0 = self.words_view();
            self.words.push(word.to_string());
            proof {
                assert(self.words_view() =~= w0.push(word@));
                assert forall|i: int| 0 <= i < self.words@.len() implies (#[trigger] self.words@[i])@.len() <= usize::MAX / 8 by {
                    if i < index {
                        assert(self.words@[i] == old(self).words@[i]);
                    }
                }
                assert forall|q: int, t: int|
                    0 <= q < self.entries@.len() && 0 <= t < index_order(self.entries@[q].suggestions).len() implies {
                        let i = #[trigger] index_order(self.entries@[q].suggestions)[t];
                        &&& i < self.words@.len()
                        &&& self.words@[i as int]@.len() > self.keys_view()[q].len()
                    } by {
                    let i = index_order(self.entries@[q].suggestions)[t];
                    assert(self.words@[i as int] == old(self).words@[i as int]) by {
                        assert(i < index);
                    }
                }
            }
            let ghost d1 = self.dict();
            let ghost ml = self.max_length;
            let dels = edits(word, self.max_distance);
            let ghost dv = key_order(dels);
            proof {
                lemma_visit_shorter(word@, 0, self.max_distance as nat, Seq::empty());
            }
            let n = keys_len(&dels);
            let mut j: usize = 0;
            while j < n
                invariant
                    self.wf(),
                    n == dv.len(),
                    dv == key_order(dels),
                    j <= n,
                    index < self.words@.len(),
                    self.words@[index as int]@ == word@,
                    forall|x: Seq<char>| #[trigger] dv.contains(x) ==> x.len() < word@.len(),
                    self.words_view() == w0.push(word@),
                    self.size == old(self).size + 1,
                    self.max_length == ml,
                    self.max_distance == old(self).max_distance,
                    self.verbosity == old(self).verbosity,
                    self.dict() == absorb_all(self.words_view(), self.verbosity as nat, d1, index, dv.take(j as int)),
                decreases n - j,
            {
                match keys_get_index(&dels, j) {
                    Some(deleted) => {
                        proof {
                            assert(dv.contains(dv[j as int]));
                            assert(self.words_view()[index as int] == word@);
                        }
                        self.absorb_one(index, deleted);
                        proof {
                            assert(dv.take(j + 1).drop_last() =~= dv.take(j as int));
                        }
                    },
                    None => {},
                }
                j = j + 1;
            }
            proof {
                assert(dv.take(n as int) =~= dv);
            }
        }
    }

    /// The suggestions for `input`: the dictionary keys and words reached
    /// by the delete-based search, each with its distance and count. The
    /// search gives up at once when `input`, less `max_distance`
    /// characters, is longer than every word added.
    pub fn search(&self, input: &str) -> (r: Vec<SymSpellSuggestion>)
        requires
            self.wf(),
            input@.len() <= usize::MAX / 8,
        ensures
            input@.len() >= self.max_distance_view() && input@.len() - self.max_distance_view()
                > self.max_length_view() ==> r@.len() == 0,
            self.verbosity_view() == 0 ==> r@.len() <= 1,
            forall|j: int|
                0 <= j < r@.len() ==> {
                    let sug = #[trigger] r@[j];
                    &&& self.dict().contains_key(sug.term@)
                    &&& sug.count == self.dict()[sug.term@].1
                    &&& sug.distance <= self.max_distance_view()
                    &&& (sug.distance == damerau_distance(sug.term@, input@) || (sug.term@ == input@ && sug.distance
                        == 0) || sug.distance + sug.term@.len() == input@.len())
                },
            forall|i: int, j: int| 0 <= i < j < r@.len() ==> r@[i].term@ != r@[j].term@,
            !(input@.len() >= self.max_distance_view() && input@.len() - self.max_distance_view() > self.max_length_view())
                && self.dict().contains_key(input@) && self.dict()[input@].1 > 0 ==> r@.len() >= 1 && r@[0].term@
                == input@ && r@[0].distance == 0 && (self.verbosity_view() < 2 ==> r@.len() == 1),
            sug_view(r@) == self.search_result(input@),
    {
        let length = string_length(input);
        if length >= self.max_distance && length - self.max_distance > self.max_length {
            return Vec::new();
        }
        let input_chars = chars_of(input);
        let mut level: Vec<String> = Vec::new();
        level.push(input.to_string());
        let mut candidate_set = keys_new();
        let mut suggestion_set = keys_new();
        let mut suggestions: Vec<SymSpellSuggestion> = Vec::new();
        let mut d: usize = 0;
        let mut stop = false;
        let ghost hit = self.dict().contains_key(input@) && self.dict()[input@].1 > 0;
        let ghost init = SearchState { seen: Seq::empty(), met: Seq::empty(), found: Seq::empty(), stop: false, next: Seq::empty() };
        let ghost goal = self.rounds(input@, init, seq![input@], self.max_distance_view() + 1);
        proof {
            assert(key_order(suggestion_set).len() == 0);
            assert(strings_view(level@) =~= seq![input@]);
            assert(sug_view(suggestions@) =~= Seq::<(Seq<char>, nat, nat)>::empty());
        }
        while !stop && level.len() > 0
            invariant
                goal == self.rounds(input@, init, seq![input@], self.max_distance_view() + 1),
                goal == self.rounds(
                    input@,
                    (SearchState {
                        seen: key_order(candidate_set),
                        met: key_order(suggestion_set),
                        found: sug_view(suggestions@),
                        stop: stop,
                        next: Seq::empty(),
                    }),
                    strings_view(level@),
                    (self.max_distance + 1 - d) as nat,
                ),
                hit == (self.dict().contains_key(input@) && self.dict()[input@].1 > 0),
                hit && d == 0 ==> suggestions@.len() == 0 && key_order(suggestion_set).len() == 0 && level@.len() == 1
                    && level@[0]@ == input@ && !stop,
                hit && d > 0 ==> suggestions@.len() >= 1 && suggestions@[0].term@ == input@ && suggestions@[0].distance
                    == 0 && (self.verbosity < 2 ==> stop && suggestions@.len() == 1),
                self.wf(),
                length == input@.len(),
                length <= usize::MAX / 8,
                input_chars@ == input@,
                d <= self.max_distance + 1,
                level@.len() > 0 ==> d <= self.max_distance,
                d <= length || level@.len() == 0,
                forall|k: int| 0 <= k < level@.len() ==> (#[trigger] level@[k])@.len() + d == length,
                forall|j: int|
                    0 <= j < suggestions@.len() ==> {
                        let sug = #[trigger] suggestions@[j];
                        &&& self.dict().contains_key(sug.term@)
                        &&& sug.count == self.dict()[sug.term@].1
                        &&& sug.distance <= self.max_distance
                        &&& (sug.distance == damerau_distance(sug.term@, input@) || (sug.term@ == input@
                            && sug.distance == 0) || sug.distance + sug.term@.len() == input@.len())
                        &&& key_order(suggestion_set).contains(sug.term@)
                    },
                forall|i: int, j: int| 0 <= i < j < suggestions@.len() ==> suggestions@[i].term@ != suggestions@[j].term@,
            decreases self.max_distance + 1 - d,
        {
            let mut next: Vec<String> = Vec::new();
            let mut k: usize = 0;
            let ghost d0 = d;
            let ghost lv = strings_view(level@);
            let ghost start = SearchState {
                seen: key_order(candidate_set),
                met: key_order(suggestion_set),
                found: sug_view(suggestions@),
                stop: stop,
                next: Seq::empty(),
            };
            proof {
                assert(lv.take(0) =~= Seq::<Seq<char>>::empty());
                assert(strings_view(next@) =~= Seq::<Seq<char>>::empty());
            }
            while k < level.len() && !stop
                invariant
                    lv == strings_view(level@),
                    !start.stop,
                    self.round_steps(input@, start, lv.take(k as int)) == (SearchState {
                        seen: key_order(candidate_set),
                        met: key_order(suggestion_set),
                        found: sug_view(suggestions@),
                        stop: stop,
                        next: strings_view(next@),
                    }),
                    hit == (self.dict().contains_key(input@) && self.dict()[input@].1 > 0),
                    d == d0,
                    hit && d == 0 && k == 0 ==> suggestions@.len() == 0 && key_order(suggestion_set).len() == 0
                        && level@.len() == 1 && level@[0]@ == input@ && !stop,
                    hit && (d > 0 || k > 0) ==> suggestions@.len() >= 1 && suggestions@[0].term@ == input@
                        && suggestions@[0].distance == 0 && (self.verbosity < 2 ==> stop && suggestions@.len() == 1),
                    self.wf(),
                    length == input@.len(),
                    length <= usize::MAX / 8,
                    input_chars@ == input@,
                    d <= self.max_distance,
                    d <= length,
                    k <= level@.len(),
                    forall|x: int| 0 <= x < level@.len() ==> (#[trigger] level@[x])@.len() + d == length,
                    forall|x: int| 0 <= x < next@.len() ==> (#[trigger] next@[x])@.len() + d + 1 == length,
                    next@.len() > 0 ==> d < self.max_distance,
                    forall|j: int|
                        0 <= j < suggestions@.len() ==> {
                            let sug = #[trigger] suggestions@[j];
                            &&& self.dict().contains_key(sug.term@)
                            &&& sug.count == self.dict()[sug.term@].1
                            &&& sug.distance <= self.max_distance
                            &&& (sug.distance == damerau_distance(sug.term@, input@) || (sug.term@ == input@
                                && sug.distance == 0) || sug.distance + sug.term@.len() == input@.len())
                            &&& key_order(suggestion_set).contains(sug.term@)
                        },
                    forall|i: int, j: int|
                        0 <= i < j < suggestions@.len() ==> suggestions@[i].term@ != suggestions@[j].term@,
                decreases level@.len() - k,
            {
                let candidate = &level[k];
                let ghost st0 = SearchState {
                    seen: key_order(candidate_set),
                    met: key_order(suggestion_set),
                    found: sug_view(suggestions@),
                    stop: stop,
                    next: strings_view(next@),
                };
                proof {
                    assert(lv[k as int] == candidate@);
                    assert(lv.take(k + 1).drop_last() =~= lv.take(k as int));
                    assert(lv.take(k + 1).last() == candidate@);
                    if suggestions@.len() > 0 {
                        assert(sug_view(suggestions@)[0].1 == suggestions@[0].distance);
                    }
                }
                k = k + 1;
                let candidate_length = string_length(candidate.as_str());
                if self.verbosity < 2 && suggestions.len() > 0 && length - candidate_length > suggestions[0].distance {
                    stop = true;
                } else {
                    let ghost met0 = key_order(suggestion_set);
                    let ghost found0 = sug_view(suggestions@);
                    match keys_index_of(&self.keys, candidate.as_str()) {
                        Some(p) => {
                            proof {
                                lemma_key_index(self.keys_view(), p as int);
                                assert(self.dict().contains_key(candidate@));
                                assert(self.dict()[candidate@].1 == self.entries@[p as int].count);
                                assert(self.dict()[candidate@].0 == index_order(self.entries@[p as int].suggestions));
                            }
                            let target = &self.entries[p];
                            if target.count > 0 {
                                let ghost before = key_order(suggestion_set);
                                let (_, added) = keys_insert_full(&mut suggestion_set, candidate.clone());
                                proof {
                                    lemma_keys_grow(before, key_order(suggestion_set), candidate@);
                                }
                                if added {
                                    let ghost s0 = suggestions@;
                                    suggestions.push(
                                        SymSpellSuggestion {
                                            term: candidate.clone(),
                                            distance: length - candidate_length,
                                            count: target.count,
                                        },
                                    );
                                    proof {
                                        assert forall|j: int| 0 <= j < s0.len() implies s0[j].term@ != candidate@ by {
                                            assert(before.contains(s0[j].term@));
                                        }
                                        assert(sug_view(suggestions@) =~= sug_view(s0).push(
                                            (candidate@, (length - candidate_length) as nat, self.dict()[candidate@].1),
                                        ));
                                    }
                                    if self.verbosity < 2 && length == candidate_length {
                                        stop = true;
                                    }
                                }
                            }
                            if !stop {
                                self.suggest_words(p, input, &input_chars, length, &mut suggestion_set, &mut suggestions);
                            }
                        },
                        None => {},
                    }
                    proof {
                        if suggestions@.len() > 0 {
                            assert(sug_view(suggestions@)[0].1 == suggestions@[0].distance);
                        }
                    }
                    let ghost seen0 = key_order(candidate_set);
                    let ghost next0 = strings_view(next@);
                    if !stop && length - candidate_length < self.max_distance {
                        if !(self.verbosity < 2 && suggestions.len() > 0 && length - candidate_length
                            >= suggestions[0].distance) {
                            let dels = one_character_deletes(candidate.as_str());
                            let ghost dv = deletes_of(candidate@);
                            let mut t: usize = 0;
                            proof {
                                assert(dv.take(0) =~= Seq::<Seq<char>>::empty());
                            }
                            while t < dels.len()
                                invariant
                                    dels@.map_values(|s: String| s@) == deletes_of(candidate@),
                                    dv == deletes_of(candidate@),
                                    t <= dels@.len(),
                                    candidate@.len() + d == length,
                                    d < self.max_distance,
                                    forall|x: int| 0 <= x < next@.len() ==> (#[trigger] next@[x])@.len() + d + 1 == length,
                                    (key_order(candidate_set), strings_view(next@)) == expand(seen0, next0, dv.take(t as int)),
                                decreases dels@.len() - t,
                            {
                                proof {
                                    assert(dels@.map_values(|s: String| s@)[t as int] == dels@[t as int]@);
                                    assert(deletes_of(candidate@).len() == candidate@.len());
                                    assert(dv.take(t + 1).drop_last() =~= dv.take(t as int));
                                    assert(dv.take(t + 1).last() == dels@[t as int]@);
                                }
                                let deleted = &dels[t];
                                let ghost nx = next@;
                                let (_, added) = keys_insert_full(&mut candidate_set, deleted.clone());
                                if added {
                                    next.push(deleted.clone());
                                    proof {
                                        assert(strings_view(next@) =~= strings_view(nx).push(deleted@));
                                    }
                                }
                                t = t + 1;
                            }
                            proof {
                                assert(dv.take(dels@.len() as int) =~= dv);
                            }
                        }
                    }
                    proof {
                        let c = candidate@;
                        let cand = self.candidate_step(input@, st0, c);
                        assert(!st0.stop);
                        assert(cand.met == key_order(suggestion_set));
                        assert(cand.found =~= sug_view(suggestions@));
                        assert(cand.stop == stop);
                        assert(cand.seen == key_order(candidate_set));
                        assert(cand.next == strings_view(next@));
                    }
                }
            }
            proof {
                if stop {
                    self.lemma_round_stopped(input@, start, lv, k as int);
                } else {
                    assert(lv.take(k as int) =~= lv);
                }
                let f = (self.max_distance + 1 - d) as nat;
                assert(f > 0);
                assert(lv.len() > 0);
                let s1 = self.round_steps(input@, start, lv);
                assert(start == (SearchState { seen: start.seen, met: start.met, found: start.found, stop: start.stop, next: Seq::empty() }));
                assert(self.rounds(input@, start, lv, f) == self.rounds(
                    input@,
                    (SearchState { seen: s1.seen, met: s1.met, found: s1.found, stop: s1.stop, next: Seq::empty() }),
                    s1.next,
                    (f - 1) as nat,
                ));
                if next@.len() > 0 {
                    assert(next@[0]@.len() + d + 1 == length);
                }
            }
            level = next;
            d = d + 1;
        }
        if self.verbosity == 0 {
            suggestions.truncate(1);
        }
        suggestions
    }

    /// Suggests the words that the entry at `p` points to, as a search for
    /// `input` does.
    fn suggest_words(
        &self,
        p: usize,
        input: &str,
        input_chars: &Vec<char>,
        length: usize,
        suggestion_set: &mut IndexSet<String>,
        suggestions: &mut Vec<SymSpellSuggestion>,
    )
        requires
            self.wf(),
            p < self.entries@.len(),
            input_chars@ == input@,
            length == input@.len(),
            length <= usize::MAX / 8,
            forall|j: int|
                0 <= j < old(suggestions)@.len() ==> {
                    let sug = #[trigger] old(suggestions)@[j];
                    &&& self.dict().contains_key(sug.term@)
                    &&& sug.count == self.dict()[sug.term@].1
                    &&& sug.distance <= self.max_distance
                    &&& (sug.distance == damerau_distance(sug.term@, input@) || (sug.term@ == input@ && sug.distance
                        == 0) || sug.distance + sug.term@.len() == input@.len())
                    &&& key_order(*old(suggestion_set)).contains(sug.term@)
                },
            forall|i: int, j: int|
                0 <= i < j < old(suggestions)@.len() ==> old(suggestions)@[i].term@ != old(suggestions)@[j].term@,
        ensures
            forall|j: int|
                0 <= j < final(suggestions)@.len() ==> {
                    let sug = #[trigger] final(suggestions)@[j];
                    &&& self.dict().contains_key(sug.term@)
                    &&& sug.count == self.dict()[sug.term@].1
                    &&& sug.distance <= self.max_distance
                    &&& (sug.distance == damerau_distance(sug.term@, input@) || (sug.term@ == input@ && sug.distance
                        == 0) || sug.distance + sug.term@.len() == input@.len())
                    &&& key_order(*final(suggestion_set)).contains(sug.term@)
                },
            forall|i: int, j: int|
                0 <= i < j < final(suggestions)@.len() ==> final(suggestions)@[i].term@ != final(suggestions)@[j].term@,
            forall|x: Seq<char>| key_order(*old(suggestion_set)).contains(x) ==> #[trigger] key_order(*final(suggestion_set)).contains(x),
            (key_order(*final(suggestion_set)), sug_view(final(suggestions)@)) == word_steps(
                self.words_view(),
                self.dict(),
                self.verbosity as nat,
                self.max_distance as nat,
                input@,
                (key_order(*old(suggestion_set)), sug_view(old(suggestions)@)),
                index_order(self.entries@[p as int].suggestions),
            ),
            self.verbosity == 2 ==> final(suggestions)@.len() >= old(suggestions)@.len() && forall|i: int|
                0 <= i < old(suggestions)@.len() ==> #[trigger] final(suggestions)@[i] == old(suggestions)@[i],
    {
        let target = &self.entries[p];
        let ghost idx = index_order(self.entries@[p as int].suggestions);
        let ghost st0 = (key_order(*suggestion_set), sug_view(suggestions@));
        proof {
            assert(idx.take(0) =~= Seq::<usize>::empty());
        }
        let ns = indexes_len(&target.suggestions);
        let mut t: usize = 0;
        while t < ns
            invariant
                self.wf(),
                p < self.entries@.len(),
                target == &self.entries@[p as int],
                ns == index_order(target.suggestions).len(),
                t <= ns,
                input_chars@ == input@,
                length == input@.len(),
                length <= usize::MAX / 8,
                forall|j: int|
                    0 <= j < suggestions@.len() ==> {
                        let sug = #[trigger] suggestions@[j];
                        &&& self.dict().contains_key(sug.term@)
                        &&& sug.count == self.dict()[sug.term@].1
                        &&& sug.distance <= self.max_distance
                        &&& (sug.distance == damerau_distance(sug.term@, input@) || (sug.term@ == input@
                            && sug.distance == 0) || sug.distance + sug.term@.len() == input@.len())
                        &&& key_order(*suggestion_set).contains(sug.term@)
                    },
                forall|i: int, j: int| 0 <= i < j < suggestions@.len() ==> suggestions@[i].term@ != suggestions@[j].term@,
                forall|x: Seq<char>| key_order(*old(suggestion_set)).contains(x) ==> #[trigger] key_order(*suggestion_set).contains(x),
                idx == index_order(target.suggestions),
                (key_order(*suggestion_set), sug_view(suggestions@)) == word_steps(
                    self.words_view(),
                    self.dict(),
                    self.verbosity as nat,
                    self.max_distance as nat,
                    input@,
                    st0,
                    idx.take(t as int),
                ),
                self.verbosity == 2 ==> suggestions@.len() >= old(suggestions)@.len() && forall|i: int|
                    0 <= i < old(suggestions)@.len() ==> #[trigger] suggestions@[i] == old(suggestions)@[i],
            decreases ns - t,
        {
            proof {
                assert(idx.take(t + 1).drop_last() =~= idx.take(t as int));
            }
            let ghost set0 = key_order(*suggestion_set);
            let ghost sv0 = suggestions@;
            match indexes_get(&target.suggestions, t) {
                Some(index) => {
                    proof {
                        assert(index_order(self.entries@[p as int].suggestions)[t as int] == index);
                        assert(idx.take(t + 1).last() == index);
                        assert(self.words_view()[index as int] == self.words@[index as int]@);
                    }
                    let term = &self.words[index];
                    let ghost before = key_order(*suggestion_set);
                    let (_, added) = keys_insert_full(suggestion_set, term.clone());
                    proof {
                        lemma_keys_grow(before, key_order(*suggestion_set), term@);
                    }
                    if added {
                        let term_chars = chars_of(term.as_str());
                        let steps = if chars_eq(&term_chars, input_chars) {
                            0
                        } else {
                            damerau_levenshtein(term.as_str(), input)
                        };
                        let ghost sn: nat = if term@ == input@ {
                            0
                        } else {
                            damerau_distance(term@, input@) as nat
                        };
                        proof {
                            assert(steps == sn);
                            if sv0.len() > 0 {
                                assert(sug_view(sv0)[0].1 == sv0[0].distance);
                            }
                        }
                        if self.verbosity < 2 && suggestions.len() > 0 && suggestions[0].distance > steps {
                            suggestions.clear();
                        }
                        let ghost sv1 = suggestions@;
                        proof {
                            let c1 = self.verbosity < 2 && sug_view(sv0).len() > 0 && sug_view(sv0)[0].1 > sn;
                            assert(sug_view(sv1) =~= (if c1 {
                                Seq::empty()
                            } else {
                                sug_view(sv0)
                            }));
                            if sv1.len() > 0 {
                                assert(sug_view(sv1)[0].1 == sv1[0].distance);
                            }
                        }
                        if !(self.verbosity < 2 && suggestions.len() > 0 && steps > suggestions[0].distance)
                            && steps <= self.max_distance {
                            match keys_index_of(&self.keys, term.as_str()) {
                                Some(q) => {
                                    proof {
                                        lemma_key_index(self.keys_view(), q as int);
                                        assert(self.dict()[term@].1 == self.entries@[q as int].count);
                                    }
                                    let ghost s0 = suggestions@;
                                    suggestions.push(
                                        SymSpellSuggestion {
                                            term: term.clone(),
                                            distance: steps,
                                            count: self.entries[q].count,
                                        },
                                    );
                                    proof {
                                        assert forall|j: int| 0 <= j < s0.len() implies s0[j].term@ != term@ by {
                                            assert(before.contains(s0[j].term@));
                                        }
                                        assert(sug_view(suggestions@) =~= sug_view(s0).push((term@, sn, self.dict()[term@].1)));
                                    }
                                },
                                None => {
                                    proof {
                                        assert(!self.dict().contains_key(term@));
                                    }
                                },
                            }
                        }
                    }
                    proof {
                        assert((key_order(*suggestion_set), sug_view(suggestions@)) == word_step(
                            self.words_view(),
                            self.dict(),
                            self.verbosity as nat,
                            self.max_distance as nat,
                            input@,
                            (set0, sug_view(sv0)),
                            index,
                        ));
                    }
                },
                None => {},
            }
            t = t + 1;
        }
        proof {
            assert(idx.take(ns as int) =~= idx);
        }
    }

    /// The positions of the words that the dictionary key `key` suggests,
    /// in the order they were recorded; nothing when `key` is no key.
    pub fn suggestions_of(&self, key: &str) -> (r: Option<Vec<usize>>)
        requires
            self.wf(),
        ensures
            !self.dict().contains_key(key@) <==> r is None,
            r matches Some(v) ==> v@ == self.dict()[key@].0,
    {
        match keys_index_of(&self.keys, key) {
            Some(p) => {
                proof {
                    lemma_key_index(self.keys_view(), p as int);
                }
                let target = &self.entries[p];
                let n = indexes_len(&target.suggestions);
                let mut out: Vec<usize> = Vec::new();
                let mut t: usize = 0;
                while t < n
                    invariant
                        n == index_order(target.suggestions).len(),
                        t <= n,
                        out@ == index_order(target.suggestions).take(t as int),
                    decreases n - t,
                {
                    match indexes_get(&target.suggestions, t) {
                        Some(i) => {
                            out.push(i);
                        },
                        None => {},
                    }
                    t = t + 1;
                    proof {
                        assert(out@ =~= index_order(target.suggestions).take(t as int));
                    }
                }
                proof {
                    assert(out@ =~= index_order(target.suggestions));
                }
                Some(out)
            },
            None => None,
        }
    }

    /// The recorded words within edit distance `radius` of `query`, each
    /// with its distance, nearest first and then by word.
    pub fn lookup(&self, query: &str, radius: usize) -> (r: Vec<(String, usize)>)
        ensures
            entries_view(r@).to_multiset() == within(self.words_view(), query@, radius as int).to_multiset(),
            entries_sorted(entries_view(r@)),
    {
        let mut results: Vec<(String, usize)> = Vec::new();
        let mut i: usize = 0;
        while i < self.words.len()
            invariant
                i <= self.words@.len(),
                entries_view(results@) == within(self.words_view().take(i as int), query@, radius as int),
            decreases self.words@.len() - i,
        {
            let word = &self.words[i];
            let d = levenshtein(word.as_str(), query);
            let ghost r0 = results@;
            proof {
                let ws = self.words_view().take(i + 1);
                assert(ws.drop_last() =~= self.words_view().take(i as int));
                assert(ws.last() == word@);
            }
            if d <= radius {
                results.push((word.clone(), d));
                proof {
                    assert(entries_view(results@) =~= entries_view(r0).push((word@, d as nat)));
                }
            }
            i = i + 1;
        }
        proof {
            assert(self.words_view().take(self.words@.len() as int) =~= self.words_view());
        }
        sort_entries(results)
    }
}

/// The terms, distances and counts of a list of suggestions.
pub open spec fn sug_view(v: Seq<SymSpellSuggestion>) -> Seq<(Seq<char>, nat, nat)> {
    v.map_values(|x: SymSpellSuggestion| (x.term@, x.distance as nat, x.count as nat))
}

/// What a search for `input` does with the word at `index` of `words`,
/// given the terms already met and the suggestions so far: a term met
/// before is skipped; otherwise it is met, its distance to `input` is
/// taken (0 when equal), below verbosity 2 farther suggestions are dropped
/// and a farther word is passed over, and a word within `max` that is a
/// key joins the suggestions with its count.
pub open spec fn word_step(
    words: Seq<Seq<char>>,
    dict: Map<Seq<char>, (Seq<usize>, nat)>,
    verbosity: nat,
    max: nat,
    input: Seq<char>,
    st: (Seq<Seq<char>>, Seq<(Seq<char>, nat, nat)>),
    index: usize,
) -> (Seq<Seq<char>>, Seq<(Seq<char>, nat, nat)>) {
    let term = words[index as int];
    if st.0.contains(term) {
        st
    } else {
        let steps: nat = if term == input {
            0
        } else {
            damerau_distance(term, input) as nat
        };
        let s1 = if verbosity < 2 && st.1.len() > 0 && st.1[0].1 > steps {
            Seq::empty()
        } else {
            st.1
        };
        let s2 = if !(verbosity < 2 && s1.len() > 0 && steps > s1[0].1) && steps <= max && dict.contains_key(term) {
            s1.push((term, steps, dict[term].1))
        } else {
            s1
        };
        (st.0.push(term), s2)
    }
}

/// `word_step` for each position of `idx`, in order.
pub open spec fn word_steps(
    words: Seq<Seq<char>>,
    dict: Map<Seq<char>, (Seq<usize>, nat)>,
    verbosity: nat,
    max: nat,
    input: Seq<char>,
    st: (Seq<Seq<char>>, Seq<(Seq<char>, nat, nat)>),
    idx: Seq<usize>,
) -> (Seq<Seq<char>>, Seq<(Seq<char>, nat, nat)>)
    decreases idx.len(),
{
    if idx.len() == 0 {
        st
    } else {
        word_step(words, dict, verbosity, max, input, word_steps(words, dict, verbosity, max, input, st, idx.drop_last()), idx.last())
    }
}

/// The views of a sequence of strings.
pub open spec fn strings_view(v: Seq<String>) -> Seq<Seq<char>> {
    v.map_values(|x: String| x@)
}

/// Where a search stands: the candidates queued so far, the terms met, the
/// suggestions found (term, distance, count), whether it stopped, and the
/// candidates queued for the next round.
pub struct SearchState {
    pub seen: Seq<Seq<char>>,
    pub met: Seq<Seq<char>>,
    pub found: Seq<(Seq<char>, nat, nat)>,
    pub stop: bool,
    pub next: Seq<Seq<char>>,
}

/// Queues, in order, each of `dels` not queued before.
pub open spec fn expand(seen: Seq<Seq<char>>, next: Seq<Seq<char>>, dels: Seq<Seq<char>>) -> (Seq<Seq<char>>, Seq<Seq<char>>)
    decreases dels.len(),
{
    if dels.len() == 0 {
        (seen, next)
    } else {
        let e = expand(seen, next, dels.drop_last());
        if e.0.contains(dels.last()) {
            e
        } else {
            (e.0.push(dels.last()), e.1.push(dels.last()))
        }
    }
}

impl SymSpell {
    /// What a search for `input` does with the candidate `c`, `input` less
    /// some characters. Below verbosity 2 it stops once the candidate lies
    /// farther than the first suggestion. Otherwise a key `c` added as a
    /// word is suggested (and below verbosity 2 an exact hit ends the
    /// search), the words that the key points to are weighed, and while
    /// fewer than `max_distance` characters are gone the deletions of `c`
    /// are queued for the next round (below verbosity 2, only while they
    /// can still come closer than the first suggestion).
    pub open spec fn candidate_step(&self, input: Seq<char>, st: SearchState, c: Seq<char>) -> SearchState {
        let gap: int = input.len() - c.len();
        let v = self.verbosity_view();
        let dict = self.dict();
        if st.stop {
            st
        } else if v < 2 && st.found.len() > 0 && gap > st.found[0].1 {
            SearchState { seen: st.seen, met: st.met, found: st.found, stop: true, next: st.next }
        } else {
            let hit = dict.contains_key(c) && dict[c].1 > 0 && !st.met.contains(c);
            let met1 = if hit { st.met.push(c) } else { st.met };
            let found1 = if hit { st.found.push((c, gap as nat, dict[c].1)) } else { st.found };
            let stop1 = hit && v < 2 && gap == 0;
            let w = if !stop1 && dict.contains_key(c) {
                word_steps(self.words_view(), dict, v, self.max_distance_view(), input, (met1, found1), dict[c].0)
            } else {
                (met1, found1)
            };
            let grow = !stop1 && gap < self.max_distance_view() && !(v < 2 && w.1.len() > 0 && gap >= w.1[0].1);
            let e = if grow {
                expand(st.seen, st.next, deletes_of(c))
            } else {
                (st.seen, st.next)
            };
            SearchState { seen: e.0, met: w.0, found: w.1, stop: stop1, next: e.1 }
        }
    }

    /// `candidate_step` for each candidate of a round, in order.
    pub open spec fn round_steps(&self, input: Seq<char>, st: SearchState, level: Seq<Seq<char>>) -> SearchState
        decreases level.len(),
    {
        if level.len() == 0 {
            st
        } else {
            self.candidate_step(input, self.round_steps(input, st, level.drop_last()), level.last())
        }
    }

    /// The rounds of a search from `st` with the candidates `level`, at
    /// most `fuel` of them, until it stops or no candidate is left.
    pub open spec fn rounds(&self, input: Seq<char>, st: SearchState, level: Seq<Seq<char>>, fuel: nat) -> SearchState
        decreases fuel,
    {
        if fuel == 0 || st.stop || level.len() == 0 {
            st
        } else {
            let s1 = self.round_steps(
                input,
                SearchState { seen: st.seen, met: st.met, found: st.found, stop: st.stop, next: Seq::empty() },
                level,
            );
            self.rounds(
                input,
                SearchState { seen: s1.seen, met: s1.met, found: s1.found, stop: s1.stop, next: Seq::empty() },
                s1.next,
                (fuel - 1) as nat,
            )
        }
    }

    /// The suggestions a search for `input` gives, as (term, distance,
    /// count): nothing when `input` less `max_distance` characters is
    /// longer than every word; otherwise those found by the rounds from
    /// `input` itself, only the first at verbosity 0.
    pub open spec fn search_result(&self, input: Seq<char>) -> Seq<(Seq<char>, nat, nat)> {
        let max = self.max_distance_view();
        if input.len() >= max && input.len() - max > self.max_length_view() {
            Seq::empty()
        } else {
            let init = SearchState { seen: Seq::empty(), met: Seq::empty(), found: Seq::empty(), stop: false, next: Seq::empty() };
            let found = self.rounds(input, init, seq![input], max + 1).found;
            if self.verbosity_view() == 0 && found.len() > 1 {
                found.take(1)
            } else {
                found
            }
        }
    }

    /// Once a round has stopped, the candidates after change nothing.
    proof fn lemma_round_stopped(&self, input: Seq<char>, st: SearchState, level: Seq<Seq<char>>, k: int)
        requires
            0 <= k <= level.len(),
            self.round_steps(input, st, level.take(k)).stop,
        ensures
            self.round_steps(input, st, level) == self.round_steps(input, st, level.take(k)),
        decreases level.len() - k,
    {
        if k < level.len() {
            assert(level.take(k + 1).drop_last() =~= level.take(k));
            self.lemma_round_stopped(input, st, level, k + 1);
        } else {
            assert(level.take(k) =~= level);
        }
    }
}

/// What recording word `index` under a deletion does to the entry `e` of
/// that deletion when the entry does not list it yet: below verbosity 2 a
/// suggestion longer than the new word is dropped with the count, and the
/// new word is listed unless a shorter suggestion remains first.
pub open spec fn lowest_step(words: Seq<Seq<char>>, verbosity: nat, e: (Seq<usize>, nat), index: usize) -> (Seq<usize>, nat) {
    let cleared = verbosity < 2 && e.0.len() > 0 && words[e.0[0] as int].len() > words[index as int].len();
    let e1 = if cleared {
        entry_of(Seq::<usize>::empty(), 0)
    } else {
        e
    };
    if verbosity == 2 || e1.0.len() == 0 || words[e1.0[0] as int].len() >= words[index as int].len() {
        entry_of(e1.0.push(index), e1.1)
    } else {
        e1
    }
}

/// The dictionary after recording word `index` under `deleted`: a new key
/// lists the word alone with count 0; a key that lists it already is left
/// as it is; any other takes `lowest_step`.
pub open spec fn absorb(
    words: Seq<Seq<char>>,
    verbosity: nat,
    dict: Map<Seq<char>, (Seq<usize>, nat)>,
    index: usize,
    deleted: Seq<char>,
) -> Map<Seq<char>, (Seq<usize>, nat)> {
    if !dict.contains_key(deleted) {
        dict.insert(deleted, entry_of(seq![index], 0))
    } else if dict[deleted].0.contains(index) {
        dict
    } else {
        dict.insert(deleted, lowest_step(words, verbosity, dict[deleted], index))
    }
}

/// `absorb` for every deletion of `dels`, in order.
pub open spec fn absorb_all(
    words: Seq<Seq<char>>,
    verbosity: nat,
    dict: Map<Seq<char>, (Seq<usize>, nat)>,
    index: usize,
    dels: Seq<Seq<char>>,
) -> Map<Seq<char>, (Seq<usize>, nat)>
    decreases dels.len(),
{
    if dels.len() == 0 {
        dict
    } else {
        absorb(words, verbosity, absorb_all(words, verbosity, dict, index, dels.drop_last()), index, dels.last())
    }
}

/// Everything `visit_from` records beyond `acc` is shorter than `w`.
proof fn lemma_visit_from_shorter(w: Seq<char>, i: nat, d: nat, max: nat, acc: Seq<Seq<char>>)
    ensures
        forall|x: Seq<char>| #[trigger] visit_from(w, i, d, max, acc).contains(x) ==> acc.contains(x) || x.len() < w.len(),
    decreases w.len(), 0nat, w.len() - i,
{
    if i < w.len() {
        let del = w.remove(i as int);
        let acc1 = if acc.contains(del) {
            acc
        } else if d < max {
            visit_spec(del, d, max, acc.push(del))
        } else {
            acc.push(del)
        };
        if !acc.contains(del) && d < max {
            lemma_visit_shorter(del, d, max, acc.push(del));
        }
        assert forall|x: Seq<char>| #[trigger] acc1.contains(x) implies acc.contains(x) || x.len() < w.len() by {
            if acc.push(del).contains(x) && !acc.contains(x) {
                let t = choose|t: int| 0 <= t < acc.push(del).len() && acc.push(del)[t] == x;
                assert(t == acc.len());
            }
        }
        lemma_visit_from_shorter(w, i + 1, d, max, acc1);
        assert(visit_from(w, i, d, max, acc) == visit_from(w, i + 1, d, max, acc1));
    } else {
        assert(visit_from(w, i, d, max, acc) == acc);
    }
}

/// Everything `visit_spec` records beyond `acc` is shorter than `w`.
proof fn lemma_visit_shorter(w: Seq<char>, d: nat, max: nat, acc: Seq<Seq<char>>)
    ensures
        forall|x: Seq<char>| #[trigger] visit_spec(w, d, max, acc).contains(x) ==> acc.contains(x) || x.len() < w.len(),
    decreases w.len(), 1nat, 0nat,
{
    if w.len() > 1 {
        lemma_visit_from_shorter(w, 0, d + 1, max, acc);
        assert(visit_spec(w, d, max, acc) == visit_from(w, 0, d + 1, max, acc));
    } else {
        assert(visit_spec(w, d, max, acc) == acc);
    }
}

/// Inserting `k` into a set of keys keeps every key and holds `k`.
proof fn lemma_keys_grow(before: Seq<Seq<char>>, after: Seq<Seq<char>>, k: Seq<char>)
    requires
        after == before.push(k) || (after == before && before.contains(k)),
    ensures
        after.contains(k),
        forall|x: Seq<char>| before.contains(x) ==> #[trigger] after.contains(x),
{
    if after == before.push(k) {
        assert(after[before.len() as int] == k);
        assert forall|x: Seq<char>| before.contains(x) implies #[trigger] after.contains(x) by {
            let t = choose|t: int| 0 <= t < before.len() && before[t] == x;
            assert(after[t] == x);
        }
    }
}

/// Setting the entry of the key at `p`.
proof fn lemma_dict_set(ks: Seq<Seq<char>>, es: Seq<(Seq<usize>, nat)>, p: int, e: (Seq<usize>, nat))
    requires
        ks.no_duplicates(),
        ks.len() == es.len(),
        0 <= p < ks.len(),
    ensures
        dict_of(ks, es.update(p, e)) == dict_of(ks, es).insert(ks[p], e),
{
    lemma_key_index(ks, p);
    assert forall|k: Seq<char>| ks.contains(k) && k != ks[p] implies key_index(ks, k) != p by {
    }
    assert(dict_of(ks, es.update(p, e)) =~= dict_of(ks, es).insert(ks[p], e));
}

/// Adding a new key with its entry.
proof fn lemma_dict_push(ks: Seq<Seq<char>>, es: Seq<(Seq<usize>, nat)>, k: Seq<char>, e: (Seq<usize>, nat))
    requires
        ks.no_duplicates(),
        ks.len() == es.len(),
        !ks.contains(k),
    ensures
        ks.push(k).no_duplicates(),
        dict_of(ks.push(k), es.push(e)) == dict_of(ks, es).insert(k, e),
{
    lemma_push_distinct(ks, k);
    let ks1 = ks.push(k);
    lemma_key_index(ks1, ks.len() as int);
    assert forall|x: Seq<char>| ks.contains(x) implies key_index(ks1, x) == key_index(ks, x) by {
        let i = key_index(ks, x);
        lemma_key_index(ks, i);
        assert(ks1[i] == x);
        lemma_key_index(ks1, i);
    }
    assert forall|x: Seq<char>| ks1.contains(x) <==> ks.contains(x) || x == k by {
        if ks1.contains(x) && x != k {
            let t = choose|t: int| 0 <= t < ks1.len() && ks1[t] == x;
            assert(ks[t] == x);
        }
        if ks.contains(x) {
            let t = choose|t: int| 0 <= t < ks.len() && ks[t] == x;
            assert(ks1[t] == x);
        }
        if x == k {
            assert(ks1[ks.len() as int] == k);
        }
    }
    assert forall|x: Seq<char>| #[trigger] ks.contains(x) implies es.push(e)[key_index(ks1, x)] == es[key_index(ks, x)] by {
        let t = choose|t: int| 0 <= t < ks.len() && ks[t] == x;
        lemma_key_index(ks, t);
    }
    assert(dict_of(ks1, es.push(e)) =~= dict_of(ks, es).insert(k, e));
}

/// Records word `index` under entry `target` of the deletion `deleted`,
/// as `lowest_step` says.
fn add_lowest_distance(words: &Vec<String>, verbosity: u8, target: &mut DictionaryEntry, index: usize, deleted: &str)
    requires
        index < words@.len(),
        words@[index as int]@.len() >= deleted@.len(),
        !index_order(old(target).suggestions).contains(index),
        forall|t: int|
            0 <= t < index_order(old(target).suggestions).len() ==> {
                let i = #[trigger] index_order(old(target).suggestions)[t];
                i < words@.len() && words@[i as int]@.len() >= deleted@.len()
            },
    ensures
        entry_of(index_order(final(target).suggestions), final(target).count as nat) == lowest_step(
            words@.map_values(|w: String| w@),
            verbosity as nat,
            entry_of(index_order(old(target).suggestions), old(target).count as nat),
            index,
        ),
        forall|t: int|
            0 <= t < index_order(final(target).suggestions).len() ==> {
                let i = #[trigger] index_order(final(target).suggestions)[t];
                i == index || index_order(old(target).suggestions).contains(i)
            },
        final(target).count <= old(target).count,
{
    let ghost ws = words@.map_values(|w: String| w@);
    let ghost e0 = entry_of(index_order(target.suggestions), target.count as nat);
    let deleted_length = string_length(deleted);
    let index_length = string_length(words[index].as_str());
    proof {
        assert(ws[index as int] == words@[index as int]@);
    }
    if verbosity < 2 && indexes_len(&target.suggestions) > 0 {
        match indexes_get(&target.suggestions, 0) {
            Some(first) => {
                proof {
                    assert(index_order(target.suggestions)[0] == first);
                    assert(ws[first as int] == words@[first as int]@);
                }
                if string_length(words[first].as_str()) - deleted_length > index_length - deleted_length {
                    indexes_clear(&mut target.suggestions);
                    target.count = 0;
                }
            },
            None => {},
        }
    }
    let ghost e1 = entry_of(index_order(target.suggestions), target.count as nat);
    proof {
        let cleared = verbosity < 2 && e0.0.len() > 0 && ws[e0.0[0] as int].len() > ws[index as int].len();
        assert(e1 == (if cleared { entry_of(Seq::<usize>::empty(), 0) } else { e0 }));
    }
    let mut keep = verbosity == 2 || indexes_len(&target.suggestions) == 0;
    if !keep {
        match indexes_get(&target.suggestions, 0) {
            Some(first) => {
                proof {
                    assert(index_order(target.suggestions)[0] == first);
                    assert(ws[first as int] == words@[first as int]@);
                }
                keep = string_length(words[first].as_str()) - deleted_length >= index_length - deleted_length;
            },
            None => {},
        }
    }
    proof {
        assert(keep == (verbosity == 2 || e1.0.len() == 0 || ws[e1.0[0] as int].len() >= ws[index as int].len()));
    }
    if keep {
        indexes_insert(&mut target.suggestions, index);
    }
}

} // verus!
