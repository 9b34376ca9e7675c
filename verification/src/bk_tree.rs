//! A Burkhard-Keller tree keyed by Levenshtein edge distance.
use vstd::prelude::*;
use crate::ranking::{entries_sorted, entries_view, sort_entries};
use crate::seq_facts::{lemma_map_preserves_multiset, lemma_no_dup_range_len, lemma_same_set_no_dup_multiset};
use crate::text::{
    chars_of, edit_distance, lemma_distance_symmetric, lemma_distance_triangle, levenshtein_chars,
};

verus! {

/// `key` lies within `radius` of `d`.
pub open spec fn in_window(key: int, d: int, radius: int) -> bool {
    d - radius <= key && key <= d + radius
}

/// The words of `ws` within `radius` of `q`, in order, each paired with its
/// distance to `q`.
pub open spec fn within(ws: Seq<Seq<char>>, q: Seq<char>, radius: int) -> Seq<(Seq<char>, nat)>
    decreases ws.len(),
{
    if ws.len() == 0 {
        seq![]
    } else {
        within(ws.drop_last(), q, radius) + if edit_distance(ws.last(), q) <= radius {
            seq![(ws.last(), edit_distance(ws.last(), q))]
        } else {
            seq![]
        }
    }
}

/// The child of node `p` below the edge labelled `d`, if there is one.
pub open spec fn edge_to(es: Seq<Seq<(usize, usize)>>, p: int, d: int) -> Option<int> {
    if exists|t: int| 0 <= t < es[p].len() && (#[trigger] es[p][t]).0 == d {
        Some(es[p][choose|t: int| 0 <= t < es[p].len() && (#[trigger] es[p][t]).0 == d].1 as int)
    } else {
        None
    }
}

/// The node below which the word `w` is hung: from `cur`, the edge
/// labelled with the distance from `w` to the node's word is followed as
/// long as there is one, at most `fuel` times.
pub open spec fn landing(es: Seq<Seq<(usize, usize)>>, ws: Seq<Seq<char>>, w: Seq<char>, cur: int, fuel: nat) -> int
    decreases fuel,
{
    if fuel == 0 {
        cur
    } else {
        match edge_to(es, cur, edit_distance(w, ws[cur]) as int) {
            Some(c) => landing(es, ws, w, c, (fuel - 1) as nat),
            None => cur,
        }
    }
}

/// The number of edges of `s` labelled below `d`.
pub open spec fn count_below(s: Seq<(usize, usize)>, d: int) -> int
    decreases s.len(),
{
    if s.len() == 0 {
        0
    } else {
        count_below(s.drop_last(), d) + if (s.last().0 as int) < d {
            1int
        } else {
            0int
        }
    }
}

/// The edges of a tree over the words `ws` once the word `w` is added: the
/// first word becomes the root; any other hangs below its landing node,
/// under an edge labelled with its distance to that node's word, among the
/// edges in order of label.
pub open spec fn added(es: Seq<Seq<(usize, usize)>>, ws: Seq<Seq<char>>, w: Seq<char>) -> Seq<Seq<(usize, usize)>> {
    if ws.len() == 0 {
        seq![Seq::empty()]
    } else {
        let p = landing(es, ws, w, 0, ws.len());
        let d = edit_distance(w, ws[p]) as int;
        es.update(p, es[p].insert(count_below(es[p], d), (d as usize, ws.len() as usize))).push(Seq::empty())
    }
}

/// The edges of the tree built by adding the words `ws` in order.
pub open spec fn shape(ws: Seq<Seq<char>>) -> Seq<Seq<(usize, usize)>>
    decreases ws.len(),
{
    if ws.len() == 0 {
        Seq::empty()
    } else {
        added(shape(ws.drop_last()), ws.drop_last(), ws.last())
    }
}

/// Edges whose labels grow from left to right, with the first `pos` below
/// `d` and the rest above it, have `pos` labels below `d`.
proof fn lemma_count_below(s: Seq<(usize, usize)>, d: int, pos: int)
    requires
        0 <= pos <= s.len(),
        forall|t: int| 0 <= t < pos ==> (#[trigger] s[t]).0 < d,
        forall|t: int| pos <= t < s.len() ==> (#[trigger] s[t]).0 > d,
    ensures
        count_below(s, d) == pos,
    decreases s.len(),
{
    if s.len() > 0 {
        let last = s.len() - 1;
        assert(s.drop_last().len() == last);
        if pos == s.len() {
            assert(s[last].0 < d);
            lemma_count_below(s.drop_last(), d, pos - 1);
        } else {
            assert(s[last].0 > d);
            lemma_count_below(s.drop_last(), d, pos);
        }
    }
}

/// A Burkhard-Keller tree. Node `k` holds the `k`-th added word; node `0`
/// is the root, and every other node hangs below an earlier one, under the
/// edge labelled with its distance to that node.
pub struct BkTree {
    words: Vec<String>,
    chars: Vec<Vec<char>>,
    children: Vec<Vec<(usize, usize)>>,
    parents: Ghost<Seq<int>>,
}

impl BkTree {
    /// The number of nodes.
    pub closed spec fn n(&self) -> int {
        self.words@.len() as int
    }

    /// The word of node `k`.
    pub closed spec fn w(&self, k: int) -> Seq<char> {
        self.words@[k]@
    }

    /// The words held, in insertion order.
    pub closed spec fn word_seq(&self) -> Seq<Seq<char>> {
        self.words@.map_values(|s: String| s@)
    }

    /// The edges of every node: pairs of distance and child node, in
    /// order of distance.
    pub closed spec fn edges(&self) -> Seq<Seq<(usize, usize)>> {
        self.children@.map_values(|v: Vec<(usize, usize)>| v@)
    }

    /// The edges below node `p`: pairs of distance and child node.
    pub closed spec fn kids(&self, p: int) -> Seq<(usize, usize)> {
        self.children@[p]@
    }

    /// The parent of node `k`.
    pub closed spec fn par(&self, k: int) -> int {
        self.parents@[k]
    }

    /// Node `k` lies in the subtree of node `a`.
    pub open spec fn desc(&self, k: int, a: int) -> bool
        decreases k,
    {
        if k == a {
            true
        } else if 0 < k && a < k && k < self.n() && 0 <= self.par(k) < k {
            self.desc(self.par(k), a)
        } else {
            false
        }
    }

    /// Distance from the word of node `k` to the query.
    pub open spec fn dist(&self, k: int, q: Seq<char>) -> int {
        edit_distance(self.w(k), q) as int
    }

    /// The nodes a radius search visits from `p`, in visiting order.
    pub open spec fn visit(&self, p: int, q: Seq<char>, radius: int) -> Seq<int>
        decreases self.n() - p, self.kids(p).len() + 1,
    {
        if 0 <= p < self.n() {
            seq![p] + self.visit_list(p, 0, q, radius)
        } else {
            seq![]
        }
    }

    /// The nodes visited below the edges of `p` from the `t`-th on.
    pub open spec fn visit_list(&self, p: int, t: int, q: Seq<char>, radius: int) -> Seq<int>
        decreases self.n() - p, self.kids(p).len() - t,
    {
        if 0 <= p < self.n() && 0 <= t < self.kids(p).len() {
            let c = self.kids(p)[t].1 as int;
            let rest = self.visit_list(p, t + 1, q, radius);
            if in_window(self.kids(p)[t].0 as int, self.dist(p, q), radius) && p < c < self.n() {
                self.visit(c, q, radius) + rest
            } else {
                rest
            }
        } else {
            seq![]
        }
    }

    /// The nodes within `radius` of the query that a search from `p`
    /// reports, in visiting order.
    pub closed spec fn hits(&self, p: int, q: Seq<char>, radius: int) -> Seq<int>
        decreases self.n() - p, self.kids(p).len() + 1,
    {
        if 0 <= p < self.n() {
            (if self.dist(p, q) <= radius {
                seq![p]
            } else {
                seq![]
            }) + self.hits_list(p, 0, q, radius)
        } else {
            seq![]
        }
    }

    /// The reported nodes below the edges of `p` from the `t`-th on.
    pub closed spec fn hits_list(&self, p: int, t: int, q: Seq<char>, radius: int) -> Seq<int>
        decreases self.n() - p, self.kids(p).len() - t,
    {
        if 0 <= p < self.n() && 0 <= t < self.kids(p).len() {
            let c = self.kids(p)[t].1 as int;
            let rest = self.hits_list(p, t + 1, q, radius);
            if in_window(self.kids(p)[t].0 as int, self.dist(p, q), radius) && p < c < self.n() {
                self.hits(c, q, radius) + rest
            } else {
                rest
            }
        } else {
            seq![]
        }
    }

    /// Node `c` is listed among the edges of its parent.
    pub closed spec fn has_slot(&self, c: int) -> bool {
        exists|t: int| 0 <= t < self.kids(self.par(c)).len() && (#[trigger] self.kids(self.par(c))[t]).1 == c
    }

    /// The internal invariant of the tree.
    pub closed spec fn wf(&self) -> bool {
        &&& self.chars@.len() == self.n()
        &&& self.children@.len() == self.n()
        &&& self.parents@.len() == self.n()
        &&& forall|k: int| 0 <= k < self.n() ==> (#[trigger] self.chars@[k])@ == self.w(k)
        &&& forall|k: int| 1 <= k < self.n() ==> 0 <= #[trigger] self.par(k) < k
        &&& forall|p: int, t: int|
            0 <= p < self.n() && 0 <= t < self.kids(p).len() ==> p < (#[trigger] self.kids(p)[t]).1
                < self.n() && self.par(self.kids(p)[t].1 as int) == p && self.kids(p)[t].0
                == edit_distance(self.w(self.kids(p)[t].1 as int), self.w(p))
        &&& forall|p: int, t1: int, t2: int|
            0 <= p < self.n() && 0 <= t1 < t2 < self.kids(p).len() ==> (#[trigger] self.kids(p)[t1]).0
                < (#[trigger] self.kids(p)[t2]).0
        &&& forall|c: int| 1 <= c < self.n() ==> #[trigger] self.has_slot(c)
        &&& forall|k: int, c: int|
            1 <= c < self.n() && 0 <= k < self.n() && #[trigger] self.desc(k, c) ==> edit_distance(
                self.w(k),
                self.w(self.par(c)),
            ) == edit_distance(self.w(c), self.w(self.par(c)))
    }

    /// The closed views of the tree agree with its words and edges.
    pub proof fn lemma_views(&self)
        requires
            self.wf(),
        ensures
            self.n() == self.word_seq().len(),
            self.edges().len() == self.n(),
            forall|p: int| 0 <= p < self.n() ==> #[trigger] self.kids(p) == self.edges()[p],
            forall|k: int| 0 <= k < self.n() ==> #[trigger] self.w(k) == self.word_seq()[k],
    {
    }

    /// Following edges from `x` ends at the same node whatever the fuel, as
    /// long as it covers the nodes after `x`.
    proof fn lemma_landing_fuel(&self, w: Seq<char>, x: int, f1: nat, f2: nat)
        requires
            self.wf(),
            0 <= x < self.n(),
            f1 >= self.n() - x,
            f2 >= self.n() - x,
        ensures
            landing(self.edges(), self.word_seq(), w, x, f1) == landing(self.edges(), self.word_seq(), w, x, f2),
        decreases f1,
    {
        let es = self.edges();
        let d = edit_distance(w, self.word_seq()[x]) as int;
        assert(es[x] == self.kids(x));
        if let Some(c) = edge_to(es, x, d) {
            let t = choose|t: int| 0 <= t < es[x].len() && (#[trigger] es[x][t]).0 == d;
            assert(self.kids(x)[t].1 == c);
            self.lemma_landing_fuel(w, c, (f1 - 1) as nat, (f2 - 1) as nat);
        }
    }

    /// The edge of `p` labelled `d` found at position `t` is the one that
    /// `edge_to` names.
    proof fn lemma_edge_to(&self, p: int, t: int, d: int)
        requires
            self.wf(),
            0 <= p < self.n(),
            0 <= t < self.kids(p).len(),
            self.kids(p)[t].0 == d,
        ensures
            edge_to(self.edges(), p, d) == Some(self.kids(p)[t].1 as int),
    {
        let es = self.edges();
        assert(es[p] == self.kids(p));
        assert(es[p][t].0 == d);
        let u = choose|u: int| 0 <= u < es[p].len() && (#[trigger] es[p][u]).0 == d;
        if u < t {
            assert(self.kids(p)[u].0 < self.kids(p)[t].0);
        } else if t < u {
            assert(self.kids(p)[t].0 < self.kids(p)[u].0);
        }
    }

    /// A node lies at or after every node whose subtree holds it.
    proof fn lemma_desc_le(&self, k: int, a: int)
        requires
            self.desc(k, a),
        ensures
            a <= k,
        decreases k,
    {
        if k != a {
            self.lemma_desc_le(self.par(k), a);
        }
    }

    /// A node below a child of `p` lies below `p`.
    proof fn lemma_desc_through(&self, k: int, c: int)
        requires
            self.wf(),
            1 <= c < self.n(),
            self.desc(k, c),
        ensures
            self.desc(k, self.par(c)),
        decreases k,
    {
        if k == c {
            assert(self.desc(self.par(c), self.par(c)));
        } else {
            self.lemma_desc_through(self.par(k), c);
        }
    }

    /// Below `p`, every other node lies below one child of `p`.
    proof fn lemma_child_toward(&self, k: int, p: int) -> (c: int)
        requires
            self.wf(),
            0 <= p < k < self.n(),
            self.desc(k, p),
        ensures
            1 <= c < self.n(),
            self.par(c) == p,
            self.desc(k, c),
        decreases k,
    {
        if self.par(k) == p {
            k
        } else {
            self.lemma_desc_le(self.par(k), p);
            let c = self.lemma_child_toward(self.par(k), p);
            self.lemma_desc_le(self.par(k), c);
            c
        }
    }

    /// What a search from `p` visits and reports.
    proof fn lemma_search(&self, p: int, q: Seq<char>, radius: int)
        requires
            self.wf(),
            0 <= p < self.n(),
            radius >= 0,
        ensures
            self.visit(p, q, radius).no_duplicates(),
            forall|i: int|
                0 <= i < self.visit(p, q, radius).len() ==> p <= #[trigger] self.visit(p, q, radius)[i]
                    < self.n() && self.desc(self.visit(p, q, radius)[i], p),
            self.hits(p, q, radius).no_duplicates(),
            forall|k: int|
                #![trigger self.hits(p, q, radius).contains(k)]
                self.hits(p, q, radius).contains(k) <==> (p <= k < self.n() && self.desc(k, p)
                    && self.dist(k, q) <= radius),
        decreases self.n() - p, self.kids(p).len() + 1,
    {
        self.lemma_search_list(p, 0, q, radius);
        let v = self.visit(p, q, radius);
        let vl = self.visit_list(p, 0, q, radius);
        assert(v == seq![p] + vl);
        assert forall|i: int| 0 <= i < v.len() implies p <= #[trigger] v[i] < self.n() && self.desc(
            v[i],
            p,
        ) by {
            if i > 0 {
                assert(v[i] == vl[i - 1]);
            }
        }
        assert forall|i: int, j: int| 0 <= i < v.len() && 0 <= j < v.len() && i != j implies v[i]
            != v[j] by {
            if i > 0 && j > 0 {
                assert(v[i] == vl[i - 1]);
                assert(v[j] == vl[j - 1]);
            } else if i == 0 {
                assert(v[j] == vl[j - 1]);
            } else {
                assert(v[i] == vl[i - 1]);
            }
        }
        let h = self.hits(p, q, radius);
        let hl = self.hits_list(p, 0, q, radius);
        let head: Seq<int> = if self.dist(p, q) <= radius {
            seq![p]
        } else {
            seq![]
        };
        assert(h == head + hl);
        assert forall|i: int, j: int| 0 <= i < h.len() && 0 <= j < h.len() && i != j implies h[i]
            != h[j] by {
            if i >= head.len() && j >= head.len() {
                assert(h[i] == hl[i - head.len()]);
                assert(h[j] == hl[j - head.len()]);
            } else if i < head.len() {
                assert(h[j] == hl[j - head.len()]);
                assert(hl.contains(h[j]));
            } else {
                assert(h[i] == hl[i - head.len()]);
                assert(hl.contains(h[i]));
            }
        }
        assert forall|k: int| #![trigger h.contains(k)] h.contains(k) <==> (p <= k < self.n()
            && self.desc(k, p) && self.dist(k, q) <= radius) by {
            if h.contains(k) {
                let i = choose|i: int| 0 <= i < h.len() && h[i] == k;
                if i >= head.len() {
                    assert(hl[i - head.len()] == k);
                    assert(hl.contains(k));
                }
            }
            if p <= k < self.n() && self.desc(k, p) && self.dist(k, q) <= radius {
                if k == p {
                    assert(h[0] == p);
                } else {
                    let c = self.lemma_child_toward(k, p);
                    assert(self.has_slot(c));
                    let t = choose|t: int| 0 <= t < self.kids(p).len() && (#[trigger] self.kids(p)[t]).1 == c;
                    assert(self.kids(p)[t].0 >= self.kids(p)[0].0);
                    assert(hl.contains(k));
                    let j = choose|j: int| 0 <= j < hl.len() && hl[j] == k;
                    assert(h[j + head.len()] == k);
                }
            }
        }
    }

    /// What a search visits and reports below the edges of `p` from the
    /// `t`-th on.
    proof fn lemma_search_list(&self, p: int, t: int, q: Seq<char>, radius: int)
        requires
            self.wf(),
            0 <= p < self.n(),
            0 <= t <= self.kids(p).len(),
            radius >= 0,
        ensures
            self.visit_list(p, t, q, radius).no_duplicates(),
            forall|i: int|
                0 <= i < self.visit_list(p, t, q, radius).len() ==> p < #[trigger] self.visit_list(
                    p,
                    t,
                    q,
                    radius,
                )[i] < self.n() && self.desc(self.visit_list(p, t, q, radius)[i], p) && t < self.kids(
                    p,
                ).len() && edit_distance(self.w(self.visit_list(p, t, q, radius)[i]), self.w(p))
                    >= self.kids(p)[t].0,
            self.hits_list(p, t, q, radius).no_duplicates(),
            forall|k: int|
                #![trigger self.hits_list(p, t, q, radius).contains(k)]
                self.hits_list(p, t, q, radius).contains(k) <==> (p < k < self.n() && self.desc(k, p)
                    && self.dist(k, q) <= radius && t < self.kids(p).len() && edit_distance(
                    self.w(k),
                    self.w(p),
                ) >= self.kids(p)[t].0),
        decreases self.n() - p, self.kids(p).len() - t,
    {
        if t < self.kids(p).len() {
            let (key, cu) = self.kids(p)[t];
            let c = cu as int;
            self.lemma_search_list(p, t + 1, q, radius);
            self.lemma_search(c, q, radius);
            let vr = self.visit_list(p, t + 1, q, radius);
            let hr = self.hits_list(p, t + 1, q, radius);
            let vc = self.visit(c, q, radius);
            let hc = self.hits(c, q, radius);
            let open = in_window(key as int, self.dist(p, q), radius);
            // Everything below `c` sits at distance `key` from `p`.
            assert forall|k: int| 0 <= k < self.n() && #[trigger] self.desc(k, c) implies edit_distance(
                self.w(k),
                self.w(p),
            ) == key && self.desc(k, p) && p < k by {
                self.lemma_desc_through(k, c);
                self.lemma_desc_le(k, c);
            }
            if t + 1 < self.kids(p).len() {
                assert(self.kids(p)[t].0 < self.kids(p)[t + 1].0);
            }
            let v = self.visit_list(p, t, q, radius);
            let h = self.hits_list(p, t, q, radius);
            if open {
                assert(v == vc + vr);
                assert(h == hc + hr);
                assert forall|i: int| 0 <= i < v.len() implies p < #[trigger] v[i] < self.n()
                    && self.desc(v[i], p) && edit_distance(self.w(v[i]), self.w(p)) >= key by {
                    if i < vc.len() {
                        assert(v[i] == vc[i]);
                    } else {
                        assert(v[i] == vr[i - vc.len()]);
                    }
                }
                assert forall|i: int, j: int| 0 <= i < v.len() && 0 <= j < v.len() && i != j implies v[i]
                    != v[j] by {
                    if i < vc.len() && j < vc.len() {
                    } else if i >= vc.len() && j >= vc.len() {
                        assert(v[i] == vr[i - vc.len()]);
                        assert(v[j] == vr[j - vc.len()]);
                    } else if i < vc.len() {
                        assert(v[j] == vr[j - vc.len()]);
                    } else {
                        assert(v[i] == vr[i - vc.len()]);
                    }
                }
                assert forall|i: int, j: int| 0 <= i < h.len() && 0 <= j < h.len() && i != j implies h[i]
                    != h[j] by {
                    if i < hc.len() && j < hc.len() {
                    } else if i >= hc.len() && j >= hc.len() {
                        assert(h[i] == hr[i - hc.len()]);
                        assert(h[j] == hr[j - hc.len()]);
                    } else if i < hc.len() {
                        assert(h[j] == hr[j - hc.len()]);
                        assert(hr.contains(h[j]));
                        assert(hc.contains(h[i]));
                    } else {
                        assert(h[i] == hr[i - hc.len()]);
                        assert(hr.contains(h[i]));
                        assert(hc.contains(h[j]));
                    }
                }
            } else {
                assert(v == vr);
                assert(h == hr);
            }
            assert forall|k: int| #![trigger h.contains(k)] h.contains(k) <==> (p < k < self.n()
                && self.desc(k, p) && self.dist(k, q) <= radius && edit_distance(self.w(k), self.w(p))
                >= key) by {
                if h.contains(k) {
                    let i = choose|i: int| 0 <= i < h.len() && h[i] == k;
                    if open && i < hc.len() {
                        assert(hc[i] == k);
                        assert(hc.contains(k));
                    } else if open {
                        assert(hr[i - hc.len()] == k);
                        assert(hr.contains(k));
                    } else {
                        assert(hr.contains(k));
                    }
                }
                if p < k < self.n() && self.desc(k, p) && self.dist(k, q) <= radius && edit_distance(
                    self.w(k),
                    self.w(p),
                ) >= key {
                    let c2 = self.lemma_child_toward(k, p);
                    assert(self.has_slot(c2));
                    let t2 = choose|t2: int| 0 <= t2 < self.kids(p).len() && (#[trigger] self.kids(p)[t2]).1 == c2;
                    assert(edit_distance(self.w(k), self.w(p)) == self.kids(p)[t2].0);
                    if t2 == t {
                        lemma_distance_symmetric(self.w(p), self.w(k));
                        lemma_distance_symmetric(self.w(p), q);
                        lemma_distance_triangle(self.w(k), q, self.w(p));
                        lemma_distance_triangle(self.w(p), self.w(k), q);
                        assert(open);
                        assert(hc.contains(k));
                        let j = choose|j: int| 0 <= j < hc.len() && hc[j] == k;
                        assert(h[j] == k);
                    } else {
                        assert(t2 > t);
                        assert(hr.contains(k));
                        let j = choose|j: int| 0 <= j < hr.len() && hr[j] == k;
                        if open {
                            assert(h[j + hc.len()] == k);
                        } else {
                            assert(h[j] == k);
                        }
                    }
                }
            }
        }
    }

    /// The indices of the nodes before `k` within `radius` of `q`.
    pub closed spec fn idx_within(&self, k: int, q: Seq<char>, radius: int) -> Seq<int>
        decreases k,
    {
        if k <= 0 {
            seq![]
        } else {
            self.idx_within(k - 1, q, radius) + if self.dist(k - 1, q) <= radius {
                seq![k - 1]
            } else {
                seq![]
            }
        }
    }

    /// The value a search reports for node `k`.
    pub closed spec fn node_value(&self, q: Seq<char>) -> spec_fn(int) -> (Seq<char>, nat) {
        |k: int| (self.w(k), edit_distance(self.w(k), q))
    }

    /// The nodes before `k` within the radius, listed in order.
    proof fn lemma_idx_within(&self, k: int, q: Seq<char>, radius: int)
        requires
            0 <= k <= self.n(),
        ensures
            self.idx_within(k, q, radius).no_duplicates(),
            forall|j: int|
                #![trigger self.idx_within(k, q, radius).contains(j)]
                self.idx_within(k, q, radius).contains(j) <==> (0 <= j < k && self.dist(j, q) <= radius),
            forall|i: int|
                0 <= i < self.idx_within(k, q, radius).len() ==> 0 <= #[trigger] self.idx_within(
                    k,
                    q,
                    radius,
                )[i] < k,
            self.idx_within(k, q, radius).map_values(self.node_value(q)) == within(
                self.word_seq().take(k),
                q,
                radius,
            ),
        decreases k,
    {
        if k > 0 {
            self.lemma_idx_within(k - 1, q, radius);
            let prev = self.idx_within(k - 1, q, radius);
            let cur = self.idx_within(k, q, radius);
            assert(self.word_seq().take(k).drop_last() =~= self.word_seq().take(k - 1));
            assert(self.word_seq().take(k).last() == self.w(k - 1));
            if self.dist(k - 1, q) <= radius {
                assert(cur == prev.push(k - 1));
                assert(cur.map_values(self.node_value(q)) =~= prev.map_values(self.node_value(q)).push(
                    (self.w(k - 1), edit_distance(self.w(k - 1), q)),
                ));
                assert forall|j: int| #![trigger cur.contains(j)] cur.contains(j) <==> (0 <= j < k
                    && self.dist(j, q) <= radius) by {
                    if cur.contains(j) && j != k - 1 {
                        let i = choose|i: int| 0 <= i < cur.len() && cur[i] == j;
                        assert(prev[i] == j);
                        assert(prev.contains(j));
                    }
                    if 0 <= j < k - 1 && self.dist(j, q) <= radius {
                        assert(prev.contains(j));
                        let i = choose|i: int| 0 <= i < prev.len() && prev[i] == j;
                        assert(cur[i] == j);
                    }
                    if j == k - 1 && self.dist(j, q) <= radius {
                        assert(cur[cur.len() - 1] == j);
                    }
                }
            } else {
                assert(cur =~= prev);
                assert(within(self.word_seq().take(k), q, radius) =~= within(
                    self.word_seq().take(k - 1),
                    q,
                    radius,
                ));
            }
        } else {
            assert(self.idx_within(k, q, radius).map_values(self.node_value(q)) =~= seq![]);
        }
    }

    /// Lying below is transitive.
    proof fn lemma_desc_trans(&self, k: int, b: int, a: int)
        requires
            self.wf(),
            0 <= k < self.n(),
            self.desc(k, b),
            self.desc(b, a),
        ensures
            self.desc(k, a),
        decreases k,
    {
        if k != b {
            self.lemma_desc_trans(self.par(k), b, a);
            if k != a {
                self.lemma_desc_le(self.par(k), a);
            }
        }
    }

    /// A node lies below at most one child of a given node.
    proof fn lemma_one_child_toward(&self, k: int, c1: int, c2: int)
        requires
            self.wf(),
            1 <= c1 < self.n(),
            1 <= c2 < self.n(),
            self.par(c1) == self.par(c2),
            self.desc(k, c1),
            self.desc(k, c2),
        ensures
            c1 == c2,
        decreases k,
    {
        if k == c1 {
            if c1 != c2 {
                self.lemma_desc_le(self.par(k), c2);
            }
        } else if k == c2 {
            self.lemma_desc_le(self.par(k), c1);
        } else {
            self.lemma_one_child_toward(self.par(k), c1, c2);
        }
    }

    /// A node visited below the edges of `p` from the `t`-th on is visited
    /// from a child of `p` whose edge lies in the window.
    proof fn lemma_visit_list_from(&self, p: int, t: int, q: Seq<char>, radius: int, k: int) -> (u: int)
        requires
            self.wf(),
            0 <= p < self.n(),
            0 <= t,
            self.visit_list(p, t, q, radius).contains(k),
        ensures
            t <= u < self.kids(p).len(),
            in_window(self.kids(p)[u].0 as int, self.dist(p, q), radius),
            self.visit(self.kids(p)[u].1 as int, q, radius).contains(k),
        decreases self.kids(p).len() - t,
    {
        let c = self.kids(p)[t].1 as int;
        let rest = self.visit_list(p, t + 1, q, radius);
        if in_window(self.kids(p)[t].0 as int, self.dist(p, q), radius) && p < c < self.n() {
            let v = self.visit(c, q, radius);
            if v.contains(k) {
                t
            } else {
                let i = choose|i: int| 0 <= i < (v + rest).len() && (v + rest)[i] == k;
                assert(rest[i - v.len()] == k);
                self.lemma_visit_list_from(p, t + 1, q, radius, k)
            }
        } else {
            self.lemma_visit_list_from(p, t + 1, q, radius, k)
        }
    }

    /// No search from an ancestor `a` of `p` (or from `p`) enters the
    /// subtree below the edge `t` of `p` when that edge is outside the window.
    proof fn lemma_pruned_from(&self, a: int, q: Seq<char>, radius: int, p: int, t: int, k: int)
        requires
            self.wf(),
            radius >= 0,
            0 <= a <= p < self.n(),
            self.desc(p, a),
            0 <= t < self.kids(p).len(),
            !in_window(self.kids(p)[t].0 as int, self.dist(p, q), radius),
            self.desc(k, self.kids(p)[t].1 as int),
        ensures
            !self.visit(a, q, radius).contains(k),
        decreases self.n() - a,
    {
        let c = self.kids(p)[t].1 as int;
        if self.visit(a, q, radius).contains(k) {
            self.lemma_desc_le(k, c);
            let v = self.visit(a, q, radius);
            let vl = self.visit_list(a, 0, q, radius);
            assert(v == seq![a] + vl);
            let i = choose|i: int| 0 <= i < v.len() && v[i] == k;
            assert(i > 0);
            assert(vl[i - 1] == k);
            let u = self.lemma_visit_list_from(a, 0, q, radius, k);
            let c2 = self.kids(a)[u].1 as int;
            self.lemma_search(c2, q, radius);
            let j = choose|j: int| 0 <= j < self.visit(c2, q, radius).len() && self.visit(c2, q, radius)[j] == k;
            assert(self.desc(k, c2));
            if a == p {
                self.lemma_one_child_toward(k, c, c2);
            } else {
                self.lemma_desc_le(p, a);
                let c3 = self.lemma_child_toward(p, a);
                assert(self.desc(p, p));
                assert(self.desc(c, p));
                self.lemma_desc_trans(k, c, p);
                self.lemma_desc_trans(k, p, c3);
                self.lemma_one_child_toward(k, c2, c3);
                self.lemma_desc_le(p, c3);
                self.lemma_pruned_from(c3, q, radius, p, t, k);
            }
        }
    }

    /// A search never visits the node below an edge whose label lies
    /// outside the window around the query's distance to the edge's upper
    /// word, so it then visits fewer nodes than the tree holds.
    pub proof fn lemma_pruned_edge(&self, q: Seq<char>, radius: int, p: int, t: int)
        requires
            self.wf(),
            radius >= 0,
            0 <= p < self.word_seq().len(),
            0 <= t < self.edges()[p].len(),
            !in_window(self.edges()[p][t].0 as int, edit_distance(self.word_seq()[p], q) as int, radius),
        ensures
            !self.visited(q, radius).contains(self.edges()[p][t].1 as int),
            self.visited(q, radius).len() < self.word_seq().len(),
    {
        self.lemma_views();
        let c = self.kids(p)[t].1 as int;
        assert(self.desc(c, c));
        self.lemma_pruned_subtree(q, radius, p, t, c);
    }

    /// A search never enters the subtree below an edge whose distance lies
    /// outside the window around the query's distance to the edge's upper
    /// node; so it visits fewer nodes than the tree holds.
    pub proof fn lemma_pruned_subtree(&self, q: Seq<char>, radius: int, p: int, t: int, k: int)
        requires
            self.wf(),
            radius >= 0,
            0 <= p < self.n(),
            0 <= t < self.kids(p).len(),
            !in_window(self.kids(p)[t].0 as int, self.dist(p, q), radius),
            self.desc(k, self.kids(p)[t].1 as int),
        ensures
            !self.visited(q, radius).contains(k),
            self.visited(q, radius).len() < self.word_seq().len(),
    {
        self.lemma_below_root(p);
        self.lemma_pruned_from(0, q, radius, p, t, k);
        let c = self.kids(p)[t].1 as int;
        self.lemma_desc_le(k, c);
        self.lemma_search(0, q, radius);
        let v = self.visited(q, radius);
        let n = self.n();
        v.unique_seq_to_set();
        let r = vstd::set_lib::set_int_range(0, n).remove(k);
        vstd::set_lib::lemma_int_range(0, n);
        assert(v.to_set().subset_of(r));
        vstd::set_lib::lemma_len_subset(v.to_set(), r);
        assert(self.word_seq().len() == n);
    }

    /// Every node lies below the root.
    proof fn lemma_below_root(&self, k: int)
        requires
            self.wf(),
            0 <= k < self.n(),
        ensures
            self.desc(k, 0),
        decreases k,
    {
        if k > 0 {
            self.lemma_below_root(self.par(k));
        }
    }

    /// Growing the tree by one node leaves the subtree relation of the
    /// earlier nodes unchanged.
    proof fn lemma_desc_extend(old_t: &BkTree, new_t: &BkTree, k: int, a: int)
        requires
            new_t.n() == old_t.n() + 1,
            forall|i: int| 0 <= i < old_t.n() ==> #[trigger] new_t.par(i) == old_t.par(i),
            0 <= k < old_t.n(),
        ensures
            new_t.desc(k, a) == old_t.desc(k, a),
        decreases k,
    {
        if k != a && 0 < k && a < k && 0 <= old_t.par(k) < k {
            Self::lemma_desc_extend(old_t, new_t, old_t.par(k), a);
        }
    }

    /// An empty tree.
    pub fn new() -> (r: Self)
        ensures
            r.wf(),
            r.word_seq() == Seq::<Seq<char>>::empty(),
            r.edges() == Seq::<Seq<(usize, usize)>>::empty(),
    {
        let r = BkTree {
            words: Vec::new(),
            chars: Vec::new(),
            children: Vec::new(),
            parents: Ghost(Seq::empty()),
        };
        assert(r.word_seq() =~= Seq::<Seq<char>>::empty());
        assert(r.edges() =~= Seq::<Seq<(usize, usize)>>::empty());
        r
    }

    /// The number of words added.
    pub fn size(&self) -> (r: usize)
        ensures
            r == self.word_seq().len(),
    {
        self.words.len()
    }

    /// Removes every word.
    pub fn clear(&mut self)
        ensures
            final(self).wf(),
            final(self).word_seq() == Seq::<Seq<char>>::empty(),
            final(self).edges() == Seq::<Seq<(usize, usize)>>::empty(),
    {
        self.words = Vec::new();
        self.chars = Vec::new();
        self.children = Vec::new();
        proof {
            self.parents@ = Seq::empty();
        }
        assert(self.word_seq() =~= Seq::<Seq<char>>::empty());
        assert(self.edges() =~= Seq::<Seq<(usize, usize)>>::empty());
    }

    /// The words added, in insertion order, repeats included.
    pub fn values(&self) -> (r: &[String])
        ensures
            r@.map_values(|s: String| s@) == self.word_seq(),
    {
        self.words.as_slice()
    }

    /// Adds a word; a word added twice is held twice.
    pub fn add(&mut self, word: &str)
        requires
            old(self).wf(),
            old(self).word_seq().len() < usize::MAX,
        ensures
            final(self).wf(),
            final(self).word_seq() == old(self).word_seq().push(word@),
            final(self).edges() == added(old(self).edges(), old(self).word_seq(), word@),
    {
        assert(old(self).word_seq().len() == old(self).n());
        let ghost es0 = old(self).edges();
        let ghost ws0 = old(self).word_seq();
        let chars = chars_of(word);
        let owned = word.to_owned();
        let n = self.words.len();
        if n == 0 {
            self.words.push(owned);
            self.chars.push(chars);
            self.children.push(Vec::new());
            proof {
                self.parents@ = seq![-1int];
            }
            proof {
                assert(self.word_seq() =~= old(self).word_seq().push(word@));
                assert forall|k: int, c: int| 1 <= c < self.n() && 0 <= k < self.n() && #[trigger] self.desc(k, c) implies
                    edit_distance(self.w(k), self.w(self.par(c))) == edit_distance(self.w(c), self.w(self.par(c))) by {}
                assert(self.edges() =~= seq![Seq::<(usize, usize)>::empty()]);
            }
            return;
        }
        let mut cur: usize = 0;
        loop
            invariant
                *self == *old(self),
                self.wf(),
                n == self.n(),
                0 < n < usize::MAX,
                cur < n,
                chars@ == word@,
                owned@ == word@,
                es0 == old(self).edges(),
                ws0 == old(self).word_seq(),
                landing(es0, ws0, word@, cur as int, (n - cur) as nat) == landing(es0, ws0, word@, 0, n as nat),
                forall|c: int|
                    1 <= c < n && #[trigger] self.desc(cur as int, c) ==> edit_distance(word@, self.w(self.par(c)))
                        == edit_distance(self.w(c), self.w(self.par(c))),
            decreases n - cur,
        {
            let d = levenshtein_chars(&chars, &self.chars[cur]);
            proof {
                assert(self.children@[cur as int]@ == self.kids(cur as int));
            }
            let (found, pos) = find_slot(&self.children[cur], d);
            if found {
                let child = self.children[cur][pos].1;
                proof {
                    assert(self.kids(cur as int)[pos as int].0 == d);
                    assert forall|c: int| 1 <= c < n && #[trigger] self.desc(child as int, c) implies edit_distance(
                        word@,
                        self.w(self.par(c)),
                    ) == edit_distance(self.w(c), self.w(self.par(c))) by {
                        if c != child as int {
                            assert(self.desc(self.par(child as int), c));
                        }
                    }
                    self.lemma_edge_to(cur as int, pos as int, d as int);
                    assert(self.w(cur as int) == ws0[cur as int]);
                    self.lemma_landing_fuel(word@, child as int, (n - cur - 1) as nat, (n - child) as nat);
                }
                cur = child;
            } else {
                let ghost old_t = *self;
                proof {
                    assert(self.w(cur as int) == ws0[cur as int]);
                    assert(es0[cur as int] == self.kids(cur as int));
                    assert(edge_to(es0, cur as int, d as int) is None) by {
                        if exists|t: int| 0 <= t < es0[cur as int].len() && (#[trigger] es0[cur as int][t]).0 == d {
                            let t = choose|t: int| 0 <= t < es0[cur as int].len() && (#[trigger] es0[cur as int][t]).0 == d;
                            assert(self.kids(cur as int)[t].0 == d);
                        }
                    }
                    assert(landing(es0, ws0, word@, cur as int, (n - cur) as nat) == cur);
                    lemma_count_below(es0[cur as int], d as int, pos as int);
                }
                let new_kids = insert_slot(&self.children[cur], pos, d, n);
                self.children.set(cur, new_kids);
                self.words.push(owned);
                self.chars.push(chars);
                self.children.push(Vec::new());
                proof {
                    self.parents@ = self.parents@.push(cur as int);
                }
                proof {
                    self.lemma_add_wf(&old_t, word@, cur as int, pos as int, d);
                    assert(self.word_seq() =~= old(self).word_seq().push(word@));
                    assert(self.edges() =~= added(es0, ws0, word@));
                }
                return;
            }
        }
    }

    /// The tree after attaching the new last node under `cur` at slot
    /// `pos` is well formed.
    proof fn lemma_add_wf(&self, old_t: &BkTree, word: Seq<char>, cur: int, pos: int, d: usize)
        requires
            old_t.wf(),
            0 <= cur < old_t.n(),
            self.n() == old_t.n() + 1,
            self.w(old_t.n()) == word,
            self.chars@.len() == self.n(),
            self.children@.len() == self.n(),
            self.parents@ == old_t.parents@.push(cur),
            self.chars@[old_t.n()]@ == word,
            self.kids(old_t.n()) == Seq::<(usize, usize)>::empty(),
            forall|k: int| 0 <= k < old_t.n() ==> #[trigger] self.words@[k] == old_t.words@[k],
            forall|k: int| 0 <= k < old_t.n() ==> #[trigger] self.chars@[k] == old_t.chars@[k],
            forall|k: int| 0 <= k < old_t.n() && k != cur ==> #[trigger] self.kids(k) == old_t.kids(k),
            old_t.n() < usize::MAX,
            self.kids(cur) == old_t.kids(cur).insert(pos, (d, old_t.n() as usize)),
            0 <= pos <= old_t.kids(cur).len(),
            d == edit_distance(word, old_t.w(cur)),
            forall|t: int| 0 <= t < pos ==> (#[trigger] old_t.kids(cur)[t]).0 < d,
            forall|t: int| pos <= t < old_t.kids(cur).len() ==> (#[trigger] old_t.kids(cur)[t]).0 > d,
            forall|c: int|
                1 <= c < old_t.n() && #[trigger] old_t.desc(cur, c) ==> edit_distance(word, old_t.w(old_t.par(c)))
                    == edit_distance(old_t.w(c), old_t.w(old_t.par(c))),
        ensures
            self.wf(),
    {
        let n = old_t.n();
        assert forall|i: int| 0 <= i < n implies #[trigger] self.par(i) == old_t.par(i) by {}
        assert forall|k: int| 0 <= k < self.n() implies (#[trigger] self.chars@[k])@ == self.w(k) by {}
        assert forall|k: int| 1 <= k < self.n() implies 0 <= #[trigger] self.par(k) < k by {}
        assert forall|p: int, t: int| 0 <= p < self.n() && 0 <= t < self.kids(p).len() implies p < (
        #[trigger] self.kids(p)[t]).1 < self.n() && self.par(self.kids(p)[t].1 as int) == p
            && self.kids(p)[t].0 == edit_distance(self.w(self.kids(p)[t].1 as int), self.w(p)) by {
            if p == cur {
                if t < pos {
                    assert(self.kids(p)[t] == old_t.kids(p)[t]);
                } else if t > pos {
                    assert(self.kids(p)[t] == old_t.kids(p)[t - 1]);
                }
            } else if p < n {
                assert(self.kids(p)[t] == old_t.kids(p)[t]);
            }
        }
        assert forall|p: int, t1: int, t2: int| 0 <= p < self.n() && 0 <= t1 < t2 < self.kids(p).len() implies (
        #[trigger] self.kids(p)[t1]).0 < (#[trigger] self.kids(p)[t2]).0 by {
            if p == cur {
                let o = old_t.kids(p);
                if t1 < pos && t2 < pos {
                    assert(o[t1].0 < o[t2].0);
                } else if t1 > pos && t2 > pos {
                    assert(o[t1 - 1].0 < o[t2 - 1].0);
                } else if t1 < pos && t2 == pos {
                    assert(o[t1].0 < d);
                } else if t1 < pos {
                    assert(o[t2 - 1].0 > d);
                    assert(o[t1].0 < d);
                } else {
                    assert(o[t2 - 1].0 > d);
                }
            } else if p < n {
                assert(self.kids(p)[t1] == old_t.kids(p)[t1]);
                assert(self.kids(p)[t2] == old_t.kids(p)[t2]);
            }
        }
        assert forall|c: int| 1 <= c < self.n() implies #[trigger] self.has_slot(c) by {
            if c == n {
                assert(self.par(c) == cur);
                assert(self.kids(cur)[pos] == (d, n as usize));
                assert(0 <= pos < self.kids(self.par(c)).len() && self.kids(self.par(c))[pos].1 == c);
            } else {
                let pc = old_t.par(c);
                assert(self.par(c) == pc);
                assert(old_t.has_slot(c));
                let t = choose|t: int| 0 <= t < old_t.kids(pc).len() && (#[trigger] old_t.kids(pc)[t]).1 == c;
                if pc == cur {
                    if t < pos {
                        assert(self.kids(pc)[t] == old_t.kids(pc)[t]);
                        assert(0 <= t < self.kids(self.par(c)).len() && self.kids(self.par(c))[t].1 == c);
                    } else {
                        assert(self.kids(pc)[t + 1] == old_t.kids(pc)[t]);
                        assert(0 <= t + 1 < self.kids(self.par(c)).len() && self.kids(self.par(c))[t + 1].1 == c);
                    }
                } else {
                    assert(self.kids(pc) == old_t.kids(pc));
                    assert(0 <= t < self.kids(self.par(c)).len() && self.kids(self.par(c))[t].1 == c);
                }
            }
        }
        assert forall|k: int, c: int| 1 <= c < self.n() && 0 <= k < self.n() && #[trigger] self.desc(k, c) implies edit_distance(
            self.w(k),
            self.w(self.par(c)),
        ) == edit_distance(self.w(c), self.w(self.par(c))) by {
            if k < n {
                Self::lemma_desc_extend(old_t, self, k, c);
                if c == n {
                    old_t.lemma_desc_le(k, c);
                }
            } else if c != n {
                assert(self.desc(cur, c));
                Self::lemma_desc_extend(old_t, self, cur, c);
            }
        }
        assert(self.chars@.len() == self.n());
        assert(self.children@.len() == self.n());
        assert(self.parents@.len() == self.n());
        assert(forall|k: int| 0 <= k < self.n() ==> (#[trigger] self.chars@[k])@ == self.w(k));
        assert(forall|k: int| 1 <= k < self.n() ==> 0 <= #[trigger] self.par(k) < k);
        assert(forall|p: int, t: int|
            0 <= p < self.n() && 0 <= t < self.kids(p).len() ==> p < (#[trigger] self.kids(p)[t]).1
                < self.n() && self.par(self.kids(p)[t].1 as int) == p && self.kids(p)[t].0
                == edit_distance(self.w(self.kids(p)[t].1 as int), self.w(p)));
        assert(forall|p: int, t1: int, t2: int|
            0 <= p < self.n() && 0 <= t1 < t2 < self.kids(p).len() ==> (#[trigger] self.kids(p)[t1]).0
                < (#[trigger] self.kids(p)[t2]).0);
        assert(forall|k: int, c: int|
            1 <= c < self.n() && 0 <= k < self.n() && #[trigger] self.desc(k, c) ==> edit_distance(
                self.w(k),
                self.w(self.par(c)),
            ) == edit_distance(self.w(c), self.w(self.par(c))));
    }
    /// Collects, from the subtree of `p`, the words within `radius` of the
    /// query, and counts the nodes visited.
    fn search_node_box(
        &self,
        p: usize,
        q: &Vec<char>,
        radius: usize,
        results: &mut Vec<(String, usize)>,
        visits: &mut usize,
    )
        requires
            self.wf(),
            p < self.n(),
            *old(visits) + self.visit(p as int, q@, radius as int).len() <= usize::MAX,
        ensures
            *final(visits) == *old(visits) + self.visit(p as int, q@, radius as int).len(),
            final(results)@.len() == old(results)@.len() + self.hits(p as int, q@, radius as int).len(),
            final(results)@.take(old(results)@.len() as int) == old(results)@,
            forall|i: int|
                0 <= i < self.hits(p as int, q@, radius as int).len() ==> #[trigger] entries_view(
                    final(results)@,
                )[old(results)@.len() + i] == self.node_value(q@)(self.hits(p as int, q@, radius as int)[i]),
        decreases self.n() - p,
    {
        let ghost hs = self.hits(p as int, q@, radius as int);
        let ghost base = results@.len();
        let ghost qv = q@;
        let ghost r = radius as int;
        *visits = *visits + 1;
        let d = levenshtein_chars(&self.chars[p], q);
        if d <= radius {
            results.push((self.words[p].clone(), d));
        }
        let lower = if d >= radius { d - radius } else { 0 };
        let upper = if d <= usize::MAX - radius { d + radius } else { usize::MAX };
        let ghost head_len: int = if d <= radius { 1 } else { 0 };
        proof {
            assert(hs.subrange(head_len, hs.len() as int) =~= self.hits_list(p as int, 0, qv, r));
        }
        let len = self.children[p].len();
        let mut t: usize = 0;
        while t < len
            invariant
                self.wf(),
                p < self.n(),
                len == self.kids(p as int).len(),
                t <= len,
                d == self.dist(p as int, qv),
                qv == q@,
                r == radius,
                hs == self.hits(p as int, qv, r),
                forall|key: usize| lower <= key <= upper <==> in_window(key as int, d as int, r),
                base <= results@.len(),
                results@.len() - base <= hs.len(),
                hs.subrange(results@.len() - base, hs.len() as int) == self.hits_list(p as int, t as int, qv, r),
                results@.take(base as int) == old(results)@,
                old(results)@.len() == base,
                forall|i: int|
                    0 <= i < results@.len() - base ==> #[trigger] entries_view(results@)[base + i]
                        == self.node_value(qv)(hs[i]),
                *visits + self.visit_list(p as int, t as int, qv, r).len() == *old(visits) + self.visit(
                    p as int,
                    qv,
                    r,
                ).len(),
                *old(visits) + self.visit(p as int, qv, r).len() <= usize::MAX,
            decreases len - t,
        {
            let (key, c) = self.children[p][t];
            if lower <= key && key <= upper {
                let ghost before = results@;
                let ghost done = results@.len() - base;
                let ghost hc = self.hits(c as int, qv, r);
                let ghost rest = self.hits_list(p as int, t + 1, qv, r);
                proof {
                    assert(self.kids(p as int)[t as int] == (key, c));
                    assert(self.hits_list(p as int, t as int, qv, r) == hc + rest);
                    assert(self.visit_list(p as int, t as int, qv, r) == self.visit(c as int, qv, r)
                        + self.visit_list(p as int, t + 1, qv, r));
                }
                self.search_node_box(c, q, radius, results, visits);
                proof {
                    let sub = hs.subrange(done, hs.len() as int);
                    assert(sub == hc + rest);
                    assert forall|i: int| 0 <= i < results@.len() - base implies #[trigger] entries_view(results@)[base + i]
                        == self.node_value(qv)(hs[i]) by {
                        if i < done {
                            assert(results@.take(before.len() as int)[base + i] == before[base + i]);
                            assert(entries_view(before)[base + i] == self.node_value(qv)(hs[i]));
                        } else {
                            let j = i - done;
                            assert(entries_view(results@)[before.len() + j] == self.node_value(qv)(hc[j]));
                            assert(sub[j] == hc[j]);
                            assert(sub[j] == hs[done + j]);
                        }
                    }
                    assert(hs.subrange(results@.len() - base, hs.len() as int) =~= sub.subrange(
                        hc.len() as int,
                        sub.len() as int,
                    ));
                    assert(sub.subrange(hc.len() as int, sub.len() as int) =~= rest);
                    assert(results@.take(base as int) =~= old(results)@) by {
                        assert forall|i: int| 0 <= i < base implies results@.take(base as int)[i] == old(results)@[i] by {
                            assert(results@.take(before.len() as int)[i] == before[i]);
                            assert(before.take(base as int)[i] == before[i]);
                        }
                    }
                }
            } else {
                proof {
                    assert(self.kids(p as int)[t as int] == (key, c));
                    assert(self.hits_list(p as int, t as int, qv, r) == self.hits_list(p as int, t + 1, qv, r));
                    assert(self.visit_list(p as int, t as int, qv, r) == self.visit_list(p as int, t + 1, qv, r));
                }
            }
            t = t + 1;
        }
        proof {
            assert(self.hits_list(p as int, len as int, qv, r) =~= Seq::<int>::empty());
        }
    }

    /// Collects the words within `radius` of the query from the subtree at
    /// `node`, if there is one.
    fn search_node(
        &self,
        node: Option<usize>,
        q: &Vec<char>,
        radius: usize,
        results: &mut Vec<(String, usize)>,
        visits: &mut usize,
    )
        requires
            self.wf(),
            node matches Some(p) ==> p < self.n() && *old(visits) + self.visit(p as int, q@, radius as int).len()
                <= usize::MAX,
        ensures
            node is None ==> *final(visits) == *old(visits) && final(results)@ == old(results)@,
            node matches Some(p) ==> {
                &&& *final(visits) == *old(visits) + self.visit(p as int, q@, radius as int).len()
                &&& final(results)@.len() == old(results)@.len() + self.hits(p as int, q@, radius as int).len()
                &&& final(results)@.take(old(results)@.len() as int) == old(results)@
                &&& forall|i: int|
                    0 <= i < self.hits(p as int, q@, radius as int).len() ==> #[trigger] entries_view(
                        final(results)@,
                    )[old(results)@.len() + i] == self.node_value(q@)(self.hits(p as int, q@, radius as int)[i])
            },
    {
        match node {
            None => {},
            Some(p) => self.search_node_box(p, q, radius, results, visits),
        }
    }

    /// The nodes a search for `query` within `radius` visits.
    pub open spec fn visited(&self, q: Seq<char>, radius: int) -> Seq<int> {
        self.visit(0, q, radius)
    }

    /// Runs a search and counts the nodes it visits.
    fn search_counted(&self, query: &str, radius: usize) -> (r: (Vec<(String, usize)>, usize))
        requires
            self.wf(),
        ensures
            entries_view(r.0@).to_multiset() == within(self.word_seq(), query@, radius as int).to_multiset(),
            entries_sorted(entries_view(r.0@)),
            r.1 == self.visited(query@, radius as int).len(),
            r.1 <= self.word_seq().len(),
    {
        let q = chars_of(query);
        let ghost qv = q@;
        let ghost rr = radius as int;
        let mut results: Vec<(String, usize)> = Vec::new();
        let mut visits: usize = 0;
        let root: Option<usize> = if self.words.len() > 0 { Some(0) } else { None };
        proof {
            if self.n() > 0 {
                self.lemma_search(0, qv, rr);
                lemma_no_dup_range_len(self.visit(0, qv, rr), 0, self.n());
            }
        }
        self.search_node(root, &q, radius, &mut results, &mut visits);
        proof {
            let n = self.n();
            self.lemma_idx_within(n, qv, rr);
            assert(self.word_seq().take(n) =~= self.word_seq());
            let idx = self.idx_within(n, qv, rr);
            if n > 0 {
                let hs = self.hits(0, qv, rr);
                assert forall|k: int| hs.contains(k) <==> idx.contains(k) by {
                    if 0 <= k < n {
                        self.lemma_below_root(k);
                    }
                }
                lemma_same_set_no_dup_multiset(hs, idx);
                lemma_map_preserves_multiset(hs, idx, self.node_value(qv));
                assert forall|i: int| 0 <= i < hs.len() implies entries_view(results@)[i] == self.node_value(qv)(hs[i]) by {
                    assert(entries_view(results@)[0 + i] == self.node_value(qv)(hs[i]));
                }
                assert(entries_view(results@) =~= hs.map_values(self.node_value(qv)));
            } else {
                assert(entries_view(results@) =~= idx.map_values(self.node_value(qv)));
                assert(self.visited(qv, rr) =~= Seq::<int>::empty());
            }
        }
        let sorted = sort_entries(results);
        (sorted, visits)
    }

    /// The words within `radius` of `query`, each with its distance,
    /// ordered by distance and then by word.
    pub fn search(&self, query: &str, radius: usize) -> (r: Vec<(String, usize)>)
        requires
            self.wf(),
        ensures
            entries_view(r@).to_multiset() == within(self.word_seq(), query@, radius as int).to_multiset(),
            entries_sorted(entries_view(r@)),
    {
        self.search_counted(query, radius).0
    }

    /// A search that also reports how many nodes it visited.
    pub fn search_with_visits(&self, query: &str, radius: usize) -> (r: (Vec<(String, usize)>, usize))
        requires
            self.wf(),
        ensures
            entries_view(r.0@).to_multiset() == within(self.word_seq(), query@, radius as int).to_multiset(),
            entries_sorted(entries_view(r.0@)),
            r.1 == self.visited(query@, radius as int).len(),
            r.1 <= self.word_seq().len(),
    {
        self.search_counted(query, radius)
    }

    /// A tree holding the given words, added in order.
    pub fn from_iter(words: &[&str]) -> (r: Self)
        requires
            words@.len() < usize::MAX,
        ensures
            r.wf(),
            r.word_seq() == words@.map_values(|w: &str| w@),
            r.edges() == shape(words@.map_values(|w: &str| w@)),
    {
        let mut tree = BkTree::new();
        let mut i: usize = 0;
        assert(tree.word_seq().len() == tree.n());
        assert(words@.take(0).map_values(|w: &str| w@) =~= Seq::<Seq<char>>::empty());
        while i < words.len()
            invariant
                i <= words@.len(),
                words@.len() < usize::MAX,
                tree.wf(),
                tree.n() == i,
                tree.word_seq() == words@.take(i as int).map_values(|w: &str| w@),
                tree.edges() == shape(words@.take(i as int).map_values(|w: &str| w@)),
            decreases words@.len() - i,
        {
            tree.add(words[i]);
            i = i + 1;
            proof {
                let m = words@.take(i as int).map_values(|w: &str| w@);
                assert(m =~= words@.take(i - 1).map_values(|w: &str| w@).push(words@[i - 1]@));
                assert(m.drop_last() =~= words@.take(i - 1).map_values(|w: &str| w@));
            }
        }
        proof {
            assert(words@.take(words@.len() as int) =~= words@);
        }
        tree
    }
}

/// Finds the slot for distance `d` among edges sorted by distance: either
/// the edge with that distance, or where a new one belongs.
fn find_slot(kids: &Vec<(usize, usize)>, d: usize) -> (r: (bool, usize))
    requires
        forall|t1: int, t2: int| 0 <= t1 < t2 < kids@.len() ==> (#[trigger] kids@[t1]).0 < (#[trigger] kids@[t2]).0,
    ensures
        r.1 <= kids@.len(),
        r.0 ==> r.1 < kids@.len() && kids@[r.1 as int].0 == d,
        !r.0 ==> (forall|t: int| 0 <= t < r.1 ==> (#[trigger] kids@[t]).0 < d) && (forall|t: int|
            r.1 <= t < kids@.len() ==> (#[trigger] kids@[t]).0 > d),
{
    let mut pos: usize = 0;
    while pos < kids.len() && kids[pos].0 < d
        invariant
            pos <= kids@.len(),
            forall|t: int| 0 <= t < pos ==> (#[trigger] kids@[t]).0 < d,
        decreases kids@.len() - pos,
    {
        pos = pos + 1;
    }
    if pos < kids.len() && kids[pos].0 == d {
        (true, pos)
    } else {
        proof {
            assert forall|t: int| pos <= t < kids@.len() implies (#[trigger] kids@[t]).0 > d by {
                if t > pos {
                    assert(kids@[pos as int].0 < kids@[t].0);
                }
            }
        }
        (false, pos)
    }
}

/// A copy of `kids` with the edge `(d, child)` inserted at `pos`.
fn insert_slot(kids: &Vec<(usize, usize)>, pos: usize, d: usize, child: usize) -> (r: Vec<(usize, usize)>)
    requires
        pos <= kids@.len(),
    ensures
        r@ == kids@.insert(pos as int, (d, child)),
{
    let mut out: Vec<(usize, usize)> = Vec::new();
    let mut i: usize = 0;
    while i < kids.len()
        invariant
            i <= kids@.len(),
            out@ == kids@.take(i as int),
        decreases kids@.len() - i,
    {
        let e = kids[i];
        out.push(e);
        i = i + 1;
        proof {
            assert(out@ =~= kids@.take(i as int));
        }
    }
    out.insert(pos, (d, child));
    proof {
        assert(kids@.take(kids@.len() as int) =~= kids@);
    }
    out
}

/// Levenshtein distance between two strings, counted in characters.
pub fn levenshtein(a: &str, b: &str) -> (d: usize)
    ensures
        d == edit_distance(a@, b@),
{
    let ca = chars_of(a);
    let cb = chars_of(b);
    levenshtein_chars(&ca, &cb)
}

} // verus!
