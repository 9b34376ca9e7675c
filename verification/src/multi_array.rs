//! An array of containers, each holding any number of values.
use vstd::prelude::*;

verus! {

/// Replacing one container changes the total count by the difference of
/// the two lengths.
pub proof fn lemma_flatten_len_update<T>(s: Seq<Seq<T>>, i: int, t: Seq<T>)
    requires
        0 <= i < s.len(),
    ensures
        s.update(i, t).flatten().len() == s.flatten().len() - s[i].len() + t.len(),
{
    let a = s.take(i);
    let b = s.skip(i + 1);
    assert(s =~= a + seq![s[i]] + b);
    assert(s.update(i, t) =~= a + seq![t] + b);
    vstd::seq_lib::lemma_flatten_concat(a + seq![s[i]], b);
    vstd::seq_lib::lemma_flatten_concat(a, seq![s[i]]);
    vstd::seq_lib::lemma_flatten_concat(a + seq![t], b);
    vstd::seq_lib::lemma_flatten_concat(a, seq![t]);
    seq![s[i]].lemma_flatten_one_element();
    seq![t].lemma_flatten_one_element();
}

/// The first `i + 1` containers flatten to the first `i` followed by the
/// last of them.
pub proof fn lemma_flatten_take_succ<T>(s: Seq<Seq<T>>, i: int)
    requires
        0 <= i < s.len(),
    ensures
        s.take(i + 1).flatten() == s.take(i).flatten() + s[i],
{
    assert(s.take(i + 1) =~= s.take(i) + seq![s[i]]);
    vstd::seq_lib::lemma_flatten_concat(s.take(i), seq![s[i]]);
    seq![s[i]].lemma_flatten_one_element();
}

/// The entries of container `i`, last value first, each with `i`.
pub open spec fn tagged_reverse<T>(i: int, c: Seq<T>) -> Seq<(usize, T)> {
    Seq::new(c.len(), |j: int| (i as usize, c[c.len() - 1 - j]))
}

/// The entries of every container in turn, each last value first.
pub open spec fn all_entries<T>(s: Seq<Seq<T>>) -> Seq<(usize, T)> {
    Seq::new(s.len(), |i: int| tagged_reverse(i, s[i])).flatten()
}

/// An array of containers of values.
#[derive(Debug, Clone)]
pub struct MultiArray<T> {
    containers: Vec<Vec<T>>,
    size: usize,
}

impl<T> View for MultiArray<T> {
    type V = Seq<Seq<T>>;

    /// The containers, in order.
    closed spec fn view(&self) -> Seq<Seq<T>> {
        self.containers@.map_values(|c: Vec<T>| c@)
    }
}

impl<T> MultiArray<T> {
    /// The count covers every value of every container.
    pub closed spec fn wf(&self) -> bool {
        self.size == self@.flatten().len()
    }

    /// An array of `width` empty containers.
    pub fn new(width: usize) -> (r: Self)
        ensures
            r.wf(),
            r@ == Seq::new(width as nat, |i: int| Seq::<T>::empty()),
    {
        let mut containers: Vec<Vec<T>> = Vec::new();
        let mut i: usize = 0;
        while i < width
            invariant
                i <= width,
                containers@.len() == i,
                forall|k: int| 0 <= k < i ==> (#[trigger] containers@[k])@ == Seq::<T>::empty(),
            decreases width - i,
        {
            let e: Vec<T> = Vec::new();
            containers.push(e);
            i = i + 1;
        }
        proof {
            assert(containers@.map_values(|c: Vec<T>| c@) =~= Seq::new(width as nat, |k: int| Seq::<T>::empty()));
        }
        let r = MultiArray { containers, size: 0 };
        proof {
            lemma_flatten_empty(r@);
        }
        r
    }

    /// The number of containers.
    pub fn width(&self) -> (r: usize)
        ensures
            r == self@.len(),
    {
        self.containers.len()
    }

    /// The number of containers.
    pub fn dimension(&self) -> (r: usize)
        ensures
            r == self@.len(),
    {
        self.containers.len()
    }

    /// The number of values over all containers.
    pub fn size(&self) -> (r: usize)
        requires
            self.wf(),
        ensures
            r == self@.flatten().len(),
    {
        self.size
    }

    /// Empties every container; the containers stay.
    pub fn clear(&mut self)
        ensures
            final(self).wf(),
            final(self)@ == Seq::new(old(self)@.len(), |i: int| Seq::<T>::empty()),
    {
        let n = self.containers.len();
        let mut i: usize = 0;
        while i < n
            invariant
                n == self.containers@.len(),
                i <= n,
                forall|k: int| 0 <= k < i ==> (#[trigger] self.containers@[k])@ == Seq::<T>::empty(),
            decreases n - i,
        {
            self.containers[i].clear();
            i = i + 1;
        }
        self.size = 0;
        proof {
            assert(self@ =~= Seq::new(old(self)@.len(), |i: int| Seq::<T>::empty()));
            lemma_flatten_empty(self@);
        }
    }

    /// Adds a new last container holding `value`.
    pub fn push(&mut self, value: T)
        requires
            old(self).wf(),
            old(self)@.flatten().len() < usize::MAX,
        ensures
            final(self).wf(),
            final(self)@ == old(self)@.push(seq![value]),
    {
        let mut c: Vec<T> = Vec::new();
        c.push(value);
        self.containers.push(c);
        self.size = self.size + 1;
        proof {
            assert(self@ =~= old(self)@.push(seq![value]));
            old(self)@.lemma_flatten_push(seq![value]);
        }
    }

    /// Adds `value` to container `index`, first adding empty containers up
    /// to it.
    pub fn set(&mut self, index: usize, value: T)
        requires
            old(self).wf(),
            old(self)@.flatten().len() < usize::MAX,
            index < usize::MAX,
        ensures
            final(self).wf(),
            final(self)@.len() == if index < old(self)@.len() { old(self)@.len() as int } else { index + 1 },
            forall|k: int| 0 <= k < final(self)@.len() && k != index ==> #[trigger] final(self)@[k] == if k < old(self)@.len() {
                old(self)@[k]
            } else {
                Seq::<T>::empty()
            },
            final(self)@[index as int] == (if index < old(self)@.len() {
                old(self)@[index as int]
            } else {
                Seq::<T>::empty()
            }).push(value),
    {
        let ghost s0 = self@;
        if index >= self.containers.len() {
            while self.containers.len() < index + 1
                invariant
                    self.containers@.len() <= index + 1,
                    self.containers@.len() >= s0.len(),
                    forall|k: int| 0 <= k < self@.len() ==> #[trigger] self@[k] == if k < s0.len() {
                        s0[k]
                    } else {
                        Seq::<T>::empty()
                    },
                    self@.flatten().len() == s0.flatten().len(),
                    index < usize::MAX,
                    self.size == s0.flatten().len(),
                    s0.flatten().len() < usize::MAX,
                decreases index + 1 - self.containers@.len(),
            {
                let ghost before = self@;
                let e: Vec<T> = Vec::new();
                self.containers.push(e);
                proof {
                    assert(self@ =~= before.push(Seq::<T>::empty()));
                    before.lemma_flatten_push(Seq::<T>::empty());
                }
            }
        }
        let ghost s1 = self@;
        self.containers[index].push(value);
        self.size = self.size + 1;
        proof {
            assert(self@ =~= s1.update(index as int, s1[index as int].push(value)));
            lemma_flatten_len_update(s1, index as int, s1[index as int].push(value));
        }
    }

    /// Whether container `index` exists and holds a value.
    pub fn has(&self, index: usize) -> (r: bool)
        ensures
            r == (index < self@.len() && self@[index as int].len() > 0),
    {
        index < self.containers.len() && self.containers[index].len() > 0
    }

    /// The number of values in container `index`, 0 if it does not exist.
    pub fn count(&self, index: usize) -> (r: usize)
        ensures
            r == if index < self@.len() { self@[index as int].len() } else { 0 },
    {
        if index < self.containers.len() {
            self.containers[index].len()
        } else {
            0
        }
    }

    /// Container `index`, if it exists.
    pub fn get(&self, index: usize) -> (r: Option<&[T]>)
        ensures
            index < self@.len() ==> (r matches Some(c) && c@ == self@[index as int]),
            index >= self@.len() ==> r is None,
    {
        if index < self.containers.len() {
            Some(self.containers[index].as_slice())
        } else {
            None
        }
    }

    /// Every value of every container, in order.
    pub fn values(&self) -> (r: Vec<&T>)
        ensures
            r@.len() == self@.flatten().len(),
            forall|k: int| 0 <= k < r@.len() ==> *r@[k] == self@.flatten()[k],
    {
        let ghost s = self@;
        let mut out: Vec<&T> = Vec::new();
        let mut i: usize = 0;
        while i < self.containers.len()
            invariant
                s == self@,
                i <= s.len(),
                out@.len() == s.take(i as int).flatten().len(),
                forall|k: int| 0 <= k < out@.len() ==> *out@[k] == s.take(i as int).flatten()[k],
            decreases s.len() - i,
        {
            let c = &self.containers[i];
            let mut j: usize = 0;
            proof {
                lemma_flatten_take_succ(s, i as int);
            }
            while j < c.len()
                invariant
                    s == self@,
                    i < s.len(),
                    c@ == s[i as int],
                    j <= c@.len(),
                    s.take(i + 1).flatten() == s.take(i as int).flatten() + s[i as int],
                    out@.len() == s.take(i as int).flatten().len() + j,
                    forall|k: int| 0 <= k < out@.len() ==> *out@[k] == s.take(i + 1).flatten()[k],
                decreases c@.len() - j,
            {
                out.push(&c[j]);
                j = j + 1;
            }
            i = i + 1;
        }
        proof {
            assert(s.take(s.len() as int) =~= s);
        }
        out
    }

    /// The values of container `index`, last first; none if it does not
    /// exist.
    pub fn values_at(&self, index: usize) -> (r: Vec<&T>)
        ensures
            index >= self@.len() ==> r@.len() == 0,
            index < self@.len() ==> r@.len() == self@[index as int].len() && forall|k: int|
                0 <= k < r@.len() ==> *r@[k] == self@[index as int][self@[index as int].len() - 1 - k],
    {
        let mut out: Vec<&T> = Vec::new();
        if index >= self.containers.len() {
            return out;
        }
        let c = &self.containers[index];
        let n = c.len();
        let mut j: usize = 0;
        while j < n
            invariant
                n == c@.len(),
                c@ == self@[index as int],
                j <= n,
                out@.len() == j,
                forall|k: int| 0 <= k < j ==> *out@[k] == c@[n - 1 - k],
            decreases n - j,
        {
            out.push(&c[n - 1 - j]);
            j = j + 1;
        }
        out
    }

    /// The containers, in order.
    pub fn containers(&self) -> (r: Vec<&[T]>)
        ensures
            r@.len() == self@.len(),
            forall|k: int| 0 <= k < r@.len() ==> (#[trigger] r@[k])@ == self@[k],
    {
        let mut out: Vec<&[T]> = Vec::new();
        let mut i: usize = 0;
        while i < self.containers.len()
            invariant
                i <= self@.len(),
                out@.len() == i,
                forall|k: int| 0 <= k < i ==> (#[trigger] out@[k])@ == self@[k],
            decreases self@.len() - i,
        {
            out.push(self.containers[i].as_slice());
            i = i + 1;
        }
        out
    }

    /// The indices of the containers.
    pub fn keys(&self) -> (r: Vec<usize>)
        ensures
            r@.len() == self@.len(),
            forall|k: int| 0 <= k < r@.len() ==> r@[k] == k,
    {
        let n = self.containers.len();
        let mut out: Vec<usize> = Vec::new();
        let mut i: usize = 0;
        while i < n
            invariant
                i <= n,
                out@.len() == i,
                forall|k: int| 0 <= k < i ==> out@[k] == k,
            decreases n - i,
        {
            out.push(i);
            i = i + 1;
        }
        out
    }

    /// The containers with their indices.
    pub fn associations(&self) -> (r: Vec<(usize, &[T])>)
        ensures
            r@.len() == self@.len(),
            forall|k: int| 0 <= k < r@.len() ==> #[trigger] r@[k].0 == k && r@[k].1@ == self@[k],
    {
        let mut out: Vec<(usize, &[T])> = Vec::new();
        let mut i: usize = 0;
        while i < self.containers.len()
            invariant
                i <= self@.len(),
                out@.len() == i,
                forall|k: int| 0 <= k < i ==> #[trigger] out@[k].0 == k && out@[k].1@ == self@[k],
            decreases self@.len() - i,
        {
            out.push((i, self.containers[i].as_slice()));
            i = i + 1;
        }
        out
    }

    /// Every value with the index of its container: container by container,
    /// each last value first.
    pub fn entries(&self) -> (r: Vec<(usize, &T)>)
        ensures
            r@.len() == all_entries(self@).len(),
            forall|k: int| 0 <= k < r@.len() ==> r@[k].0 == all_entries(self@)[k].0 && *r@[k].1 == all_entries(self@)[k].1,
    {
        let ghost s = self@;
        let ghost t = Seq::new(s.len(), |i: int| tagged_reverse(i, s[i]));
        let mut out: Vec<(usize, &T)> = Vec::new();
        let mut i: usize = 0;
        while i < self.containers.len()
            invariant
                s == self@,
                t == Seq::new(s.len(), |i: int| tagged_reverse(i, s[i])),
                i <= s.len(),
                out@.len() == t.take(i as int).flatten().len(),
                forall|k: int| 0 <= k < out@.len() ==> #[trigger] out@[k].0 == t.take(i as int).flatten()[k].0,
                forall|k: int| 0 <= k < out@.len() ==> *(#[trigger] out@[k]).1 == t.take(i as int).flatten()[k].1,
            decreases s.len() - i,
        {
            let c = &self.containers[i];
            let n = c.len();
            let mut j: usize = 0;
            proof {
                lemma_flatten_take_succ(t, i as int);
            }
            while j < n
                invariant
                    s == self@,
                    t == Seq::new(s.len(), |i: int| tagged_reverse(i, s[i])),
                    i < s.len(),
                    c@ == s[i as int],
                    n == c@.len(),
                    j <= n,
                    t.take(i + 1).flatten() == t.take(i as int).flatten() + t[i as int],
                    out@.len() == t.take(i as int).flatten().len() + j,
                    forall|k: int| 0 <= k < out@.len() ==> #[trigger] out@[k].0 == t.take(i + 1).flatten()[k].0,
                    forall|k: int| 0 <= k < out@.len() ==> *(#[trigger] out@[k]).1 == t.take(i + 1).flatten()[k].1,
                decreases n - j,
            {
                out.push((i, &c[n - 1 - j]));
                j = j + 1;
            }
            i = i + 1;
        }
        proof {
            assert(t.take(s.len() as int) =~= t);
        }
        out
    }
}

/// Containers that are all empty hold no value.
pub proof fn lemma_flatten_empty<T>(s: Seq<Seq<T>>)
    requires
        forall|i: int| 0 <= i < s.len() ==> (#[trigger] s[i]).len() == 0,
    ensures
        s.flatten().len() == 0,
    decreases s.len(),
{
    if s.len() > 0 {
        lemma_flatten_empty(s.drop_first());
    }
}

} // verus!
