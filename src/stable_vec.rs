//! A vector whose slot indices stay valid across insertions and removals.
use vstd::prelude::*;

verus! {

/// The number of initialized slots in `s`.
pub open spec fn count_init<T>(s: Seq<Option<T>>) -> nat
    decreases s.len(),
{
    if s.len() == 0 {
        0
    } else {
        count_init(s.drop_last()) + (if s.last() is Some { 1nat } else { 0nat })
    }
}

/// Whether `i` is the first uninitialized slot of `s`, or `s.len()` when every slot is in use.
pub open spec fn is_first_free<T>(s: Seq<Option<T>>, i: int) -> bool {
    &&& 0 <= i <= s.len()
    &&& i < s.len() ==> s[i] is None
    &&& forall|j: int| 0 <= j < i ==> (#[trigger] s[j]) is Some
}

/// The slots after writing `v` at index `i`, appending it when `i` is one past the end.
pub open spec fn put_at<T>(s: Seq<Option<T>>, i: int, v: T) -> Seq<Option<T>> {
    if i < s.len() {
        s.update(i, Some(v))
    } else {
        s.push(Some(v))
    }
}

/// Whether every initialized slot of `s` comes before every uninitialized one.
pub open spec fn is_compact<T>(s: Seq<Option<T>>) -> bool {
    forall|j: int| 0 <= j < s.len() ==> ((#[trigger] s[j]) is Some <==> j < count_init(s))
}

/// `moves` lists `(from, to)` relocations that turn `before` into the compact `after`: each moves
/// an initialized slot down into an uninitialized one, and every other initialized slot stays.
pub open spec fn moved_compactly<T>(
    before: Seq<Option<T>>,
    after: Seq<Option<T>>,
    moves: Seq<(usize, usize)>,
) -> bool {
    &&& after.len() == before.len()
    &&& count_init(after) == count_init(before)
    &&& is_compact(after)
    &&& forall|k: int|
        0 <= k < moves.len() ==> {
            let (f, t) = #[trigger] moves[k];
            &&& t < f < before.len()
            &&& before[f as int] is Some
            &&& before[t as int] is None
            &&& after[t as int] == before[f as int]
            &&& after[f as int] is None
        }
    &&& forall|k1: int, k2: int|
        0 <= k1 < moves.len() && 0 <= k2 < moves.len() && k1 != k2 ==> (#[trigger] moves[k1]).0
            != (#[trigger] moves[k2]).0 && moves[k1].1 != moves[k2].1
    &&& forall|j: int|
        0 <= j < before.len() && (#[trigger] before[j]) is Some ==> after[j] == before[j] || exists|
            k: int,
        | 0 <= k < moves.len() && (#[trigger] moves[k]).0 == j
}


/// Slots that only lose values, and lose at least the one at `l`, count fewer values.
pub proof fn lemma_count_shrinks<T>(s: Seq<Option<T>>, t: Seq<Option<T>>, l: int)
    requires
        s.len() == t.len(),
        0 <= l < s.len(),
        s[l] is Some,
        t[l] is None,
        forall|j: int| 0 <= j < t.len() && (#[trigger] t[j]) is Some ==> s[j] is Some,
    ensures
        count_init(t) < count_init(s),
    decreases s.len(),
{
    if l < s.len() - 1 {
        lemma_count_shrinks(s.drop_last(), t.drop_last(), l);
    } else {
        lemma_count_le(s.drop_last(), t.drop_last());
    }
}

/// Slots that only lose values count no more values.
pub proof fn lemma_count_le<T>(s: Seq<Option<T>>, t: Seq<Option<T>>)
    requires
        s.len() == t.len(),
        forall|j: int| 0 <= j < t.len() && (#[trigger] t[j]) is Some ==> s[j] is Some,
    ensures
        count_init(t) <= count_init(s),
    decreases s.len(),
{
    if s.len() > 0 {
        lemma_count_le(s.drop_last(), t.drop_last());
    }
}

/// Writing one slot changes the count by what left and what came.
pub proof fn lemma_count_update<T>(s: Seq<Option<T>>, i: int, v: Option<T>)
    requires
        0 <= i < s.len(),
    ensures
        count_init(s.update(i, v)) + (if s[i] is Some { 1int } else { 0int }) == count_init(s) + (
        if v is Some { 1int } else { 0int }),
    decreases s.len(),
{
    if i == s.len() - 1 {
        assert(s.update(i, v).drop_last() =~= s.drop_last());
    } else {
        lemma_count_update(s.drop_last(), i, v);
        assert(s.update(i, v).drop_last() =~= s.drop_last().update(i, v));
    }
}

/// Appending one slot changes the count by that slot.
pub proof fn lemma_count_push<T>(s: Seq<Option<T>>, v: Option<T>)
    ensures
        count_init(s.push(v)) == count_init(s) + (if v is Some { 1nat } else { 0nat }),
{
    assert(s.push(v).drop_last() =~= s);
}

/// The count is at most the number of slots.
pub proof fn lemma_count_bound<T>(s: Seq<Option<T>>)
    ensures
        count_init(s) <= s.len(),
    decreases s.len(),
{
    if s.len() > 0 {
        lemma_count_bound(s.drop_last());
    }
}

/// Slots that hold a prefix of `m` initialized values and nothing after count `m` values.
pub proof fn lemma_count_prefix<T>(s: Seq<Option<T>>, m: int)
    requires
        0 <= m <= s.len(),
        forall|j: int| 0 <= j < m ==> (#[trigger] s[j]) is Some,
        forall|j: int| m <= j < s.len() ==> (#[trigger] s[j]) is None,
    ensures
        count_init(s) == m,
    decreases s.len(),
{
    if s.len() > 0 {
        let t = s.drop_last();
        if m == s.len() {
            lemma_count_prefix(t, m - 1);
        } else {
            lemma_count_prefix(t, m);
        }
    }
}

/// A store of `T` values in numbered slots. A value keeps its slot until it is removed or the
/// store is defragmented, and `push` reuses the lowest free slot.
pub struct StableVec<T> {
    slots: Vec<Option<T>>,
    count: usize,
}

impl<T> View for StableVec<T> {
    type V = Seq<Option<T>>;

    closed spec fn view(&self) -> Seq<Option<T>> {
        self.slots@
    }
}

impl<T> StableVec<T> {
    /// The stored count agrees with the slots.
    pub closed spec fn wf(&self) -> bool {
        self.count == count_init(self.slots@)
    }

    /// An empty store.
    pub fn new() -> (r: StableVec<T>)
        ensures
            r.wf(),
            r@ == Seq::<Option<T>>::empty(),
    {
        StableVec { slots: Vec::new(), count: 0 }
    }

    /// An empty store with room for `cap` values.
    pub fn with_capacity(cap: usize) -> (r: StableVec<T>)
        ensures
            r.wf(),
            r@ == Seq::<Option<T>>::empty(),
    {
        StableVec { slots: Vec::with_capacity(cap), count: 0 }
    }

    /// A store whose slots hold the values of `data`, in order.
    pub fn from_vec(data: Vec<T>) -> (r: StableVec<T>)
        ensures
            r.wf(),
            r@.len() == data@.len(),
            forall|j: int| 0 <= j < data@.len() ==> (#[trigger] r@[j]) == Some(data@[j]),
    {
        let ghost d = data@;
        let mut data = data;
        let total = data.len();
        let mut r = StableVec::new();
        while data.len() > 0
            invariant
                d.len() == total,
                r.wf(),
                r@.len() + data@.len() == d.len(),
                data@ == d.subrange(r@.len() as int, d.len() as int),
                forall|j: int| 0 <= j < r@.len() ==> (#[trigger] r@[j]) == Some(d[j]),
            decreases data@.len(),
        {
            let v = data.remove(0);
            let ghost before = r@;
            proof {
                lemma_count_push(r.slots@, Some(v));
                lemma_count_bound(r.slots@);
            }
            r.slots.push(Some(v));
            r.count = r.count + 1;
            proof {
                assert(data@ =~= d.subrange(r@.len() as int, d.len() as int));
            }
        }
        r
    }

    /// The number of slots, initialized or not.
    pub fn capacity(&self) -> (r: usize)
        ensures
            r == self@.len(),
    {
        self.slots.len()
    }

    /// The number of initialized slots.
    pub fn len_init(&self) -> (r: usize)
        requires
            self.wf(),
        ensures
            r == count_init(self@),
    {
        self.count
    }

    /// The number of uninitialized slots.
    pub fn spare_capacity(&self) -> (r: usize)
        requires
            self.wf(),
        ensures
            r == self@.len() - count_init(self@),
    {
        proof {
            lemma_count_bound(self@);
        }
        self.slots.len() - self.count
    }

    /// Whether slot `index` holds a value.
    pub fn is_init(&self, index: usize) -> (r: bool)
        ensures
            r == (index < self@.len() && self@[index as int] is Some),
    {
        index < self.slots.len() && self.slots[index].is_some()
    }

    /// Whether some uninitialized slot comes before an initialized one.
    pub fn is_fragmented(&self) -> (r: bool)
        requires
            self.wf(),
        ensures
            r == !is_compact(self@),
    {
        let n = self.slots.len();
        let mut i: usize = 0;
        while i < n
            invariant
                i <= n,
                n == self@.len(),
                self.count == count_init(self@),
                forall|j: int| 0 <= j < i ==> (#[trigger] self@[j] is Some <==> j < self.count),
            decreases n - i,
        {
            if self.slots[i].is_some() != (i < self.count) {
                return true;
            }
            i = i + 1;
        }
        false
    }

    /// The value in slot `index`, if it holds one.
    pub fn get(&self, index: usize) -> (r: Option<&T>)
        ensures
            match r {
                Some(v) => index < self@.len() && self@[index as int] == Some(*v),
                None => index >= self@.len() || self@[index as int] is None,
            },
    {
        if index < self.slots.len() {
            match &self.slots[index] {
                Some(v) => Some(v),
                None => None,
            }
        } else {
            None
        }
    }

    /// The value in slot `index`, which must hold one.
    pub fn get_unchecked(&self, index: usize) -> (r: &T)
        requires
            index < self@.len(),
            self@[index as int] is Some,
        ensures
            self@[index as int] == Some(*r),
    {
        self.slots[index].as_ref().unwrap()
    }

    /// A mutable borrow of the value in slot `index`, if it holds one.
    pub fn get_mut(&mut self, index: usize) -> (r: Option<&mut T>)
        requires
            old(self).wf(),
        ensures
            final(self).wf(),
            match r {
                Some(v) => index < old(self)@.len() && old(self)@[index as int] == Some(*v)
                    && final(self)@ == old(self)@.update(index as int, Some(*final(v))),
                None => (index >= old(self)@.len() || old(self)@[index as int] is None)
                    && final(self)@ == old(self)@,
            },
    {
        if index < self.slots.len() && self.slots[index].is_some() {
            let ghost s = self.slots@;
            proof {
                assert forall|x: T| #[trigger] count_init(s.update(index as int, Some(x))) == count_init(s) by {
                    lemma_count_update(s, index as int, Some(x));
                }
            }
            match &mut self.slots[index] {
                Some(v) => Some(v),
                None => None,
            }
        } else {
            None
        }
    }

    /// Write `data` into slot `index`, returning the value it displaced.
    pub fn set(&mut self, index: usize, data: T) -> (r: Option<T>)
        requires
            old(self).wf(),
            index < old(self)@.len(),
        ensures
            final(self).wf(),
            r == old(self)@[index as int],
            final(self)@ == old(self)@.update(index as int, Some(data)),
    {
        proof {
            lemma_count_update(self.slots@, index as int, Some(data));
            lemma_count_bound(self.slots@.update(index as int, Some(data)));
        }
        let n = self.slots.len();
        let ghost s = self.slots@;
        let r = self.slots[index].take();
        assert(r == s[index as int]);
        self.slots[index] = Some(data);
        assert(self.slots@ == s.update(index as int, Some(data)));
        if r.is_none() {
            assert(self.count < n);
            self.count = self.count + 1;
        }
        r
    }

    /// Empty slot `index`, returning the value it held.
    pub fn remove(&mut self, index: usize) -> (r: Option<T>)
        requires
            old(self).wf(),
        ensures
            final(self).wf(),
            r == (if index < old(self)@.len() { old(self)@[index as int] } else { None }),
            final(self)@ == (if index < old(self)@.len() {
                old(self)@.update(index as int, None)
            } else {
                old(self)@
            }),
    {
        if index < self.slots.len() {
            proof {
                lemma_count_update(self.slots@, index as int, None);
            }
            let r = self.slots[index].take();
            if r.is_some() {
                self.count = self.count - 1;
            }
            r
        } else {
            None
        }
    }

    /// The slot that the next `push` will fill.
    pub fn next_push_index(&self) -> (r: usize)
        ensures
            is_first_free(self@, r as int),
    {
        let n = self.slots.len();
        let mut i: usize = 0;
        while i < n && self.slots[i].is_some()
            invariant
                i <= n,
                n == self@.len(),
                forall|j: int| 0 <= j < i ==> (#[trigger] self@[j]) is Some,
            decreases n - i,
        {
            i = i + 1;
        }
        i
    }

    /// Store `data` in the first uninitialized slot, adding a slot when none is free, and return
    /// that slot's index.
    pub fn push(&mut self, data: T) -> (r: usize)
        requires
            old(self).wf(),
            old(self)@.len() < usize::MAX,
        ensures
            final(self).wf(),
            is_first_free(old(self)@, r as int),
            final(self)@ == put_at(old(self)@, r as int, data),
    {
        proof {
            lemma_count_bound(self.slots@);
        }
        let i = self.next_push_index();
        if i < self.slots.len() {
            proof {
                lemma_count_update(self.slots@, i as int, Some(data));
            }
            self.slots[i] = Some(data);
        } else {
            proof {
                lemma_count_push(self.slots@, Some(data));
            }
            self.slots.push(Some(data));
        }
        self.count = self.count + 1;
        i
    }

    /// Exchange the contents of two slots.
    pub fn swap(&mut self, a: usize, b: usize)
        requires
            old(self).wf(),
            a < old(self)@.len(),
            b < old(self)@.len(),
        ensures
            final(self).wf(),
            final(self)@ == old(self)@.update(a as int, old(self)@[b as int]).update(
                b as int,
                old(self)@[a as int],
            ),
    {
        let ghost s = self.slots@;
        if a != b {
            let va = self.slots[a].take();
            let vb = self.slots[b].take();
            proof {
                lemma_count_update(s, a as int, None);
                lemma_count_update(s.update(a as int, None), b as int, None);
                lemma_count_update(s.update(a as int, None).update(b as int, None), a as int, vb);
                lemma_count_update(
                    s.update(a as int, None).update(b as int, None).update(a as int, vb),
                    b as int,
                    va,
                );
            }
            self.slots[a] = vb;
            self.slots[b] = va;
            proof {
                assert(self.slots@ =~= s.update(a as int, s[b as int]).update(b as int, s[a as int]));
            }
        } else {
            proof {
                assert(s.update(a as int, s[b as int]).update(b as int, s[a as int]) =~= s);
            }
        }
    }

    /// Drop every value; the slots remain, uninitialized.
    pub fn clear(&mut self)
        requires
            old(self).wf(),
        ensures
            final(self).wf(),
            final(self)@.len() == old(self)@.len(),
            forall|j: int| 0 <= j < final(self)@.len() ==> (#[trigger] final(self)@[j]) is None,
    {
        let n = self.slots.len();
        let mut i: usize = 0;
        while i < n
            invariant
                i <= n,
                n == self.slots@.len(),
                self.count == count_init(self.slots@),
                forall|j: int| 0 <= j < i ==> (#[trigger] self.slots@[j]) is None,
            decreases n - i,
        {
            proof {
                lemma_count_update(self.slots@, i as int, None);
                lemma_count_bound(self.slots@);
            }
            let v = self.slots[i].take();
            if v.is_some() {
                self.count = self.count - 1;
            }
            i = i + 1;
        }
    }

    /// Move values from the highest initialized slots into the lowest free ones until the
    /// initialized slots form a prefix. Returns each move as `(from, to)`.
    pub fn defragment(&mut self) -> (r: Vec<(usize, usize)>)
        requires
            old(self).wf(),
        ensures
            final(self).wf(),
            moved_compactly(old(self)@, final(self)@, r@),
            forall|k1: int, k2: int|
                0 <= k1 < k2 < r@.len() ==> (#[trigger] r@[k1]).1 < (#[trigger] r@[k2]).1 && r@[k1].0 > r@[k2].0,
            forall|j: int| 0 <= j < r@.len() ==> forall|f: int| (#[trigger] r@[j]).0 < f < old(self)@.len() && old(self)@[f] is Some ==> exists|k: int| 0 <= k < j && (#[trigger] r@[k]).0 == f,
    {
        let ghost s0 = self.slots@;
        let n = self.slots.len();
        let mut moves: Vec<(usize, usize)> = Vec::new();
        let mut lo: usize = 0;
        let mut hi: usize = n;
        loop
            invariant
                lo <= hi <= n,
                n == self.slots@.len(),
                n == s0.len(),
                self.count == count_init(self.slots@),
                count_init(s0) == count_init(self.slots@),
                forall|j: int| 0 <= j < lo ==> (#[trigger] self.slots@[j]) is Some,
                forall|j: int| hi <= j < n ==> (#[trigger] self.slots@[j]) is None,
                forall|j: int| lo <= j < hi ==> (#[trigger] self.slots@[j]) == s0[j],
                forall|j: int| 0 <= j < lo && (#[trigger] s0[j]) is Some ==> self.slots@[j] == s0[j],
                forall|j: int|
                    hi <= j < n && (#[trigger] s0[j]) is Some ==> exists|k: int|
                        0 <= k < moves@.len() && (#[trigger] moves@[k]).0 == j,
                forall|k: int|
                    0 <= k < moves@.len() ==> {
                        let (f, t) = #[trigger] moves@[k];
                        &&& t < lo
                        &&& hi <= f < n
                        &&& s0[f as int] is Some
                        &&& s0[t as int] is None
                        &&& self.slots@[t as int] == s0[f as int]
                    },
                forall|k1: int, k2: int|
                    0 <= k1 < k2 < moves@.len() ==> (#[trigger] moves@[k1]).1 < (#[trigger] moves@[k2]).1
                        && moves@[k1].0 > moves@[k2].0,
            ensures
                lo == hi,
            decreases hi - lo,
        {
            if lo >= hi {
                break;
            }
            if self.slots[lo].is_some() {
                lo = lo + 1;
            } else if self.slots[hi - 1].is_none() {
                hi = hi - 1;
            } else {
                let ghost cur = self.slots@;
                let ghost m0 = moves@;
                let v = self.slots[hi - 1].take();
                self.slots[lo] = v;
                proof {
                    lemma_count_update(cur, hi - 1, None);
                    lemma_count_update(cur.update(hi - 1, None), lo as int, v);
                }
                moves.push((hi - 1, lo));
                proof {
                    assert(moves@[m0.len() as int] == ((hi - 1) as usize, lo));
                    assert forall|j: int| hi - 1 <= j < n && (#[trigger] s0[j]) is Some implies exists|k: int|
                        0 <= k < moves@.len() && (#[trigger] moves@[k]).0 == j by {
                        if j == hi - 1 {
                            assert(moves@[m0.len() as int].0 == j);
                        } else {
                            let k = choose|k: int| 0 <= k < m0.len() && (#[trigger] m0[k]).0 == j;
                            assert(moves@[k] == m0[k]);
                        }
                    }
                }
                lo = lo + 1;
                hi = hi - 1;
            }
        }
        proof {
            lemma_count_prefix(self.slots@, lo as int);
            assert forall|k1: int, k2: int|
                0 <= k1 < moves@.len() && 0 <= k2 < moves@.len() && k1 != k2 implies (
                #[trigger] moves@[k1]).0 != (#[trigger] moves@[k2]).0 && moves@[k1].1 != moves@[k2].1 by {
                if k1 < k2 {
                    assert(moves@[k1].1 < moves@[k2].1);
                } else {
                    assert(moves@[k2].1 < moves@[k1].1);
                }
            }
        }
        moves
    }

    /// Defragment, then drop the uninitialized tail so that only initialized slots remain.
    pub fn compress(&mut self) -> (r: Vec<(usize, usize)>)
        requires
            old(self).wf(),
        ensures
            final(self).wf(),
            final(self)@.len() == count_init(old(self)@),
            exists|mid: Seq<Option<T>>|
                moved_compactly(old(self)@, mid, r@) && final(self)@ == mid.subrange(
                    0,
                    count_init(old(self)@) as int,
                ),
    {
        let r = self.defragment();
        let ghost mid = self.slots@;
        let c = self.count;
        proof {
            lemma_count_bound(mid);
        }
        self.slots.truncate(c);
        proof {
            lemma_count_prefix(self.slots@, c as int);
            assert(moved_compactly(old(self)@, mid, r@));
        }
        r
    }

    /// Move every value of `other` into `self`, each by `push`, in the order of `other`'s slots.
    /// Returns each move as `(index in other, index in self)`.
    pub fn extend_from_other(&mut self, other: StableVec<T>) -> (r: Vec<(usize, usize)>)
        requires
            old(self).wf(),
            other.wf(),
            old(self)@.len() + other@.len() < usize::MAX,
        ensures
            final(self).wf(),
            count_init(final(self)@) == count_init(old(self)@) + count_init(other@),
            forall|j: int| 0 <= j < old(self)@.len() && (#[trigger] old(self)@[j]) is Some ==> final(self)@[j] == old(self)@[j],
            forall|k: int|
                #![trigger r@[k]]
                0 <= k < r@.len() ==> {
                    let (i, j) = r@[k];
                    &&& i < other@.len()
                    &&& j < final(self)@.len()
                    &&& other@[i as int] is Some
                    &&& final(self)@[j as int] == other@[i as int]
                },
            forall|k1: int, k2: int| 0 <= k1 < k2 < r@.len() ==> (#[trigger] r@[k1]).0 < (#[trigger] r@[k2]).0 && r@[k1].1 != r@[k2].1,
            forall|i: int| 0 <= i < other@.len() && (#[trigger] other@[i]) is Some ==> exists|k: int| 0 <= k < r@.len() && (#[trigger] r@[k]).0 == i,
            final(self)@.len() >= old(self)@.len(),
            forall|k: int| 0 <= k < r@.len() ==> (#[trigger] r@[k]).1 >= old(self)@.len() || old(self)@[r@[k].1 as int] is None,
            forall|j: int|
                0 <= j < final(self)@.len() && (#[trigger] final(self)@[j]) is Some ==> (j < old(self)@.len() && old(self)@[j] is Some)
                    || exists|k: int| 0 <= k < r@.len() && (#[trigger] r@[k]).1 == j,
    {
        let ghost s0 = self@;
        let ghost o0 = other@;
        let mut other = other;
        let n = other.slots.len();
        let mut r: Vec<(usize, usize)> = Vec::new();
        let mut i: usize = 0;
        while i < n
            invariant
                i <= n,
                n == o0.len(),
                s0.len() + o0.len() < usize::MAX,
                self.wf(),
                other.slots@.len() == n,
                forall|j: int| i <= j < n ==> (#[trigger] other.slots@[j]) == o0[j],
                self@.len() <= s0.len() + i,
                self@.len() >= s0.len(),
                count_init(self@) == count_init(s0) + count_init(o0.subrange(0, i as int)),
                forall|j: int| 0 <= j < s0.len() && (#[trigger] s0[j]) is Some ==> self@[j] == s0[j],
                forall|k: int|
                    #![trigger r@[k]]
                    0 <= k < r@.len() ==> {
                        let (a, b) = r@[k];
                        &&& a < i
                        &&& b < self@.len()
                        &&& o0[a as int] is Some
                        &&& self@[b as int] == o0[a as int]
                    },
                forall|k1: int, k2: int| 0 <= k1 < k2 < r@.len() ==> (#[trigger] r@[k1]).0 < (#[trigger] r@[k2]).0 && r@[k1].1 != r@[k2].1,
                forall|j: int| 0 <= j < i && (#[trigger] o0[j]) is Some ==> exists|k: int| 0 <= k < r@.len() && (#[trigger] r@[k]).0 == j,
                forall|k: int| 0 <= k < r@.len() ==> (#[trigger] r@[k]).1 >= s0.len() || s0[r@[k].1 as int] is None,
                forall|j: int|
                    0 <= j < self@.len() && (#[trigger] self@[j]) is Some ==> (j < s0.len() && s0[j] is Some)
                        || exists|k: int| 0 <= k < r@.len() && (#[trigger] r@[k]).1 == j,
            decreases n - i,
        {
            proof {
                assert(o0.subrange(0, i + 1).drop_last() =~= o0.subrange(0, i as int));
            }
            let v = other.slots[i].take();
            match v {
                Some(x) => {
                    let ghost before = self@;
                    let ghost r0 = r@;
                    proof {
                        lemma_count_bound(self@);
                    }
                    let j = self.push(x);
                    r.push((i, j));
                    proof {
                        if (j as int) < before.len() {
                            lemma_count_update(before, j as int, Some(x));
                        } else {
                            lemma_count_push(before, Some(x));
                        }
                        assert forall|jj: int| 0 <= jj < s0.len() && (#[trigger] s0[jj]) is Some implies self@[jj] == s0[jj] by {
                            assert(before[jj] == s0[jj]);
                        }
                        if (j as int) < s0.len() && s0[j as int] is Some {
                            assert(before[j as int] == s0[j as int]);
                        }
                        assert forall|k: int| 0 <= k < r@.len() implies (#[trigger] r@[k]).1 >= s0.len() || s0[r@[k].1 as int] is None by {
                            if k < r0.len() {
                                assert(r@[k] == r0[k]);
                            }
                        }
                        assert forall|jj: int|
                            0 <= jj < self@.len() && (#[trigger] self@[jj]) is Some implies (jj < s0.len() && s0[jj] is Some)
                                || exists|k: int| 0 <= k < r@.len() && (#[trigger] r@[k]).1 == jj by {
                            if jj == j as int {
                                assert(r@[r0.len() as int].1 == jj);
                            } else {
                                assert(before[jj] == self@[jj]);
                                if !(jj < s0.len() && s0[jj] is Some) {
                                    let k = choose|k: int| 0 <= k < r0.len() && (#[trigger] r0[k]).1 == jj;
                                    assert(r@[k] == r0[k]);
                                }
                            }
                        }
                        assert(r@[r0.len() as int] == (i, j));
                        assert forall|k: int| 0 <= k < r0.len() implies (#[trigger] r@[k]).1 != j by {
                            assert(r@[k] == r0[k]);
                            assert(before[r0[k].1 as int] is Some);
                        }
                        assert forall|jj: int| 0 <= jj < i + 1 && (#[trigger] o0[jj]) is Some implies exists|k: int| 0 <= k < r@.len() && (#[trigger] r@[k]).0 == jj by {
                            if jj < i {
                                let k = choose|k: int| 0 <= k < r0.len() && (#[trigger] r0[k]).0 == jj;
                                assert(r@[k] == r0[k]);
                            } else {
                                assert(r@[r0.len() as int].0 == jj);
                            }
                        }
                    }
                },
                None => {},
            }
            i = i + 1;
        }
        proof {
            assert(o0.subrange(0, n as int) =~= o0);
        }
        r
    }

    /// Make room for `additional` more slots without moving any value.
    pub fn reserve(&mut self, additional: usize)
        requires
            old(self).wf(),
        ensures
            final(self).wf(),
            final(self)@ == old(self)@,
    {
        self.slots.reserve(additional);
    }
}

} // verus!
