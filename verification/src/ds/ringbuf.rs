use std::cmp::Ordering;
use vstd::prelude::*;

verus! {

/// What a ring buffer can hold: a cell is created from `Default` and is read
/// out by `Clone`.
pub trait RingBufContent: Clone + Default {

}

/// A fixed-capacity circular buffer.
///
/// The logical content is the sequence of cells from the head (`start`) to
/// just before the tail (`end`); it is what `view` returns.  One cell is
/// always kept free, so a ring of capacity `cap` holds at most `cap - 1` items:
/// a push that would fill the last cell makes `end` meet `start`, and with it
/// the logical content is empty again.
pub struct RingBuf<T: RingBufContent> {
    cap: usize,
    start: usize,
    end: usize,
    buf: Vec<T>,
    full2panic: bool,
}

/// The physical cell that lies `offset` cells behind cell `start`.
pub open spec fn wrap(start: int, offset: int, cap: int) -> int {
    if start + offset < cap {
        start + offset
    } else {
        start + offset - cap
    }
}

/// The number of cells between `start` and `end`, walking forward.
pub open spec fn span(start: int, end: int, cap: int) -> int {
    if end >= start {
        end - start
    } else {
        cap - start + end
    }
}

/// The item at position `i` of a sequence, for an index held in a `usize`.
pub open spec fn item_at<T>(s: Seq<T>, i: usize) -> T {
    s[i as int]
}

impl<T: RingBufContent> View for RingBuf<T> {
    type V = Seq<T>;

    closed spec fn view(&self) -> Seq<T> {
        Seq::new(
            span(self.start as int, self.end as int, self.cap as int) as nat,
            |i: int| self.buf@[wrap(self.start as int, i, self.cap as int)],
        )
    }
}

impl<T: RingBufContent> RingBuf<T> {
    /// The structural invariant: every cell exists and both cursors point at one.
    pub closed spec fn wf(&self) -> bool {
        &&& self.cap > 0
        &&& self.buf@.len() == self.cap
        &&& self.start < self.cap
        &&& self.end < self.cap
    }

    pub closed spec fn spec_cap(&self) -> usize {
        self.cap
    }

    pub closed spec fn spec_start(&self) -> usize {
        self.start
    }

    pub closed spec fn spec_end(&self) -> usize {
        self.end
    }

    /// Whether filling the ring is fatal rather than reported.
    pub closed spec fn full_to_panic(&self) -> bool {
        self.full2panic
    }

    /// A well-formed ring never holds more than `cap - 1` items, and its
    /// content is empty exactly when the two cursors meet.
    pub proof fn lemma_len_bound(&self)
        requires
            self.wf(),
        ensures
            self@.len() < self.spec_cap(),
            self@.len() == 0 <==> self.spec_start() == self.spec_end(),
    {
    }

    fn end(&self) -> (r: usize)
        ensures
            r == self.end,
    {
        self.end
    }

    fn start(&self) -> (r: usize)
        ensures
            r == self.start,
    {
        self.start
    }

    /// The physical cell of logical position `i`.
    fn cell(&self, i: usize) -> (r: usize)
        requires
            self.wf(),
            i < self.cap,
        ensures
            r == wrap(self.start as int, i as int, self.cap as int),
            r < self.cap,
    {
        if i < self.cap - self.start {
            self.start + i
        } else {
            i - (self.cap - self.start)
        }
    }

    /// The memory that the cells take, in bytes.
    pub fn size(&self) -> (r: usize)
        requires
            self.wf(),
            self.spec_cap() * vstd::layout::size_of::<T>() <= usize::MAX,
        ensures
            r == self.spec_cap() * vstd::layout::size_of::<T>(),
    {
        self.cap * core::mem::size_of::<T>()
    }

    /// The number of items between head and tail.
    pub fn len(&self) -> (r: usize)
        requires
            self.wf(),
        ensures
            r == self@.len(),
    {
        if self.end() >= self.start() {
            self.end() - self.start()
        } else {
            self.cap - self.start() + self.end()
        }
    }

    pub fn cap(&self) -> (r: usize)
        ensures
            r == self.spec_cap(),
    {
        self.cap
    }

    /// Whether head and tail coincide: the ring is empty, or a push has just
    /// filled it.
    pub fn cursors_meet(&self) -> (r: bool)
        ensures
            r == (self.spec_start() == self.spec_end()),
    {
        self.start == self.end
    }

    /// A ring of `cap` default cells with nothing in it.  Without a choice,
    /// filling the ring is reported and not fatal.
    pub fn new(cap: usize, full2panic: Option<bool>) -> (r: Self)
        requires
            cap > 0,
        ensures
            r.wf(),
            r@ == Seq::<T>::empty(),
            r.spec_cap() == cap,
            r.spec_start() == 0,
            r.spec_end() == 0,
            r.full_to_panic() == (match full2panic {
                Some(b) => b,
                None => false,
            }),
    {
        let mut v: Vec<T> = Vec::with_capacity(cap);
        let mut i: usize = 0;
        while i < cap
            invariant
                i <= cap,
                v@.len() == i,
            decreases cap - i,
        {
            v.push(T::default());
            i = i + 1;
        }
        let r = Self {
            cap,
            start: 0,
            end: 0,
            buf: v,
            full2panic: match full2panic {
                Some(b) => b,
                None => false,
            },
        };
        assert(r@ =~= Seq::<T>::empty());
        r
    }

    /// Appends `item` at the tail and says whether that filled the ring.
    ///
    /// While a free cell is left behind the new item, the content grows by
    /// `item`.  When the item takes the last free cell, the tail meets the
    /// head: the call reports the overflow, and the content reads as empty.
    /// A ring made with `full2panic` must not be filled.
    pub fn push(&mut self, item: T) -> (overflow: bool)
        requires
            old(self).wf(),
            !(old(self).full_to_panic() && old(self)@.len() + 1 == old(self).spec_cap()),
        ensures
            final(self).wf(),
            final(self).spec_cap() == old(self).spec_cap(),
            final(self).spec_start() == old(self).spec_start(),
            final(self).full_to_panic() == old(self).full_to_panic(),
            overflow == (old(self)@.len() + 1 == old(self).spec_cap()),
            !overflow ==> final(self)@ == old(self)@.push(item),
            overflow ==> final(self)@ == Seq::<T>::empty(),
            overflow ==> final(self).spec_end() == final(self).spec_start(),
    {
        let at = self.end;
        self.buf[at] = item;
        self.end = if self.end + 1 == self.cap {
            0
        } else {
            self.end + 1
        };
        let overflow = self.end == self.start;
        proof {
            if overflow {
                assert(self@ =~= Seq::<T>::empty());
            } else {
                assert(self@ =~= old(self)@.push(item));
            }
        }
        overflow
    }

    /// The last item, if there is one.
    pub fn pop(self) -> (r: Option<T>)
        requires
            self.wf(),
        ensures
            self@.len() == 0 ==> r is None,
            self@.len() > 0 ==> r is Some && cloned(self@.last(), r->0),
    {
        if self.start() == self.end() {
            None
        } else {
            let n = self.len();
            let at = self.cell(n - 1);
            Some(self.buf[at].clone())
        }
    }

    /// A copy of the item at the head.
    pub fn first_clone(&self) -> (r: Option<T>)
        requires
            self.wf(),
        ensures
            self@.len() == 0 ==> r is None,
            self@.len() > 0 ==> r is Some && cloned(self@.first(), r->0),
    {
        if self.start() == self.end() {
            None
        } else {
            Some(self.buf[self.start()].clone())
        }
    }

    /// A copy of the item at the tail.
    pub fn last_clone(&self) -> (r: Option<T>)
        requires
            self.wf(),
        ensures
            self@.len() == 0 ==> r is None,
            self@.len() > 0 ==> r is Some && cloned(self@.last(), r->0),
    {
        if self.start() == self.end() {
            None
        } else {
            let n = self.len();
            let at = self.cell(n - 1);
            Some(self.buf[at].clone())
        }
    }

    /// The item at logical position `i`, counted from the head.
    pub fn peek(&self, i: usize) -> (r: &T)
        requires
            self.wf(),
            i < self@.len(),
        ensures
            *r == self@[i as int],
    {
        let at = self.cell(i);
        &self.buf[at]
    }

    /// Replaces the item at logical position `i`.
    pub fn set(&mut self, i: usize, item: T)
        requires
            old(self).wf(),
            i < old(self)@.len(),
        ensures
            final(self).wf(),
            final(self)@ == old(self)@.update(i as int, item),
            final(self).spec_cap() == old(self).spec_cap(),
            final(self).spec_start() == old(self).spec_start(),
            final(self).spec_end() == old(self).spec_end(),
            final(self).full_to_panic() == old(self).full_to_panic(),
    {
        let at = self.cell(i);
        self.buf[at] = item;
        assert(self@ =~= old(self)@.update(i as int, item));
    }

    /// Walks from position `from_idx` towards the head and returns the first
    /// item that `f` accepts: the one nearest to `from_idx`.
    pub fn search_back<F: Fn(&T) -> bool>(&self, f: F, from_idx: usize) -> (r: Option<&T>)
        requires
            self.wf(),
            from_idx < self@.len(),
            forall|i: int| 0 <= i <= from_idx ==> call_requires(f, (&self@[i],)),
        ensures
            r matches Some(item) ==> exists|i: int|
                0 <= i <= from_idx && *item == self@[i] && call_ensures(f, (&self@[i],), true)
                    && forall|j: int| i < j <= from_idx ==> call_ensures(f, (&self@[j],), false),
            r is None ==> forall|j: int| 0 <= j <= from_idx ==> call_ensures(f, (&self@[j],), false),
    {
        let mut idx: usize = from_idx;
        loop
            invariant
                self.wf(),
                idx <= from_idx < self@.len(),
                forall|i: int| 0 <= i <= from_idx ==> call_requires(f, (&self@[i],)),
                forall|j: int| idx < j <= from_idx ==> call_ensures(f, (&self@[j],), false),
            decreases idx,
        {
            let item = self.peek(idx);
            if f(item) {
                return Some(item);
            }
            if idx == 0 {
                return None;
            }
            idx = idx - 1;
        }
    }

    /// Retracts the tail, so that only the first `index` items stay.
    pub fn truncate_from(&mut self, index: usize)
        requires
            old(self).wf(),
            index <= old(self)@.len(),
        ensures
            final(self).wf(),
            final(self)@ == old(self)@.take(index as int),
            final(self).spec_cap() == old(self).spec_cap(),
            final(self).spec_start() == old(self).spec_start(),
            final(self).full_to_panic() == old(self).full_to_panic(),
    {
        self.end = self.cell(index);
        assert(self@ =~= old(self)@.take(index as int));
    }

    /// Advances the head past the first `index` items.
    pub fn discard_before(&mut self, index: usize)
        requires
            old(self).wf(),
            index <= old(self)@.len(),
        ensures
            final(self).wf(),
            final(self)@ == old(self)@.skip(index as int),
            final(self).spec_cap() == old(self).spec_cap(),
            final(self).spec_end() == old(self).spec_end(),
            final(self).full_to_panic() == old(self).full_to_panic(),
    {
        self.start = self.cell(index);
        assert(self@ =~= old(self)@.skip(index as int));
    }
    /// The position of the first item that `f` rates `Equal`.
    pub fn position_as_ordered<F: Fn(&T) -> Ordering>(&self, f: F) -> (r: Option<usize>)
        requires
            self.wf(),
            forall|i: int| 0 <= i < self@.len() ==> call_requires(f, (&self@[i],)),
        ensures
            r matches Some(i) ==> i < self@.len() && call_ensures(
                f,
                (&item_at(self@, i),),
                Ordering::Equal,
            ) && forall|j: int| 0 <= j < i ==> rated_unequal(f, self@[j]),
            r is None ==> forall|j: int| 0 <= j < self@.len() ==> rated_unequal(f, self@[j]),
    {
        match self.ref_as_ordered(f) {
            Some(found) => Some(found.0),
            None => None,
        }
    }

    /// A copy of the first item that `f` rates `Equal`.
    pub fn object_as_ordered<F: Fn(&T) -> Ordering>(&self, f: F) -> (r: Option<T>)
        requires
            self.wf(),
            forall|i: int| 0 <= i < self@.len() ==> call_requires(f, (&self@[i],)),
        ensures
            r matches Some(item) ==> exists|i: int|
                0 <= i < self@.len() && cloned(self@[i], item) && call_ensures(
                    f,
                    (&self@[i],),
                    Ordering::Equal,
                ) && forall|j: int| 0 <= j < i ==> rated_unequal(f, self@[j]),
            r is None ==> forall|j: int| 0 <= j < self@.len() ==> rated_unequal(f, self@[j]),
    {
        match self.ref_as_ordered(f) {
            Some(found) => Some(found.1.clone()),
            None => None,
        }
    }

    /// Searches the content from the head for the item that `f` rates
    /// `Equal`, and returns the first such item with its position.  Where `f`
    /// is monotone over the content (`Less` on a prefix, then `Equal`, then
    /// `Greater`) that is the only one.
    pub fn ref_as_ordered<F: Fn(&T) -> Ordering>(&self, f: F) -> (r: Option<(usize, &T)>)
        requires
            self.wf(),
            forall|i: int| 0 <= i < self@.len() ==> call_requires(f, (&self@[i],)),
        ensures
            r matches Some(found) ==> found.0 < self@.len() && *found.1 == item_at(self@, found.0)
                && call_ensures(f, (&item_at(self@, found.0),), Ordering::Equal) && forall|j: int|
                0 <= j < found.0 ==> rated_unequal(f, self@[j]),
            r is None ==> forall|j: int| 0 <= j < self@.len() ==> rated_unequal(f, self@[j]),
    {
        let len = self.len();
        let mut idx: usize = 0;
        while idx < len
            invariant
                self.wf(),
                len == self@.len(),
                idx <= len,
                forall|i: int| 0 <= i < self@.len() ==> call_requires(f, (&self@[i],)),
                forall|j: int| 0 <= j < idx ==> rated_unequal(f, self@[j]),
            decreases len - idx,
        {
            let item = self.peek(idx);
            match f(item) {
                Ordering::Equal => {
                    return Some((idx, item));
                },
                Ordering::Less => {
                    assert(call_ensures(f, (&item_at(self@, idx),), Ordering::Less));
                },
                Ordering::Greater => {
                    assert(call_ensures(f, (&item_at(self@, idx),), Ordering::Greater));
                },
            }
            idx = idx + 1;
        }
        None
    }
}

/// `f` has rated `item` `Less` or `Greater`.
pub open spec fn rated_unequal<T, F: Fn(&T) -> Ordering>(f: F, item: T) -> bool {
    call_ensures(f, (&item,), Ordering::Less) || call_ensures(f, (&item,), Ordering::Greater)
}

} // verus!
