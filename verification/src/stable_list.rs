//! An append-only list with stable indices and resumable iteration.
//!
//! `StableList` stores its elements in fixed-size chunks that are allocated on
//! demand and only ever appended: an element, once pushed, is never moved,
//! overwritten or removed, and its index never changes. The committed length
//! only grows, one element per push. `StableListIterator` is a cursor over
//! such a list: it yields elements in index order, reports "no value yet"
//! (rather than permanent exhaustion) when it reaches the current end of an
//! unbounded range, and can be bounded to a `[start, end)` window fixed at
//! creation.

use vstd::arithmetic::div_mod::{
    lemma_div_is_ordered, lemma_div_pos_is_pos, lemma_fundamental_div_mod,
    lemma_fundamental_div_mod_converse_div, lemma_fundamental_div_mod_converse_mod,
    lemma_mod_division_less_than_divisor,
};
use vstd::prelude::*;

verus! {

/// Number of element slots in each chunk of a `StableList`.
pub const CHUNK_SIZE: usize = 128;

/// How many chunks a list of `n` elements occupies: `n / CHUNK_SIZE`,
/// rounded up.
spec fn num_chunks(n: int) -> int {
    (n + CHUNK_SIZE as int - 1) / (CHUNK_SIZE as int)
}

/// How many elements of a list of `n` elements fall into chunk `k`: every
/// chunk before the last holds exactly `CHUNK_SIZE` of them, the last holds
/// the rest.
spec fn chunk_len(n: int, k: int) -> int {
    if n - k * (CHUNK_SIZE as int) >= CHUNK_SIZE as int {
        CHUNK_SIZE as int
    } else {
        n - k * (CHUNK_SIZE as int)
    }
}

/// An append-only list: elements are pushed at the end, never moved or
/// removed, and are read back by their index, which stays valid for the
/// life of the list.
pub struct StableList<T> {
    /// Element storage, organized as fixed-size chunks allocated on demand.
    chunks: Vec<Vec<T>>,
    /// Committed length: the number of slots that hold a fully written
    /// element. It only ever increases.
    len: usize,
}

impl<T> View for StableList<T> {
    type V = Seq<T>;

    /// A `StableList` abstracts to the sequence of its elements in push
    /// order; element `i` lives in chunk `i / CHUNK_SIZE` at offset
    /// `i % CHUNK_SIZE`.
    closed spec fn view(&self) -> Seq<T> {
        Seq::new(
            self.len as nat,
            |i: int| self.chunks@[i / (CHUNK_SIZE as int)]@[i % (CHUNK_SIZE as int)],
        )
    }
}

impl<T> StableList<T> {
    /// Well-formedness: the chunks exactly cover the committed length, every
    /// chunk but the last is full, and the last holds the remainder.
    pub closed spec fn wf(self) -> bool {
        &&& self.chunks@.len() == num_chunks(self.len as int)
        &&& forall|k: int|
            0 <= k < self.chunks@.len() ==> (#[trigger] self.chunks@[k])@.len() == chunk_len(
                self.len as int,
                k,
            )
    }

    /// Creates an empty list.
    pub fn new() -> (l: Self)
        ensures
            l.wf(),
            l@ == Seq::<T>::empty(),
    {
        let l = StableList { chunks: Vec::new(), len: 0 };
        proof {
            assert(l@ =~= Seq::<T>::empty());
        }
        l
    }

    /// Returns the committed length of the list: the number of elements
    /// pushed so far. It never decreases.
    pub fn len(&self) -> (n: usize)
        ensures
            n == self@.len(),
    {
        self.len
    }

    /// Appends one element at the end of the list. No existing element is
    /// moved or changed; the committed length grows by exactly one, and only
    /// after the element is fully in place.
    pub fn push(&mut self, item: T)
        requires
            old(self).wf(),
            old(self)@.len() < u32::MAX as usize,
        ensures
            final(self).wf(),
            final(self)@ == old(self)@.push(item),
            final(self)@.len() == old(self)@.len() + 1,
    {
        let ghost n = self.len as int;
        let ghost d = CHUNK_SIZE as int;
        if self.len % CHUNK_SIZE == 0 {
            proof {
                lemma_push_at_chunk_boundary(n);
            }
            self.chunks.push(Vec::new());
        } else {
            proof {
                lemma_push_mid_chunk(n);
            }
        }
        let ghost mid = self.chunks@;
        proof {
            // the last stored chunk is the one the new element belongs to,
            // and it has room
            lemma_fundamental_div_mod(n, d);
            lemma_div_pos_is_pos(n, d);
            assert(mid.len() == n / d + 1);
            assert(mid[mid.len() - 1]@.len() == n % d);
        }
        let mut last_chunk = self.chunks.pop().unwrap();
        last_chunk.push(item);
        self.chunks.push(last_chunk);
        self.len = self.len + 1;
        proof {
            assert(self.chunks@ =~= mid.update(mid.len() - 1, last_chunk));
            assert forall|k: int| 0 <= k < self.chunks@.len() implies (
            #[trigger] self.chunks@[k])@.len() == chunk_len(self.len as int, k) by {
                if k < mid.len() - 1 {
                    assert(self.chunks@[k] == old(self).chunks@[k]);
                }
            }
            assert forall|i: int| 0 <= i < n + 1 implies self@[i] == old(self)@.push(item)[i] by {
                lemma_locate(n + 1, i);
                if i < n {
                    lemma_locate(n, i);
                    if i / d == mid.len() - 1 {
                        // `i` lands in the chunk that was extended, below the
                        // old committed offset
                        assert(self.chunks@[i / d]@[i % d] == mid[i / d]@[i % d]);
                    } else {
                        assert(self.chunks@[i / d] == old(self).chunks@[i / d]);
                    }
                } else {
                    // the new element sits at offset `n % CHUNK_SIZE` of the
                    // last chunk
                    assert(self.chunks@[n / d]@[n % d] == item);
                }
            }
            assert(self@ =~= old(self)@.push(item));
        }
    }

    /// Provides a resumable cursor over the entire list, starting at index
    /// 0. After the cursor has reported "no value", it yields the elements
    /// pushed in between when polled again.
    pub fn iter(&self) -> (it: StableListIterator)
        ensures
            it.next_pos() == 0,
            it.bound() is None,
            it.wf_for(*self),
    {
        StableListIterator { idx: 0, end_idx: None, started: false, chunk: 0 }
    }

    /// Provides a resumable cursor over the index window `[start, end)`;
    /// with `end` absent the cursor is unbounded. Indices in the window that
    /// are not yet committed make the cursor report "no value" until they
    /// are, exactly as with `iter`; only a bound that was reached stops it
    /// for good.
    pub fn bounded_iter(&self, start: usize, end: Option<usize>) -> (it: StableListIterator)
        ensures
            it.next_pos() == start,
            it.bound() == end,
            it.wf_for(*self),
    {
        StableListIterator { idx: start, end_idx: end, started: false, chunk: 0 }
    }

    /// Reads the element at `idx`: the exact value handed to the `idx`-th
    /// push if `idx` is below the committed length, and nothing otherwise.
    pub fn get(&self, idx: usize) -> (r: Option<&T>)
        requires
            self.wf(),
        ensures
            match r {
                Some(v) => idx < self@.len() && *v == self@[idx as int],
                None => idx >= self@.len(),
            },
    {
        if idx < self.len {
            proof {
                lemma_locate(self.len as int, idx as int);
            }
            let q = idx / CHUNK_SIZE;
            let off = idx % CHUNK_SIZE;
            Some(&self.chunks[q][off])
        } else {
            None
        }
    }
}

/// Locates index `i` of a list of `n` elements: its chunk ordinal
/// `i / CHUNK_SIZE` names a stored chunk, and its offset `i % CHUNK_SIZE`
/// names a stored element of that chunk.
proof fn lemma_locate(n: int, i: int)
    requires
        0 <= i < n,
    ensures
        0 <= i / (CHUNK_SIZE as int) < num_chunks(n),
        0 <= i % (CHUNK_SIZE as int) < CHUNK_SIZE as int,
        i % (CHUNK_SIZE as int) < chunk_len(n, i / (CHUNK_SIZE as int)),
        i == i / (CHUNK_SIZE as int) * (CHUNK_SIZE as int) + i % (CHUNK_SIZE as int),
{
    let d = CHUNK_SIZE as int;
    let q = i / d;
    let r = i % d;
    lemma_fundamental_div_mod(i, d);
    lemma_mod_division_less_than_divisor(i, d);
    lemma_div_pos_is_pos(i, d);
    // q < num_chunks(n): from q * d <= i < n it follows that
    // (q + 1) * d <= n + d - 1, so q + 1 <= (n + d - 1) / d.
    assert((q + 1) * d == q * d + d) by (nonlinear_arith);
    lemma_div_is_ordered((q + 1) * d, n + d - 1, d);
    lemma_fundamental_div_mod_converse_div((q + 1) * d, d, q + 1, 0);
}

/// When the committed length `n` is a multiple of `CHUNK_SIZE`, every stored
/// chunk is full, and pushing one more element means opening a fresh chunk.
proof fn lemma_push_at_chunk_boundary(n: int)
    requires
        0 <= n,
        n % (CHUNK_SIZE as int) == 0,
    ensures
        num_chunks(n) == n / (CHUNK_SIZE as int),
        num_chunks(n + 1) == num_chunks(n) + 1,
        chunk_len(n + 1, num_chunks(n)) == 1,
        forall|k: int|
            0 <= k < num_chunks(n) ==> chunk_len(n, k) == CHUNK_SIZE as int && chunk_len(
                n + 1,
                k,
            ) == CHUNK_SIZE as int,
{
    let d = CHUNK_SIZE as int;
    let q = n / d;
    lemma_fundamental_div_mod(n, d);
    lemma_div_pos_is_pos(n, d);
    assert(n == q * d);
    // num_chunks(n) == q
    lemma_fundamental_div_mod_converse_div(n + d - 1, d, q, d - 1);
    // num_chunks(n + 1) == q + 1
    assert((q + 1) * d == q * d + d) by (nonlinear_arith);
    lemma_fundamental_div_mod_converse_div(n + d, d, q + 1, 0);
    // the fresh chunk holds exactly the new element
    assert(chunk_len(n + 1, q) == 1) by {
        assert(n + 1 - q * d == 1);
    }
    assert forall|k: int| 0 <= k < q implies chunk_len(n, k) == d && chunk_len(n + 1, k)
        == d by {
        assert(k * d + d <= q * d) by (nonlinear_arith)
            requires
                k + 1 <= q,
                d > 0,
        ;
    }
}

/// When the committed length `n` is not a multiple of `CHUNK_SIZE`, the last
/// stored chunk has room, and pushing one more element only lengthens it.
proof fn lemma_push_mid_chunk(n: int)
    requires
        0 <= n,
        n % (CHUNK_SIZE as int) != 0,
    ensures
        num_chunks(n) == n / (CHUNK_SIZE as int) + 1,
        num_chunks(n + 1) == num_chunks(n),
        chunk_len(n, num_chunks(n) - 1) == n % (CHUNK_SIZE as int),
        chunk_len(n + 1, num_chunks(n) - 1) == n % (CHUNK_SIZE as int) + 1,
        n % (CHUNK_SIZE as int) + 1 <= CHUNK_SIZE as int,
        forall|k: int|
            0 <= k < num_chunks(n) - 1 ==> chunk_len(n, k) == CHUNK_SIZE as int && chunk_len(
                n + 1,
                k,
            ) == CHUNK_SIZE as int,
{
    let d = CHUNK_SIZE as int;
    let q = n / d;
    let r = n % d;
    lemma_fundamental_div_mod(n, d);
    lemma_mod_division_less_than_divisor(n, d);
    lemma_div_pos_is_pos(n, d);
    assert(n == q * d + r);
    // num_chunks(n) == q + 1: n + d - 1 == (q + 1) * d + (r - 1)
    assert((q + 1) * d == q * d + d) by (nonlinear_arith);
    lemma_fundamental_div_mod_converse_div(n + d - 1, d, q + 1, r - 1);
    // num_chunks(n + 1) == q + 1: n + d == (q + 1) * d + r
    lemma_fundamental_div_mod_converse_div(n + d, d, q + 1, r);
    // the last chunk holds r elements of n, r + 1 of n + 1
    assert(n - q * d == r);
    assert forall|k: int| 0 <= k < q implies chunk_len(n, k) == d && chunk_len(n + 1, k)
        == d by {
        assert(k * d + d <= q * d) by (nonlinear_arith)
            requires
                k + 1 <= q,
                d > 0,
        ;
    }
}

/// A cursor over a `StableList`, held by one reader and polled by it alone.
///
/// It has three conceptual states: not yet started (no chunk located),
/// mid-list (the chunk of the last yielded element is cached), and stopped
/// at its fixed bound. Reaching the list's current end is not a state: the
/// cursor reports "no value" and a later poll tries again, so elements
/// appended after an exhausted poll are still yielded, in order, with
/// nothing lost or repeated. Only the `[start, end)` bound fixed at creation
/// stops it permanently.
pub struct StableListIterator {
    /// The index of the last element yielded; until the first element is
    /// yielded, the index of the first element to yield.
    idx: usize,
    /// The index just past the last element this cursor may yield; `None`
    /// leaves the cursor unbounded.
    end_idx: Option<usize>,
    /// Whether an element has been yielded yet.
    started: bool,
    /// Ordinal of the chunk holding the element at `idx`, cached once the
    /// cursor has started so a scan stays inside one chunk between boundary
    /// crossings.
    chunk: usize,
}

impl StableListIterator {
    /// The index of the next element this cursor will try to yield.
    pub closed spec fn next_pos(self) -> int {
        if self.started {
            self.idx + 1
        } else {
            self.idx as int
        }
    }

    /// The fixed end bound this cursor was created with, if any.
    pub closed spec fn bound(self) -> Option<usize> {
        self.end_idx
    }

    /// Whether the cursor stands at its fixed end bound: the one permanent
    /// stop.
    pub open spec fn at_bound(self) -> bool {
        match self.bound() {
            Some(e) => self.next_pos() >= e,
            None => false,
        }
    }

    /// Whether a poll against list contents `s` yields an element: the next
    /// position is short of the bound and committed.
    pub open spec fn yields<T>(self, s: Seq<T>) -> bool {
        !self.at_bound() && self.next_pos() < s.len()
    }

    /// The cursor as it stands after yielding the element at `next_pos`.
    pub closed spec fn advanced(self) -> Self {
        StableListIterator {
            idx: self.next_pos() as usize,
            end_idx: self.end_idx,
            started: true,
            chunk: (self.next_pos() / (CHUNK_SIZE as int)) as usize,
        }
    }

    /// Binding of a cursor to its list: once started, the last yielded index
    /// is committed and the cached chunk ordinal is the one holding it. The
    /// binding is indifferent to growth of the list.
    pub closed spec fn wf_for<T>(self, list: StableList<T>) -> bool {
        self.started ==> {
            &&& self.idx < list@.len()
            &&& self.chunk as int == self.idx as int / (CHUNK_SIZE as int)
        }
    }

    /// Polls the cursor once against `list`.
    ///
    /// If the next index stands at or past the fixed bound, nothing is
    /// yielded and the cursor never yields again. If it is short of the
    /// bound but not yet committed, nothing is yielded and the cursor is
    /// unchanged, so a later poll may yield it once it exists. Otherwise the
    /// element at the next index is yielded and the cursor advances onto it,
    /// locating a new chunk exactly when the index crosses a chunk boundary.
    pub fn next<'a, T>(&mut self, list: &'a StableList<T>) -> (r: Option<&'a T>)
        requires
            list.wf(),
            old(self).wf_for(*list),
        ensures
            final(self).wf_for(*list),
            final(self).bound() == old(self).bound(),
            old(self).yields(list@) ==> (r matches Some(v) && *v == list@[old(self).next_pos()]
                && *final(self) == old(self).advanced() && final(self).next_pos() == old(
                self,
            ).next_pos() + 1),
            !old(self).yields(list@) ==> r is None && *final(self) == *old(self),
    {
        let ghost d = CHUNK_SIZE as int;
        if !self.started {
            if self.idx >= list.len {
                // list is not yet long enough to provide a value
                return None;
            }
            if let Some(e) = self.end_idx {
                if self.idx >= e {
                    // the window was empty from the outset
                    return None;
                }
            }
            proof {
                lemma_locate(list.len as int, self.idx as int);
            }
            self.chunk = self.idx / CHUNK_SIZE;
            self.started = true;
            return Some(&list.chunks[self.chunk][self.idx % CHUNK_SIZE]);
        }
        if let Some(e) = self.end_idx {
            if self.idx + 1 >= e {
                // reached the fixed bound
                return None;
            }
        }
        if self.idx + 1 >= list.len {
            // no value to yield right now; a later poll may find one
            return None;
        }
        proof {
            lemma_locate(list.len as int, self.idx as int);
            lemma_locate(list.len as int, self.idx as int + 1);
            lemma_step_chunk(self.idx as int);
        }
        if self.idx % CHUNK_SIZE + 1 == CHUNK_SIZE {
            // the next element starts a new chunk; locate it
            self.chunk = self.chunk + 1;
        }
        self.idx = self.idx + 1;
        Some(&list.chunks[self.chunk][self.idx % CHUNK_SIZE])
    }
}

/// Stability: a push appends its element and leaves the value at every
/// existing index exactly as it was; together with `get`'s contract, a value
/// read at an index stays that index's value for the life of the list.
pub proof fn lemma_push_stable<T>(s: Seq<T>, item: T)
    ensures
        s.push(item).len() == s.len() + 1,
        forall|i: int| 0 <= i < s.len() ==> s.push(item)[i] == s[i],
        s.push(item)[s.len() as int] == item,
{
}

/// Monotonic visibility: a push never shrinks or reorders what is already
/// visible — the committed length grows by exactly one per push, so the
/// length observed after any series of pushes equals the count of pushes
/// and never decreases.
pub proof fn lemma_len_monotonic<T>(s: Seq<T>, item: T)
    ensures
        s.len() < s.push(item).len(),
        s.push(item).len() == s.len() + 1,
{
}

/// A cursor's binding to its list survives growth: whatever holds the
/// cursor may keep polling it across pushes to the list.
pub proof fn lemma_wf_for_grows<T>(it: StableListIterator, pre: StableList<T>, post: StableList<T>)
    requires
        it.wf_for(pre),
        pre@.len() <= post@.len(),
    ensures
        it.wf_for(post),
{
}

/// Resumption: an unbounded cursor that has reported "no value" is
/// unchanged by the failed poll, and once the list has grown past the
/// cursor's position, the same cursor yields exactly the element at that
/// position and moves one step forward: nothing is lost and nothing is
/// yielded twice.
pub proof fn lemma_iter_resumes<T>(it: StableListIterator, s1: Seq<T>, s2: Seq<T>)
    requires
        it.bound() is None,
        !it.yields(s1),
        s1.is_prefix_of(s2),
        it.next_pos() < s2.len(),
        s2.len() <= usize::MAX,  // a list never holds more elements
    ensures
        it.yields(s2),
        it.advanced().next_pos() == it.next_pos() + 1,
        it.advanced().bound() is None,
{
}

/// Bounded window: a cursor bounded by `end` yields only elements at
/// indices below `end`, whatever the list has grown to; and once its
/// position has reached `end` it never yields again.
pub proof fn lemma_bounded_iter_window<T>(it: StableListIterator, s: Seq<T>, end: usize)
    requires
        it.bound() == Some(end),
    ensures
        it.yields(s) ==> it.next_pos() < end && it.next_pos() < s.len(),
        it.next_pos() >= end ==> !it.yields(s),
{
}

/// Stepping an index forward by one crosses into the next chunk exactly
/// when its offset was the last of its chunk.
proof fn lemma_step_chunk(i: int)
    requires
        0 <= i,
    ensures
        i % (CHUNK_SIZE as int) == CHUNK_SIZE as int - 1 ==> (i + 1) / (CHUNK_SIZE as int) == i / (
        CHUNK_SIZE as int) + 1 && (i + 1) % (CHUNK_SIZE as int) == 0,
        i % (CHUNK_SIZE as int) < CHUNK_SIZE as int - 1 ==> (i + 1) / (CHUNK_SIZE as int) == i / (
        CHUNK_SIZE as int) && (i + 1) % (CHUNK_SIZE as int) == i % (CHUNK_SIZE as int) + 1,
{
    let d = CHUNK_SIZE as int;
    let q = i / d;
    let r = i % d;
    lemma_fundamental_div_mod(i, d);
    lemma_mod_division_less_than_divisor(i, d);
    lemma_div_pos_is_pos(i, d);
    if r == d - 1 {
        assert((q + 1) * d == q * d + d) by (nonlinear_arith);
        lemma_fundamental_div_mod_converse_div(i + 1, d, q + 1, 0);
        lemma_fundamental_div_mod_converse_mod(i + 1, d, q + 1, 0);
    } else {
        lemma_fundamental_div_mod_converse_div(i + 1, d, q, r + 1);
        lemma_fundamental_div_mod_converse_mod(i + 1, d, q, r + 1);
    }
}

} // verus!
