use vstd::prelude::*;

verus! {

/// Fixed-capacity rotating-cursor buffer.
///
/// The abstract value of a `RingBuffer<T, N>` (its view) is a sequence of
/// exactly `N` elements ordered from the oldest retained element to the most
/// recently written one. `push` drops the oldest element and appends the new
/// one at the back; no operation ever changes the length.
///
/// Reads and writes address elements in two ways:
/// - a signed offset `k` in `[-N, N)` counts from the most recent write
///   (`0` is the most recent element, `-1` the one written before it;
///   offsets wrap modulo `N`, so `k` and `k - N` name the same element);
/// - an unsigned offset `j` in `[0, N]` counts from the oldest retained
///   element (`j == N` wraps back to the oldest).
pub struct RingBuffer<T, const N: usize> {
    current_write_idx: usize,
    buffer: [T; N],
}

/// Reduces `pos` in `[0, 2n)` into `[0, n)` by one conditional subtraction.
pub open spec fn wrap_index(pos: int, n: int) -> int {
    if pos >= n {
        pos - n
    } else {
        pos
    }
}

/// The position in the view (oldest-first order) that a signed offset `k`
/// in `[-n, n)` addresses: `(k + n - 1) mod n`, so that `k == 0` is the
/// newest element at view position `n - 1`.
pub open spec fn signed_view_pos(k: int, n: int) -> int {
    if k >= 1 {
        k - 1
    } else if k == -n {
        n - 1
    } else {
        n - 1 + k
    }
}

/// The position in the view that an unsigned offset `j` in `[0, n]`
/// addresses: `j mod n`, so that `j == 0` is the oldest element.
pub open spec fn unsigned_view_pos(j: int, n: int) -> int {
    if j == n {
        0
    } else {
        j
    }
}

/// One push on the abstract sequence: the oldest element leaves at the
/// front, the new value enters at the back.
pub open spec fn push_model<T>(s: Seq<T>, value: T) -> Seq<T> {
    s.subrange(1, s.len() as int).push(value)
}

/// The abstract state after pushing each element of `vals` in order.
pub open spec fn push_seq_model<T>(s: Seq<T>, vals: Seq<T>) -> Seq<T>
    decreases vals.len(),
{
    if vals.len() == 0 {
        s
    } else {
        push_seq_model(push_model(s, vals[0]), vals.subrange(1, vals.len() as int))
    }
}

/// Pushing `vals` leaves exactly the last `s.len()` elements of the pushed
/// history, padded at the front with whatever the buffer held before.
proof fn lemma_push_seq_window<T>(s: Seq<T>, vals: Seq<T>)
    requires
        s.len() >= 1,
    ensures
        push_seq_model(s, vals) == (s + vals).subrange(
            vals.len() as int,
            vals.len() + s.len() as int,
        ),
    decreases vals.len(),
{
    if vals.len() == 0 {
        assert(push_seq_model(s, vals) =~= (s + vals).subrange(0, s.len() as int));
    } else {
        let tail = vals.subrange(1, vals.len() as int);
        let s1 = push_model(s, vals[0]);
        assert(s1.len() == s.len());
        lemma_push_seq_window(s1, tail);
        assert((s1 + tail).subrange(tail.len() as int, tail.len() + s1.len() as int) =~= (s
            + vals).subrange(vals.len() as int, vals.len() + s.len() as int));
    }
}

/// After any non-empty sequence of pushes, the element at signed offset `0`
/// is the value pushed most recently; and once at least `n` values have been
/// pushed into a buffer of capacity `n`, the element at unsigned offset `0`
/// is the oldest of the last `n` values pushed.
pub proof fn lemma_positional_reads<T>(s: Seq<T>, vals: Seq<T>)
    requires
        s.len() >= 1,
        vals.len() >= 1,
    ensures
        push_seq_model(s, vals)[signed_view_pos(0, s.len() as int)] == vals.last(),
        vals.len() >= s.len() ==> push_seq_model(s, vals)[unsigned_view_pos(0, s.len() as int)]
            == vals[vals.len() - s.len()],
{
    lemma_push_seq_window(s, vals);
}

impl<T, const N: usize> View for RingBuffer<T, N> {
    type V = Seq<T>;

    closed spec fn view(&self) -> Seq<T> {
        Seq::new(N as nat, |i: int| self.buffer@[wrap_index(self.current_write_idx + i, N as int)])
    }
}

impl<T, const N: usize> RingBuffer<T, N> {
    /// Internal consistency: the write cursor stays inside the storage, and
    /// the capacity is small enough for signed offsets to be computed in
    /// `isize`.
    pub closed spec fn inv(&self) -> bool {
        self.current_write_idx < N && N <= isize::MAX as usize
    }

    /// Maps an unsigned offset `j` in `[0, N]` to the storage index it
    /// addresses, and relates it to the view.
    fn storage_index_of_unsigned(&self, j: usize) -> (bi: usize)
        requires
            self.inv(),
            j <= N,
        ensures
            bi < N,
            bi as int == wrap_index(
                self.current_write_idx + unsigned_view_pos(j as int, N as int),
                N as int,
            ),
            self.buffer@[bi as int] == self@[unsigned_view_pos(j as int, N as int)],
    {
        let u = if j == N { 0 } else { j };
        let bi = if u < N - self.current_write_idx {
            self.current_write_idx + u
        } else {
            u - (N - self.current_write_idx)
        };
        proof {
            assert(bi == wrap_index(self.current_write_idx + u, N as int));
            assert(self@[u as int] == self.buffer@[wrap_index(self.current_write_idx + u, N as int)]);
        }
        bi
    }

    /// Maps a signed offset `k` in `[-N, N)` to the unsigned offset
    /// `(k + N - 1) mod N` that addresses the same element.
    fn unsigned_of_signed(&self, k: isize) -> (j: usize)
        requires
            self.inv(),
            -(N as int) <= k < N as int,
        ensures
            j < N,
            j as int == signed_view_pos(k as int, N as int),
    {
        if k >= 1 {
            (k as usize) - 1
        } else {
            let m = (-k) as usize;
            if m == N {
                N - 1
            } else {
                N - 1 - m
            }
        }
    }

    /// Reads the element `k` steps relative to the most recent write
    /// (`0` the most recent, `-1` the one before it).
    pub fn get_signed(&self, k: isize) -> (r: &T)
        requires
            self.inv(),
            -(N as int) <= k < N as int,
        ensures
            *r == self@[signed_view_pos(k as int, N as int)],
    {
        let j = self.unsigned_of_signed(k);
        let bi = self.storage_index_of_unsigned(j);
        &self.buffer[bi]
    }

    /// Reads the element `j` steps after the oldest retained element.
    pub fn get_unsigned(&self, j: usize) -> (r: &T)
        requires
            self.inv(),
            j <= N,
        ensures
            *r == self@[unsigned_view_pos(j as int, N as int)],
    {
        let bi = self.storage_index_of_unsigned(j);
        &self.buffer[bi]
    }

    /// Overwrites the element `k` steps relative to the most recent write.
    pub fn set_signed(&mut self, k: isize, value: T)
        requires
            old(self).inv(),
            -(N as int) <= k < N as int,
        ensures
            final(self).inv(),
            final(self)@ == old(self)@.update(signed_view_pos(k as int, N as int), value),
    {
        let j = self.unsigned_of_signed(k);
        let bi = self.storage_index_of_unsigned(j);
        self.buffer[bi] = value;
        proof {
            assert(self@ =~= old(self)@.update(signed_view_pos(k as int, N as int), value));
        }
    }

    /// Overwrites the element `j` steps after the oldest retained element.
    pub fn set_unsigned(&mut self, j: usize, value: T)
        requires
            old(self).inv(),
            j <= N,
        ensures
            final(self).inv(),
            final(self)@ == old(self)@.update(unsigned_view_pos(j as int, N as int), value),
    {
        let bi = self.storage_index_of_unsigned(j);
        self.buffer[bi] = value;
        proof {
            assert(self@ =~= old(self)@.update(unsigned_view_pos(j as int, N as int), value));
        }
    }

    /// Overwrites the oldest element with `value` and advances the cursor,
    /// so that `value` becomes the most recent element.
    pub fn push(&mut self, value: T)
        requires
            old(self).inv(),
        ensures
            final(self).inv(),
            final(self)@ == push_model(old(self)@, value),
    {
        self.buffer[self.current_write_idx] = value;
        self.current_write_idx = self.current_write_idx + 1;
        if self.current_write_idx >= N {
            self.current_write_idx = self.current_write_idx - N;
        }
        proof {
            assert(self@ =~= push_model(old(self)@, value));
        }
    }
}

impl<T: Copy, const N: usize> RingBuffer<T, N> {
    /// A buffer holding `N` copies of `val`, with the cursor at the start.
    pub fn with_init_val(val: T) -> (r: Self)
        requires
            0 < N,
            N <= isize::MAX as usize,
        ensures
            r.inv(),
            r@ == Seq::new(N as nat, |i: int| val),
    {
        let r = Self { current_write_idx: 0, buffer: [val; N] };
        proof {
            assert(r@ =~= Seq::new(N as nat, |i: int| val));
        }
        r
    }
}

} // verus!
