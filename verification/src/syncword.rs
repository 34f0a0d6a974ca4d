use vstd::prelude::*;
use crate::ringbuffer::{RingBuffer, push_model};

verus! {

/// Sliding cross-correlation scan for a known syncword.
///
/// The scanner keeps one running mismatch count per hypothesized alignment
/// of the pattern against the incoming symbol stream. The history is a ring
/// of `N` counters in oldest-first order: the counter pushed on the tick a
/// hypothetical syncword started is the oldest once all `N` symbols of that
/// hypothesis have been compared, so detection reads the oldest entry.
pub struct SyncwordScanXCorr<const N: usize> {
    syncword: [bool; N],
    error_hist: RingBuffer<u16, N>,
    error_thresh: u16,
}

/// One scanner tick on the abstract counter history: a fresh zero counter
/// enters at the back (evicting the oldest), and every counter whose pattern
/// position disagrees with the incoming symbol is incremented. The counter
/// at back-offset `idx` (view position `len - 1 - idx`) compares pattern
/// position `idx` against the symbol.
pub open spec fn corr_tick_model(pattern: Seq<bool>, hist: Seq<u16>, sym: bool) -> Seq<u16>
    recommends
        pattern.len() == hist.len(),
{
    let base = push_model(hist, 0u16);
    Seq::new(
        hist.len(),
        |m: int|
            if pattern[hist.len() - 1 - m] != sym {
                (base[m] + 1) as u16
            } else {
                base[m]
            },
    )
}

impl<const N: usize> SyncwordScanXCorr<N> {
    /// The syncword pattern this scanner was built with.
    pub closed spec fn pattern(&self) -> Seq<bool> {
        self.syncword@
    }

    /// The mismatch counters, oldest hypothesis first.
    pub closed spec fn hist(&self) -> Seq<u16> {
        self.error_hist@
    }

    /// The configured mismatch threshold.
    pub closed spec fn thresh(&self) -> u16 {
        self.error_thresh
    }

    /// Well-formedness: the counter ring is consistent, and every counter
    /// keeps enough headroom below `u16::MAX` for the increments it can
    /// still receive before it is evicted.
    pub closed spec fn inv(&self) -> bool {
        &&& self.error_hist.inv()
        &&& self.error_hist@.len() == N
        &&& 1 <= N
        &&& self.error_thresh + N <= u16::MAX
        &&& forall|m: int|
            0 <= m < N ==> #[trigger] self.error_hist@[m] as int <= self.error_thresh + 1 + (N - 1
                - m)
    }

    /// A scanner for `syncword`, with every hypothesis initialized just
    /// above the threshold ("no lock").
    pub fn new(syncword: [bool; N], error_thresh: u16) -> (r: Self)
        requires
            1 <= N,
            N <= isize::MAX as usize,
            error_thresh + N <= u16::MAX,
        ensures
            r.inv(),
            r.pattern() == syncword@,
            r.thresh() == error_thresh,
            r.hist() == Seq::new(N as nat, |m: int| (error_thresh + 1) as u16),
    {
        Self {
            syncword,
            error_thresh,
            error_hist: RingBuffer::<u16, N>::with_init_val(error_thresh + 1),
        }
    }

    /// Feeds one symbol: shifts in a fresh hypothesis, charges a mismatch to
    /// every live hypothesis that disagrees, and reports whether the fully
    /// accumulated hypothesis (the oldest counter) is within the threshold.
    pub fn tick(&mut self, symbol_in: bool) -> (r: bool)
        requires
            old(self).inv(),
        ensures
            final(self).inv(),
            final(self).pattern() == old(self).pattern(),
            final(self).thresh() == old(self).thresh(),
            final(self).hist() == corr_tick_model(
                old(self).pattern(),
                old(self).hist(),
                symbol_in,
            ),
            r == (final(self).hist()[0] <= old(self).thresh()),
    {
        self.error_hist.push(0u16);
        let ghost base = self.error_hist@;
        let ghost target = corr_tick_model(old(self).pattern(), old(self).hist(), symbol_in);
        proof {
            assert(forall|m: int|
                0 <= m < N ==> #[trigger] base[m] as int <= self.error_thresh + (N - 1 - m));
        }
        let mut idx: usize = 0;
        while idx < N
            invariant
                self.error_hist.inv(),
                self.error_hist@.len() == N,
                self.syncword == old(self).syncword,
                self.error_thresh == old(self).error_thresh,
                1 <= N,
                self.error_thresh + N <= u16::MAX,
                idx <= N,
                old(self).hist().len() == N,
                old(self).pattern().len() == N,
                base == push_model(old(self).hist(), 0u16),
                target == corr_tick_model(old(self).pattern(), old(self).hist(), symbol_in),
                forall|m: int|
                    0 <= m < N ==> #[trigger] base[m] as int <= self.error_thresh + (N - 1 - m),
                forall|m: int| 0 <= m < N - idx ==> #[trigger] self.error_hist@[m] == base[m],
                forall|m: int|
                    N - idx <= m < N ==> #[trigger] self.error_hist@[m] == target[m],
            decreases N - idx,
        {
            let ghost mm = N - 1 - idx;
            if self.syncword[idx] != symbol_in {
                let k = -(idx as isize);
                let c = *self.error_hist.get_signed(k);
                self.error_hist.set_signed(k, c + 1);
            }
            proof {
                assert(self.error_hist@[mm] == target[mm]);
            }
            idx = idx + 1;
        }
        proof {
            assert(self.error_hist@ =~= target);
        }
        let newest_complete = *self.error_hist.get_unsigned(0);
        newest_complete <= self.error_thresh
    }

    /// Forces every hypothesis back above the threshold, so a consumed lock
    /// cannot re-trigger on the same alignment; reports the (now trivially
    /// false) lock state of the oldest hypothesis.
    pub fn reset(&mut self) -> (r: bool)
        requires
            old(self).inv(),
        ensures
            final(self).inv(),
            final(self).pattern() == old(self).pattern(),
            final(self).thresh() == old(self).thresh(),
            final(self).hist() == Seq::new(N as nat, |m: int| (old(self).thresh() + 1) as u16),
            r == false,
    {
        let mut idx: usize = 0;
        while idx < N
            invariant
                self.error_hist.inv(),
                self.error_hist@.len() == N,
                self.syncword == old(self).syncword,
                self.error_thresh == old(self).error_thresh,
                1 <= N,
                self.error_thresh + N <= u16::MAX,
                idx <= N,
                forall|m: int|
                    0 <= m < idx ==> #[trigger] self.error_hist@[m] == (self.error_thresh
                        + 1) as u16,
                forall|m: int|
                    idx <= m < N ==> #[trigger] self.error_hist@[m] == old(self).hist()[m],
            decreases N - idx,
        {
            self.error_hist.set_unsigned(idx, self.error_thresh + 1);
            idx = idx + 1;
        }
        proof {
            assert(self.error_hist@ =~= Seq::new(
                N as nat,
                |m: int| (old(self).thresh() + 1) as u16,
            ));
        }
        let oldest = *self.error_hist.get_unsigned(0);
        oldest <= self.error_thresh
    }
}

/// The abstract state of a packetizer: the capture flag, the capture index,
/// the packet buffer contents and the scanner's counter history.
#[verifier::ext_equal]
pub struct PacketizerModel {
    pub active: bool,
    pub idx: int,
    pub packet: Seq<bool>,
    pub hist: Seq<u16>,
}

/// One packetizer step. While capturing, the symbol is written at the
/// capture index; completing the packet emits it and returns to scanning.
/// While scanning, the symbol feeds the correlator; a detection consumes no
/// symbol, resets every hypothesis above the threshold and starts a capture.
pub open spec fn pkt_step(pattern: Seq<bool>, thresh: u16, st: PacketizerModel, sym: bool) -> (
    PacketizerModel,
    Option<Seq<bool>>,
) {
    if st.active {
        let packet2 = st.packet.update(st.idx, sym);
        if st.idx + 1 == st.packet.len() {
            (PacketizerModel { active: false, idx: 0, packet: packet2, hist: st.hist }, Some(
                packet2,
            ))
        } else {
            (PacketizerModel { active: true, idx: st.idx + 1, packet: packet2, hist: st.hist },
            None)
        }
    } else {
        let hist2 = corr_tick_model(pattern, st.hist, sym);
        if hist2[0] <= thresh {
            (PacketizerModel {
                active: true,
                idx: 0,
                packet: st.packet,
                hist: Seq::new(st.hist.len(), |m: int| (thresh + 1) as u16),
            }, None)
        } else {
            (PacketizerModel { active: false, idx: 0, packet: st.packet, hist: hist2 }, None)
        }
    }
}

/// The packetizer run over a whole symbol sequence: the final state and the
/// per-symbol emissions.
pub open spec fn pkt_run(pattern: Seq<bool>, thresh: u16, st: PacketizerModel, syms: Seq<bool>) -> (
    PacketizerModel,
    Seq<Option<Seq<bool>>>,
)
    decreases syms.len(),
{
    if syms.len() == 0 {
        (st, Seq::empty())
    } else {
        let step = pkt_step(pattern, thresh, st, syms[0]);
        let rest = pkt_run(pattern, thresh, step.0, syms.subrange(1, syms.len() as int));
        (rest.0, seq![step.1] + rest.1)
    }
}

/// A counter history in which every hypothesis stands one mismatch above a
/// zero threshold: the state of a fresh scanner built with threshold zero.
pub open spec fn all_ones_hist(n: nat) -> Seq<u16> {
    Seq::new(n, |m: int| 1u16)
}

/// Processing `a + b` is processing `a`, then `b` from the state `a` leaves
/// behind, with the emissions concatenated.
proof fn lemma_pkt_run_concat(
    pattern: Seq<bool>,
    thresh: u16,
    st: PacketizerModel,
    a: Seq<bool>,
    b: Seq<bool>,
)
    ensures
        pkt_run(pattern, thresh, st, a + b).0 == pkt_run(
            pattern,
            thresh,
            pkt_run(pattern, thresh, st, a).0,
            b,
        ).0,
        pkt_run(pattern, thresh, st, a + b).1 == pkt_run(pattern, thresh, st, a).1 + pkt_run(
            pattern,
            thresh,
            pkt_run(pattern, thresh, st, a).0,
            b,
        ).1,
    decreases a.len(),
{
    if a.len() == 0 {
        assert(a + b =~= b);
        assert(pkt_run(pattern, thresh, st, a).1 + pkt_run(pattern, thresh, st, b).1 =~= pkt_run(
            pattern,
            thresh,
            st,
            b,
        ).1);
    } else {
        let step = pkt_step(pattern, thresh, st, a[0]);
        let a1 = a.subrange(1, a.len() as int);
        lemma_pkt_run_concat(pattern, thresh, step.0, a1, b);
        assert((a + b)[0] == a[0]);
        assert((a + b).subrange(1, (a + b).len() as int) =~= a1 + b);
        let mid = pkt_run(pattern, thresh, step.0, a1);
        assert(seq![step.1] + (mid.1 + pkt_run(pattern, thresh, mid.0, b).1) =~= (seq![step.1]
            + mid.1) + pkt_run(pattern, thresh, mid.0, b).1);
    }
}

/// While a fresh zero-threshold scanner is fed the syncword itself, nothing
/// is emitted and no detection fires before the last syncword symbol: every
/// hypothesis older than the feed still carries its initial mismatch, while
/// the hypothesis aligned with the feed's start stays at zero mismatches.
/// When the last symbol arrives, that hypothesis is the oldest, detection
/// fires, and the packetizer switches to capturing with a reset scanner.
proof fn lemma_scan_phase(pattern: Seq<bool>, packet0: Seq<bool>, t: int)
    requires
        1 <= pattern.len() <= u16::MAX,
        0 <= t <= pattern.len(),
    ensures
        ({
            let n = pattern.len() as int;
            let st0 = PacketizerModel {
                active: false,
                idx: 0,
                packet: packet0,
                hist: all_ones_hist(pattern.len()),
            };
            let r = pkt_run(pattern, 0u16, st0, pattern.subrange(0, t));
            &&& r.1.len() == t
            &&& (forall|i: int| 0 <= i < t ==> r.1[i] is None)
            &&& r.0.packet == packet0
            &&& r.0.idx == 0
            &&& r.0.hist.len() == n
            &&& (t < n ==> {
                &&& !r.0.active
                &&& (forall|m: int| 0 <= m < n - t ==> (#[trigger] r.0.hist[m]) as int >= 1)
                &&& (t >= 1 ==> r.0.hist[n - t] == 0u16)
                &&& (forall|m: int| 0 <= m < n ==> (#[trigger] r.0.hist[m]) as int <= 1 + (n - 1
                    - m))
            })
            &&& (t == n ==> r.0.active && r.0.hist == all_ones_hist(pattern.len()))
        }),
    decreases t,
{
    let n = pattern.len() as int;
    let st0 = PacketizerModel {
        active: false,
        idx: 0,
        packet: packet0,
        hist: all_ones_hist(pattern.len()),
    };
    if t == 0 {
        assert(pattern.subrange(0, 0) =~= Seq::<bool>::empty());
    } else {
        lemma_scan_phase(pattern, packet0, t - 1);
        let fed = pattern.subrange(0, t - 1);
        let one = seq![pattern[t - 1]];
        assert(pattern.subrange(0, t) =~= fed + one);
        lemma_pkt_run_concat(pattern, 0u16, st0, fed, one);
        let prev = pkt_run(pattern, 0u16, st0, fed);
        let step = pkt_step(pattern, 0u16, prev.0, pattern[t - 1]);
        assert(one.subrange(1, 1) =~= Seq::<bool>::empty());
        assert(pkt_run(pattern, 0u16, step.0, one.subrange(1, 1)).0 == step.0);
        assert(pkt_run(pattern, 0u16, step.0, one.subrange(1, 1)).1 == Seq::<Option<
            Seq<bool>,
        >>::empty());
        assert(pkt_run(pattern, 0u16, prev.0, one).0 == step.0);
        assert(pkt_run(pattern, 0u16, prev.0, one).1 =~= seq![step.1]);
        let base = push_model(prev.0.hist, 0u16);
        let hist2 = corr_tick_model(pattern, prev.0.hist, pattern[t - 1]);
        assert(forall|m: int| 0 <= m < n - 1 ==> base[m] == prev.0.hist[m + 1]);
        assert(base[n - 1] == 0u16);
        assert(forall|m: int| 0 <= m < n ==> (#[trigger] base[m]) as int <= 1 + (n - 1 - m) - 1);
        assert(forall|m: int|
            0 <= m < n ==> (#[trigger] hist2[m]) as int <= base[m] as int + 1 <= 1 + (n - 1 - m));
        // The hypothesis aligned with the feed start never mismatches.
        assert(hist2[n - t] == 0u16) by {
            if t == 1 {
                assert(base[n - 1] == 0u16);
            } else {
                assert(base[n - t] == prev.0.hist[n - (t - 1)]);
            }
            assert(pattern[n - 1 - (n - t)] == pattern[t - 1]);
        }
        if t < n {
            // Before the syncword completes, the oldest counter descends
            // from an initial hypothesis and is still above threshold zero.
            assert(base[0] == prev.0.hist[1]);
            assert(prev.0.hist[1] as int >= 1);
            assert(hist2[0] as int >= base[0] as int >= 1);
            assert(!(hist2[0] <= 0u16));
            assert(step.0.hist == hist2);
            assert(!step.0.active);
        } else {
            // The aligned counter is now the oldest: detection fires and the
            // scanner is reset.
            assert(hist2[0] == 0u16);
            assert(step.0.active);
            assert(step.0.hist =~= all_ones_hist(pattern.len()));
        }
        assert(pkt_run(pattern, 0u16, st0, pattern.subrange(0, t)).1 =~= prev.1 + seq![step.1]);
    }
}

/// While capturing, each symbol lands at the capture index and nothing is
/// emitted until the buffer fills; the full buffer is emitted exactly once,
/// holding the captured symbols after any prefix already in place.
proof fn lemma_capture_phase(
    pattern: Seq<bool>,
    thresh: u16,
    st: PacketizerModel,
    done: Seq<bool>,
    rest: Seq<bool>,
)
    requires
        st.active,
        rest.len() >= 1,
        st.idx == done.len(),
        done.len() + rest.len() == st.packet.len(),
        forall|i: int| 0 <= i < done.len() ==> st.packet[i] == done[i],
    ensures
        ({
            let r = pkt_run(pattern, thresh, st, rest);
            &&& r.1.len() == rest.len()
            &&& (forall|i: int| 0 <= i < rest.len() - 1 ==> r.1[i] is None)
            &&& r.1.last() == Some(done + rest)
            &&& !r.0.active
            &&& r.0.idx == 0
            &&& r.0.hist == st.hist
        }),
    decreases rest.len(),
{
    let step = pkt_step(pattern, thresh, st, rest[0]);
    let packet2 = st.packet.update(st.idx, rest[0]);
    let rest1 = rest.subrange(1, rest.len() as int);
    if rest.len() == 1 {
        assert(packet2 =~= done + rest);
        assert(pkt_run(pattern, thresh, step.0, rest1).0 == step.0);
        assert(pkt_run(pattern, thresh, step.0, rest1).1 == Seq::<Option<Seq<bool>>>::empty());
        assert(pkt_run(pattern, thresh, st, rest).1 =~= seq![step.1]);
    } else {
        assert(step.0.active);
        lemma_capture_phase(pattern, thresh, step.0, done.push(rest[0]), rest1);
        assert(done.push(rest[0]) + rest1 =~= done + rest);
        let r1 = pkt_run(pattern, thresh, step.0, rest1);
        assert(pkt_run(pattern, thresh, st, rest).1 =~= seq![step.1] + r1.1);
        assert((seq![step.1] + r1.1).last() == r1.1.last());
    }
}

/// End-to-end framing law: feeding a zero-threshold packetizer the exact
/// syncword followed by one payload of the packet length emits nothing
/// until the last payload symbol, and exactly one packet there, equal to
/// that payload — whatever the packet buffer held beforehand.
pub proof fn lemma_packetizer_end_to_end(
    pattern: Seq<bool>,
    payload: Seq<bool>,
    packet0: Seq<bool>,
)
    requires
        1 <= pattern.len() <= u16::MAX,
        payload.len() == packet0.len(),
        payload.len() >= 1,
    ensures
        ({
            let st0 = PacketizerModel {
                active: false,
                idx: 0,
                packet: packet0,
                hist: all_ones_hist(pattern.len()),
            };
            let r = pkt_run(pattern, 0u16, st0, pattern + payload);
            &&& r.1.len() == pattern.len() + payload.len()
            &&& (forall|i: int| 0 <= i < r.1.len() - 1 ==> r.1[i] is None)
            &&& r.1.last() == Some(payload)
        }),
{
    let n = pattern.len() as int;
    let st0 = PacketizerModel {
        active: false,
        idx: 0,
        packet: packet0,
        hist: all_ones_hist(pattern.len()),
    };
    lemma_scan_phase(pattern, packet0, n);
    assert(pattern.subrange(0, n) =~= pattern);
    let scanned = pkt_run(pattern, 0u16, st0, pattern);
    lemma_pkt_run_concat(pattern, 0u16, st0, pattern, payload);
    lemma_capture_phase(pattern, 0u16, scanned.0, Seq::empty(), payload);
    let r = pkt_run(pattern, 0u16, st0, pattern + payload);
    let captured = pkt_run(pattern, 0u16, scanned.0, payload);
    assert(Seq::empty() + payload =~= payload);
    assert(r.1.last() == captured.1.last());
    assert(forall|i: int| 0 <= i < n ==> r.1[i] == scanned.1[i]);
    assert(forall|i: int| n <= i < r.1.len() ==> r.1[i] == captured.1[i - n]);
}

/// Packetizing state machine: scans for the syncword, then captures exactly
/// `PACKET_N` symbols and emits them as one packet.
pub struct SyncwordPacketizer<const SYNC_N: usize, const PACKET_N: usize> {
    scan: SyncwordScanXCorr<SYNC_N>,
    packet_active: bool,
    packet_buffer: [bool; PACKET_N],
    packet_buffer_idx: usize,
}

impl<const SYNC_N: usize, const PACKET_N: usize> SyncwordPacketizer<SYNC_N, PACKET_N> {
    /// The syncword pattern being scanned for.
    pub closed spec fn pattern(&self) -> Seq<bool> {
        self.scan.pattern()
    }

    /// The configured mismatch threshold.
    pub closed spec fn thresh(&self) -> u16 {
        self.scan.thresh()
    }

    /// The abstract state this packetizer is in.
    pub closed spec fn model(&self) -> PacketizerModel {
        PacketizerModel {
            active: self.packet_active,
            idx: self.packet_buffer_idx as int,
            packet: self.packet_buffer@,
            hist: self.scan.hist(),
        }
    }

    /// Well-formedness: the scanner is consistent, and the capture index is
    /// inside the buffer while capturing and parked at zero while scanning.
    pub closed spec fn inv(&self) -> bool {
        &&& self.scan.inv()
        &&& 1 <= PACKET_N
        &&& (self.packet_active ==> self.packet_buffer_idx < PACKET_N)
        &&& (!self.packet_active ==> self.packet_buffer_idx == 0)
    }

    /// A packetizer in scanning state with an all-clear packet buffer and
    /// every syncword hypothesis initialized above the threshold.
    pub fn new(syncword: [bool; SYNC_N], error_thresh: u16) -> (r: Self)
        requires
            1 <= SYNC_N,
            SYNC_N <= isize::MAX as usize,
            error_thresh + SYNC_N <= u16::MAX,
            1 <= PACKET_N,
        ensures
            r.inv(),
            r.pattern() == syncword@,
            r.thresh() == error_thresh,
            r.model() == (PacketizerModel {
                active: false,
                idx: 0,
                packet: Seq::new(PACKET_N as nat, |i: int| false),
                hist: Seq::new(SYNC_N as nat, |m: int| (error_thresh + 1) as u16),
            }),
    {
        let r = Self {
            scan: SyncwordScanXCorr::new(syncword, error_thresh),
            packet_active: false,
            packet_buffer: [false; PACKET_N],
            packet_buffer_idx: 0,
        };
        proof {
            assert(r.packet_buffer@ =~= Seq::new(PACKET_N as nat, |i: int| false));
        }
        r
    }

    /// Feeds one recovered symbol. Emits the filled packet buffer exactly
    /// once per completed capture, and nothing otherwise.
    pub fn tick(&mut self, symbol_in: bool) -> (r: Option<[bool; PACKET_N]>)
        requires
            old(self).inv(),
        ensures
            final(self).inv(),
            final(self).pattern() == old(self).pattern(),
            final(self).thresh() == old(self).thresh(),
            final(self).model() == pkt_step(
                old(self).pattern(),
                old(self).thresh(),
                old(self).model(),
                symbol_in,
            ).0,
            match r {
                Some(p) => pkt_step(
                    old(self).pattern(),
                    old(self).thresh(),
                    old(self).model(),
                    symbol_in,
                ).1 == Some(p@),
                None => pkt_step(
                    old(self).pattern(),
                    old(self).thresh(),
                    old(self).model(),
                    symbol_in,
                ).1 is None,
            },
    {
        let ghost step = pkt_step(
            old(self).pattern(),
            old(self).thresh(),
            old(self).model(),
            symbol_in,
        );
        if self.packet_active {
            self.packet_buffer[self.packet_buffer_idx] = symbol_in;
            self.packet_buffer_idx = self.packet_buffer_idx + 1;
            if self.packet_buffer_idx == PACKET_N {
                self.packet_active = false;
                self.packet_buffer_idx = 0;
                proof {
                    assert(self.model() =~= step.0);
                }
                return Some(self.packet_buffer);
            }
            proof {
                assert(self.model() =~= step.0);
            }
            return None;
        }
        if self.scan.tick(symbol_in) {
            self.packet_active = true;
            let _ = self.scan.reset();
        }
        proof {
            assert(self.model() =~= step.0);
        }
        None
    }
}

} // verus!
