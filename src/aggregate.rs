//! Sparse per-frame aggregation of edit counts, and the dense frame
//! sequence it finishes as.
use vstd::prelude::*;
use std::collections::HashMap;
use crate::binning::{frame_number, frame_of, EPOCH};

verus! {

broadcast use vstd::std_specs::hash::group_hash_axioms;

/// The largest count a (frame, pixel) pair can hold; further edits there
/// are not counted.
pub const COUNT_CAP: u16 = 65535;

/// A frame number and the (pixel index, edit count) pairs of that frame.
pub type FrameRecord = (u32, Vec<(u32, u16)>);

/// The count after one more edit: one more, but never past `COUNT_CAP`.
pub open spec fn bumped(counts: Map<(u32, u32), u16>, k: (u32, u32)) -> u16 {
    if counts.contains_key(k) {
        if counts[k] < COUNT_CAP {
            (counts[k] + 1) as u16
        } else {
            COUNT_CAP
        }
    } else {
        1
    }
}

/// The frame range after seeing `frame`.
pub open spec fn widened(range: Option<(u32, u32)>, frame: u32) -> (u32, u32) {
    match range {
        None => (frame, frame),
        Some((a, b)) => (
            if frame < a {
                frame
            } else {
                a
            },
            if frame > b {
                frame
            } else {
                b
            },
        ),
    }
}

/// The deltas of one frame say exactly what `counts` holds for `frame`:
/// each pixel once, with its count, and no pixel left out.
pub open spec fn deltas_match(deltas: Seq<(u32, u16)>, counts: Map<(u32, u32), u16>, frame: u32) -> bool {
    &&& forall|j: int|
        0 <= j < deltas.len() ==> counts.contains_key((frame, (#[trigger] deltas[j]).0))
            && counts[(frame, deltas[j].0)] == deltas[j].1
    &&& forall|j1: int, j2: int|
        0 <= j1 < deltas.len() && 0 <= j2 < deltas.len() && j1 != j2 ==> (#[trigger] deltas[j1]).0
            != (#[trigger] deltas[j2]).0
    &&& forall|p: u32|
        #[trigger] counts.contains_key((frame, p)) ==> exists|j: int|
            0 <= j < deltas.len() && (#[trigger] deltas[j]).0 == p
}

/// `records` is the dense, renumbered sequence of the frames
/// `range.0 ..= range.1` of `counts`; empty where no frame was seen.
pub open spec fn dense_frames(
    records: Seq<FrameRecord>,
    counts: Map<(u32, u32), u16>,
    range: Option<(u32, u32)>,
) -> bool {
    match range {
        None => records.len() == 0,
        Some((a, b)) => {
            &&& records.len() == b - a + 1
            &&& forall|i: int|
                0 <= i < records.len() ==> (#[trigger] records[i]).0 == i && deltas_match(
                    records[i].1@,
                    counts,
                    (a + i) as u32,
                )
        },
    }
}

/// Record `j` of `r` holds a delta for pixel `p`.
pub open spec fn placed(r: Seq<FrameRecord>, j: int, p: u32) -> bool {
    exists|d: int| 0 <= d < r[j].1@.len() && #[trigger] r[j].1@[d].0 == p
}

pub open spec fn pair_key(frame: u32, pixel: u32) -> u64 {
    (frame as int * 0x1_0000_0000 + pixel as int) as u64
}

proof fn lemma_pair_key_injective(fa: u32, pa: u32, fb: u32, pb: u32)
    ensures
        pair_key(fa, pa) == pair_key(fb, pb) ==> fa == fb && pa == pb,
{
}

/// Counts of edits per (frame, pixel) pair, and the range of frames seen.
pub struct Aggregator {
    index: HashMap<u64, usize>,
    entries: Vec<(u32, u32, u16)>,
    range: Option<(u32, u32)>,
    counts: Ghost<Map<(u32, u32), u16>>,
}

impl Aggregator {
    /// The count of each (frame, pixel) pair seen so far.
    pub closed spec fn counts(&self) -> Map<(u32, u32), u16> {
        self.counts@
    }

    /// The first and last frame seen so far, if any.
    pub closed spec fn frame_range(&self) -> Option<(u32, u32)> {
        self.range
    }

    pub closed spec fn wf(&self) -> bool {
        &&& forall|i: int|
            0 <= i < self.entries@.len() ==> {
                let e = #[trigger] self.entries@[i];
                &&& self.counts@.contains_key((e.0, e.1))
                &&& self.counts@[(e.0, e.1)] == e.2
                &&& self.index@.contains_key(pair_key(e.0, e.1))
                &&& self.index@[pair_key(e.0, e.1)] == i
            }
        &&& forall|k: (u32, u32)|
            #[trigger] self.counts@.contains_key(k) ==> {
                &&& self.index@.contains_key(pair_key(k.0, k.1))
                &&& self.index@[pair_key(k.0, k.1)] < self.entries@.len()
                &&& self.entries@[self.index@[pair_key(k.0, k.1)] as int].0 == k.0
                &&& self.entries@[self.index@[pair_key(k.0, k.1)] as int].1 == k.1
            }
        &&& forall|key: u64|
            #[trigger] self.index@.contains_key(key) ==> self.index@[key] < self.entries@.len()
                && pair_key(
                self.entries@[self.index@[key] as int].0,
                self.entries@[self.index@[key] as int].1,
            ) == key
        &&& match self.range {
            None => self.entries@.len() == 0 && self.counts@.dom().is_empty(),
            Some((a, b)) => a <= b && forall|k: (u32, u32)|
                #[trigger] self.counts@.contains_key(k) ==> a <= k.0 <= b,
        }
    }

    pub fn new() -> (r: Aggregator)
        ensures
            r.wf(),
            r.counts() == Map::<(u32, u32), u16>::empty(),
            r.frame_range() is None,
    {
        Aggregator {
            index: HashMap::new(),
            entries: Vec::new(),
            range: None,
            counts: Ghost(Map::empty()),
        }
    }

    /// The first and last frame seen so far, if any.
    pub fn first_last(&self) -> (r: Option<(u32, u32)>)
        ensures
            r == self.frame_range(),
    {
        self.range
    }

    /// Records one edit in `frame`, at `pixel` where it lies on the
    /// canvas. The frame counts towards the range either way.
    pub fn record(&mut self, frame: u32, pixel: Option<u32>)
        requires
            old(self).wf(),
        ensures
            final(self).wf(),
            final(self).frame_range() == Some(widened(old(self).frame_range(), frame)),
            final(self).counts() == (match pixel {
                None => old(self).counts(),
                Some(p) => old(self).counts().insert((frame, p), bumped(old(self).counts(), (frame, p))),
            }),
    {
        let ghost old_counts = self.counts@;
        let new_range = match self.range {
            None => (frame, frame),
            Some((a, b)) => (if frame < a { frame } else { a }, if frame > b { frame } else { b }),
        };
        self.range = Some(new_range);
        match pixel {
            None => {},
            Some(p) => {
                let key: u64 = frame as u64 * 0x1_0000_0000u64 + p as u64;
                match self.index.get(&key) {
                    Some(i_ref) => {
                        let i = *i_ref;
                        proof {
                            let e = self.entries@[i as int];
                            assert(key == pair_key(frame, p));
                            assert(self.index@.contains_key(key));
                            lemma_pair_key_injective(e.0, e.1, frame, p);
                            assert(old_counts.contains_key((frame, p)));
                        }
                        let e = self.entries[i];
                        if e.2 < COUNT_CAP {
                            self.entries.set(i, (e.0, e.1, e.2 + 1));
                            proof {
                                self.counts@ = old_counts.insert((frame, p), (e.2 + 1) as u16);
                            }
                        } else {
                            proof {
                                self.counts@ = old_counts.insert((frame, p), COUNT_CAP);
                                assert(self.counts@ =~= old_counts);
                            }
                        }
                        proof {
                            assert forall|k: (u32, u32)| #[trigger] self.counts@.contains_key(k) implies
                                self.index@.contains_key(pair_key(k.0, k.1)) && self.index@[pair_key(k.0, k.1)] < self.entries@.len()
                                && self.entries@[self.index@[pair_key(k.0, k.1)] as int].0 == k.0
                                && self.entries@[self.index@[pair_key(k.0, k.1)] as int].1 == k.1 by {
                                assert(old_counts.contains_key(k));
                            }
                            assert forall|j: int| 0 <= j < self.entries@.len() implies {
                                let e = #[trigger] self.entries@[j];
                                &&& self.counts@.contains_key((e.0, e.1))
                                &&& self.counts@[(e.0, e.1)] == e.2
                                &&& self.index@.contains_key(pair_key(e.0, e.1))
                                &&& self.index@[pair_key(e.0, e.1)] == j
                            } by {
                                if j != i {
                                    let ej = self.entries@[j];
                                    lemma_pair_key_injective(ej.0, ej.1, frame, p);
                                }
                            }
                        }
                    },
                    None => {
                        let i = self.entries.len();
                        self.entries.push((frame, p, 1));
                        self.index.insert(key, i);
                        proof {
                            self.counts@ = old_counts.insert((frame, p), 1);
                            assert forall|k: (u32, u32)| #[trigger] self.counts@.contains_key(k) implies
                                self.index@.contains_key(pair_key(k.0, k.1)) && self.index@[pair_key(k.0, k.1)] < self.entries@.len()
                                && self.entries@[self.index@[pair_key(k.0, k.1)] as int].0 == k.0
                                && self.entries@[self.index@[pair_key(k.0, k.1)] as int].1 == k.1 by {
                                if k != (frame, p) {
                                    assert(old_counts.contains_key(k));
                                    lemma_pair_key_injective(k.0, k.1, frame, p);
                                }
                            }
                            assert forall|j: int| 0 <= j < self.entries@.len() implies {
                                let e = #[trigger] self.entries@[j];
                                &&& self.counts@.contains_key((e.0, e.1))
                                &&& self.counts@[(e.0, e.1)] == e.2
                                &&& self.index@.contains_key(pair_key(e.0, e.1))
                                &&& self.index@[pair_key(e.0, e.1)] == j
                            } by {
                                if j != i {
                                    let ej = self.entries@[j];
                                    lemma_pair_key_injective(ej.0, ej.1, frame, p);
                                }
                            }
                        }
                    },
                }
            },
        }
    }

    /// Finishes the aggregation: one record for every frame from the first
    /// to the last seen, renumbered from 0, with the pixel counts of that
    /// frame; frames without counts get an empty record.
    pub fn finalize(self) -> (r: Vec<FrameRecord>)
        requires
            self.wf(),
        ensures
            dense_frames(r@, self.counts(), self.frame_range()),
    {
        match self.range {
            None => Vec::new(),
            Some((a, b)) => {
                let n: u64 = (b - a) as u64 + 1;
                let mut r: Vec<FrameRecord> = Vec::new();
                let mut i: u64 = 0;
                while i < n
                    invariant
                        i <= n == b - a + 1,
                        r@.len() == i,
                        forall|j: int| 0 <= j < i ==> (#[trigger] r@[j]).0 == j && r@[j].1@.len() == 0,
                    decreases n - i,
                {
                    r.push((i as u32, Vec::new()));
                    i = i + 1;
                }
                let ghost origin: Seq<Seq<int>> = Seq::new(n as nat, |j: int| Seq::<int>::empty());
                let mut t: usize = 0;
                while t < self.entries.len()
                    invariant
                        self.wf(),
                        self.range == Some((a, b)),
                        n == b - a + 1,
                        t <= self.entries@.len(),
                        r@.len() == n,
                        origin.len() == n,
                        forall|j: int| 0 <= j < n ==> (#[trigger] r@[j]).0 == j && origin[j].len() == r@[j].1@.len(),
                        forall|j: int, d: int|
                            0 <= j < n && 0 <= d < origin[j].len() ==> {
                                let o = #[trigger] origin[j][d];
                                &&& 0 <= o < t
                                &&& self.entries@[o].0 == a + j
                                &&& self.entries@[o].1 == r@[j].1@[d].0
                                &&& self.entries@[o].2 == r@[j].1@[d].1
                            },
                        forall|j: int, d1: int, d2: int|
                            0 <= j < n && 0 <= d1 < origin[j].len() && 0 <= d2 < origin[j].len() && d1 != d2
                                ==> #[trigger] origin[j][d1] != #[trigger] origin[j][d2],
                        forall|u: int|
                            0 <= u < t ==> placed(r@, (#[trigger] self.entries@[u]).0 - a, self.entries@[u].1),
                    decreases self.entries@.len() - t,
                {
                    let e = self.entries[t];
                    proof {
                        assert(self.counts@.contains_key((e.0, e.1)));
                    }
                    let k: usize = (e.0 - a) as usize;
                    let ghost r_before = r@;
                    let mut rec: FrameRecord = (0, Vec::new());
                    r.set_and_swap(k, &mut rec);
                    rec.1.push((e.1, e.2));
                    r.set_and_swap(k, &mut rec);
                    proof {
                        let ob = origin;
                        origin = origin.update(k as int, origin[k as int].push(t as int));
                        assert forall|u: int| 0 <= u < t + 1 implies placed(r@, (#[trigger] self.entries@[u]).0 - a, self.entries@[u].1) by {
                            if u == t {
                                assert(r@[k as int].1@[r@[k as int].1@.len() - 1].0 == e.1);
                            } else {
                                let j = self.entries@[u].0 - a;
                                assert(placed(r_before, j, self.entries@[u].1));
                                let d = choose|d: int|
                                    0 <= d < r_before[j].1@.len()
                                        && #[trigger] r_before[j].1@[d].0 == self.entries@[u].1;
                                assert(r@[j].1@[d] == r_before[j].1@[d]);
                            }
                        }
                        assert forall|j: int, d: int|
                            0 <= j < n && 0 <= d < origin[j].len() implies {
                                let o = #[trigger] origin[j][d];
                                &&& 0 <= o < t + 1
                                &&& self.entries@[o].0 == a + j
                                &&& self.entries@[o].1 == r@[j].1@[d].0
                                &&& self.entries@[o].2 == r@[j].1@[d].1
                            } by {
                            if j == k && d == ob[j].len() {
                            } else {
                                assert(origin[j][d] == ob[j][d]);
                                assert(r@[j].1@[d] == r_before[j].1@[d]);
                            }
                        }
                        assert forall|j: int, d1: int, d2: int|
                            0 <= j < n && 0 <= d1 < origin[j].len() && 0 <= d2 < origin[j].len() && d1 != d2
                                implies #[trigger] origin[j][d1] != #[trigger] origin[j][d2] by {
                            if j == k {
                                if d1 == ob[j].len() {
                                    assert(ob[j][d2] < t);
                                } else if d2 == ob[j].len() {
                                    assert(ob[j][d1] < t);
                                } else {
                                    assert(origin[j][d1] == ob[j][d1]);
                                    assert(origin[j][d2] == ob[j][d2]);
                                }
                            }
                        }
                    }
                    t = t + 1;
                }
                proof {
                    assert forall|i: int| 0 <= i < r@.len() implies (#[trigger] r@[i]).0 == i && deltas_match(
                        r@[i].1@,
                        self.counts@,
                        (a + i) as u32,
                    ) by {
                        let ds = r@[i].1@;
                        let f = (a + i) as u32;
                        assert forall|d: int| 0 <= d < ds.len() implies self.counts@.contains_key(
                            (f, (#[trigger] ds[d]).0),
                        ) && self.counts@[(f, ds[d].0)] == ds[d].1 by {
                            let o = origin[i][d];
                            let eo = self.entries@[o];
                            assert(eo.0 == f);
                        }
                        assert forall|d1: int, d2: int|
                            0 <= d1 < ds.len() && 0 <= d2 < ds.len() && d1 != d2 implies (#[trigger] ds[d1]).0
                                != (#[trigger] ds[d2]).0 by {
                            let o1 = origin[i][d1];
                            let o2 = origin[i][d2];
                            let e1 = self.entries@[o1];
                            let e2 = self.entries@[o2];
                            assert(origin[i][d1] != origin[i][d2]);
                            if ds[d1].0 == ds[d2].0 {
                                assert(pair_key(e1.0, e1.1) == pair_key(e2.0, e2.1));
                            }
                        }
                        assert forall|p: u32| #[trigger] self.counts@.contains_key((f, p)) implies exists|d: int|
                            0 <= d < ds.len() && (#[trigger] ds[d]).0 == p by {
                            let u = self.index@[pair_key(f, p)] as int;
                            assert(self.entries@[u].0 == f && self.entries@[u].1 == p);
                            assert(self.entries@[u].0 - a == i);
                            assert(placed(r@, i, p));
                        }
                    }
                }
                r
            },
        }
    }
}

/// The counts after recording each event `(frame, pixel)` of `events` in
/// order, starting from none.
pub open spec fn stream_counts(events: Seq<(u32, Option<u32>)>) -> Map<(u32, u32), u16>
    decreases events.len(),
{
    if events.len() == 0 {
        Map::empty()
    } else {
        let before = stream_counts(events.drop_last());
        match events.last().1 {
            None => before,
            Some(p) => before.insert((events.last().0, p), bumped(before, (events.last().0, p))),
        }
    }
}

/// The frame range after recording each event of `events`.
pub open spec fn stream_range(events: Seq<(u32, Option<u32>)>) -> Option<(u32, u32)>
    decreases events.len(),
{
    if events.len() == 0 {
        None
    } else {
        Some(widened(stream_range(events.drop_last()), events.last().0))
    }
}

/// The events with their timestamps binned into frames of `sec_per_frame`
/// seconds.
pub open spec fn binned(events: Seq<(u64, Option<u32>)>, sec_per_frame: u32) -> Seq<(u32, Option<u32>)> {
    events.map_values(|e: (u64, Option<u32>)| (frame_of(e.0 as int, sec_per_frame as int) as u32, e.1))
}

/// Every event can be binned: none is older than `EPOCH`, and each frame
/// number fits in 32 bits.
pub open spec fn events_in_range(events: Seq<(u64, Option<u32>)>, sec_per_frame: u32) -> bool {
    forall|i: int|
        0 <= i < events.len() ==> EPOCH <= (#[trigger] events[i]).0 && frame_of(
            events[i].0 as int,
            sec_per_frame as int,
        ) <= u32::MAX
}

/// Aggregates a whole stream of `(timestamp, pixel)` events into the
/// dense frame sequence: each event is binned into the frame of its
/// timestamp and counted at its pixel, if it has one.
pub fn aggregate_events(events: &Vec<(u64, Option<u32>)>, sec_per_frame: u32) -> (r: Vec<FrameRecord>)
    requires
        sec_per_frame > 0,
        events_in_range(events@, sec_per_frame),
    ensures
        dense_frames(
            r@,
            stream_counts(binned(events@, sec_per_frame)),
            stream_range(binned(events@, sec_per_frame)),
        ),
{
    let ghost all = binned(events@, sec_per_frame);
    let mut agg = Aggregator::new();
    let mut i: usize = 0;
    proof {
        assert(all.subrange(0, 0) =~= Seq::<(u32, Option<u32>)>::empty());
    }
    while i < events.len()
        invariant
            i <= events@.len(),
            sec_per_frame > 0,
            events_in_range(events@, sec_per_frame),
            all == binned(events@, sec_per_frame),
            agg.wf(),
            agg.counts() == stream_counts(all.subrange(0, i as int)),
            agg.frame_range() == stream_range(all.subrange(0, i as int)),
        decreases events@.len() - i,
    {
        let (t, pixel) = events[i];
        let frame = frame_number(t, sec_per_frame);
        agg.record(frame, pixel);
        proof {
            let sub = all.subrange(0, i + 1);
            assert(sub.drop_last() =~= all.subrange(0, i as int));
            assert(sub.last() == all[i as int]);
            assert(all[i as int] == (frame, pixel));
        }
        i = i + 1;
    }
    proof {
        assert(all.subrange(0, i as int) =~= all);
    }
    agg.finalize()
}

/// The frame range of a stream runs from its smallest to its largest
/// frame: every event lies in it and both ends are frames of events; a
/// stream without events has none.
pub proof fn lemma_stream_range(events: Seq<(u32, Option<u32>)>)
    ensures
        events.len() == 0 <==> stream_range(events) is None,
        stream_range(events) matches Some((a, b)) ==> {
            &&& a <= b
            &&& forall|i: int| 0 <= i < events.len() ==> a <= (#[trigger] events[i]).0 <= b
            &&& exists|i: int| 0 <= i < events.len() && (#[trigger] events[i]).0 == a
            &&& exists|j: int| 0 <= j < events.len() && (#[trigger] events[j]).0 == b
        },
    decreases events.len(),
{
    if events.len() > 0 {
        let front = events.drop_last();
        lemma_stream_range(front);
        let n = events.len() - 1;
        assert(events[n] == events.last());
        assert forall|i: int| 0 <= i < n implies events[i] == #[trigger] front[i] by {}
        match stream_range(front) {
            None => {},
            Some((a0, b0)) => {
                let ia = choose|i: int| 0 <= i < front.len() && (#[trigger] front[i]).0 == a0;
                let jb = choose|j: int| 0 <= j < front.len() && (#[trigger] front[j]).0 == b0;
                assert(events[ia] == front[ia]);
                assert(events[jb] == front[jb]);
                let (a, b) = widened(Some((a0, b0)), events.last().0);
                assert forall|i: int| 0 <= i < events.len() implies a <= (#[trigger] events[i]).0 <= b by {
                    if i < n {
                        assert(events[i] == front[i]);
                    }
                }
            },
        }
    }
}

/// Every event with a pixel is counted, at least once, in the frame and
/// pixel it names; and nothing else is counted.
pub proof fn lemma_stream_counts_keys(events: Seq<(u32, Option<u32>)>)
    ensures
        forall|i: int|
            0 <= i < events.len() && (#[trigger] events[i]).1 is Some ==> stream_counts(
                events,
            ).contains_key((events[i].0, events[i].1->0)) && stream_counts(events)[(
                events[i].0,
                events[i].1->0,
            )] >= 1,
        forall|k: (u32, u32)|
            #[trigger] stream_counts(events).contains_key(k) ==> exists|i: int|
                0 <= i < events.len() && (#[trigger] events[i]) == (k.0, Some(k.1)),
    decreases events.len(),
{
    if events.len() > 0 {
        let front = events.drop_last();
        lemma_stream_counts_keys(front);
        let n = events.len() - 1;
        assert forall|i: int|
            0 <= i < events.len() && (#[trigger] events[i]).1 is Some implies stream_counts(
                events,
            ).contains_key((events[i].0, events[i].1->0)) && stream_counts(events)[(
                events[i].0,
                events[i].1->0,
            )] >= 1 by {
            if i < n {
                assert(events[i] == front[i]);
            }
        }
        assert forall|k: (u32, u32)| #[trigger] stream_counts(events).contains_key(k) implies exists|i: int|
            0 <= i < events.len() && (#[trigger] events[i]) == (k.0, Some(k.1)) by {
            if stream_counts(front).contains_key(k) {
                let i = choose|i: int| 0 <= i < front.len() && (#[trigger] front[i]) == (k.0, Some(k.1));
                assert(events[i] == front[i]);
            } else {
                assert(events[n] == (k.0, Some(k.1)));
            }
        }
    }
}

/// `n` edits at one frame and pixel leave the count `min(n, COUNT_CAP)`:
/// the count saturates rather than wrapping.
pub proof fn lemma_stream_saturates(frame: u32, pixel: u32, n: nat)
    requires
        n > 0,
    ensures
        stream_counts(Seq::new(n, |i: int| (frame, Some(pixel))))[(frame, pixel)] == if n
            < COUNT_CAP {
            n
        } else {
            COUNT_CAP as nat
        },
        stream_counts(Seq::new(n, |i: int| (frame, Some(pixel)))).dom() == set![(frame, pixel)],
    decreases n,
{
    let ev = Seq::new(n, |i: int| (frame, Some(pixel)));
    let k = (frame, pixel);
    assert(ev.last() == (frame, Some(pixel)));
    if n == 1 {
        assert(ev.drop_last() =~= Seq::<(u32, Option<u32>)>::empty());
        let before = stream_counts(ev.drop_last());
        assert(before == Map::<(u32, u32), u16>::empty());
        assert(bumped(before, k) == 1);
        assert(stream_counts(ev) == before.insert(k, 1));
        assert(stream_counts(ev).dom() =~= set![(frame, pixel)]);
    } else {
        lemma_stream_saturates(frame, pixel, (n - 1) as nat);
        assert(ev.drop_last() =~= Seq::new((n - 1) as nat, |i: int| (frame, Some(pixel))));
        let before = stream_counts(ev.drop_last());
        assert(before.contains_key(k));
        assert(stream_counts(ev) == before.insert(k, bumped(before, k)));
        assert(stream_counts(ev).dom() =~= set![(frame, pixel)]);
    }
}

} // verus!
