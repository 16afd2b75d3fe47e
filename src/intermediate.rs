//! The intermediate text form of a frame sequence: a block of
//! `metadata <key> <value>` lines, a blank line, then one line per frame,
//! `<frame>[,<pixel>,<count>]*`.
use vstd::prelude::*;
use crate::aggregate::FrameRecord;
use crate::projection::ProjectionKind;
use crate::text::{
    decimal, is_digit, lemma_decimal_reads_back, lemma_split_len, line_ranges, lines,
    parse_unsigned, parse_unsigned_at, push_decimal, split, split_ranges,
};

verus! {

/// A frame record as plain values.
pub open spec fn record_view(r: FrameRecord) -> (u32, Seq<(u32, u16)>) {
    (r.0, r.1@)
}

pub open spec fn records_view(rs: Seq<FrameRecord>) -> Seq<(u32, Seq<(u32, u16)>)> {
    rs.map_values(|r: FrameRecord| record_view(r))
}

/// `,<pixel>,<count>` for each delta, in order.
pub open spec fn deltas_text(ds: Seq<(u32, u16)>) -> Seq<u8>
    decreases ds.len(),
{
    if ds.len() == 0 {
        Seq::empty()
    } else {
        deltas_text(ds.drop_last()) + seq![44u8] + decimal(ds.last().0 as nat) + seq![44u8]
            + decimal(ds.last().1 as nat)
    }
}

/// The line of one frame, without its newline.
pub open spec fn frame_line(r: (u32, Seq<(u32, u16)>)) -> Seq<u8> {
    decimal(r.0 as nat) + deltas_text(r.1)
}

/// The body: each frame's line followed by a newline.
pub open spec fn frames_text(rs: Seq<(u32, Seq<(u32, u16)>)>) -> Seq<u8>
    decreases rs.len(),
{
    if rs.len() == 0 {
        Seq::empty()
    } else {
        frames_text(rs.drop_last()) + frame_line(rs.last()) + seq![10u8]
    }
}

/// Reads one frame line: a frame number, then pixel and count pairs.
pub open spec fn parse_frame_line(line: Seq<u8>) -> Option<(u32, Seq<(u32, u16)>)> {
    let fs = split(line, 44);
    let n = (fs.len() - 1) / 2;
    if fs.len() % 2 == 1 && parse_unsigned(fs[0], u32::MAX as nat) is Some && forall|k: int|
        0 <= k < n ==> parse_unsigned(#[trigger] fs[2 * k + 1], u32::MAX as nat) is Some
            && parse_unsigned(fs[2 * k + 2], u16::MAX as nat) is Some {
        Some(
            (
                parse_unsigned(fs[0], u32::MAX as nat)->0 as u32,
                Seq::new(
                    n as nat,
                    |k: int|
                        (
                            parse_unsigned(fs[2 * k + 1], u32::MAX as nat)->0 as u32,
                            parse_unsigned(fs[2 * k + 2], u16::MAX as nat)->0 as u16,
                        ),
                ),
            ),
        )
    } else {
        None
    }
}

/// `metadata ` as bytes.
pub open spec fn metadata_prefix() -> Seq<u8> {
    seq![109u8, 101, 116, 97, 100, 97, 116, 97, 32]
}

/// A line of the header block: empty, or starting with `metadata `.
pub open spec fn is_header_line(line: Seq<u8>) -> bool {
    line.len() == 0 || (line.len() >= 9 && line.subrange(0, 9) == metadata_prefix())
}

/// How many lines of `ls` the leading header block takes.
pub open spec fn header_len(ls: Seq<Seq<u8>>) -> int
    decreases ls.len(),
{
    if ls.len() == 0 || !is_header_line(ls[0]) {
        0
    } else {
        1 + header_len(ls.drop_first())
    }
}

/// What reading the body of an intermediate text gives: every line after
/// the header block read as a frame line, or the index (among all lines)
/// of the first line that is not one.
pub open spec fn frames_of_text(text: Seq<u8>) -> Result<Seq<(u32, Seq<(u32, u16)>)>, int> {
    let ls = lines(text);
    let h = header_len(ls);
    if forall|k: int| h <= k < ls.len() ==> parse_frame_line(#[trigger] ls[k]) is Some {
        Ok(Seq::new((ls.len() - h) as nat, |k: int| parse_frame_line(ls[h + k])->0))
    } else {
        Err(
            choose|k: int|
                h <= k < ls.len() && parse_frame_line(#[trigger] ls[k]) is None && forall|j: int|
                    h <= j < k ==> parse_frame_line(#[trigger] ls[j]) is Some,
        )
    }
}

/// Appends the body lines of `frames` to `out`.
pub fn write_frames(out: &mut Vec<u8>, frames: &Vec<FrameRecord>)
    ensures
        final(out)@ == old(out)@ + frames_text(records_view(frames@)),
{
    let mut i: usize = 0;
    proof {
        assert(records_view(frames@).subrange(0, 0) =~= Seq::<(u32, Seq<(u32, u16)>)>::empty());
        assert(out@ =~= old(out)@ + frames_text(records_view(frames@).subrange(0, 0)));
    }
    while i < frames.len()
        invariant
            i <= frames@.len(),
            out@ == old(out)@ + frames_text(records_view(frames@).subrange(0, i as int)),
        decreases frames@.len() - i,
    {
        let ghost before = out@;
        let ghost rv = records_view(frames@);
        push_decimal(out, frames[i].0 as u64);
        let ds = &frames[i].1;
        let mut j: usize = 0;
        proof {
            assert(ds@.subrange(0, 0) =~= Seq::<(u32, u16)>::empty());
            assert(out@ =~= before + decimal(frames@[i as int].0 as nat) + deltas_text(ds@.subrange(0, 0)));
        }
        while j < ds.len()
            invariant
                j <= ds@.len(),
                out@ == before + decimal(frames@[i as int].0 as nat) + deltas_text(ds@.subrange(0, j as int)),
            decreases ds@.len() - j,
        {
            out.push(44);
            push_decimal(out, ds[j].0 as u64);
            out.push(44);
            push_decimal(out, ds[j].1 as u64);
            proof {
                let sub = ds@.subrange(0, j + 1);
                assert(sub.drop_last() =~= ds@.subrange(0, j as int));
                assert(sub.last() == ds@[j as int]);
                assert(out@ =~= before + decimal(frames@[i as int].0 as nat) + deltas_text(sub));
            }
            j = j + 1;
        }
        out.push(10);
        proof {
            assert(ds@.subrange(0, j as int) =~= ds@);
            let sub = rv.subrange(0, i + 1);
            assert(sub.drop_last() =~= rv.subrange(0, i as int));
            assert(sub.last() == record_view(frames@[i as int]));
            assert(out@ =~= old(out)@ + frames_text(sub));
        }
        i = i + 1;
    }
    proof {
        assert(records_view(frames@).subrange(0, i as int) =~= records_view(frames@));
    }
}

/// Reads the frame line `s[from..to]`.
pub fn read_frame_line(s: &[u8], from: usize, to: usize) -> (r: Option<FrameRecord>)
    requires
        from <= to <= s@.len(),
    ensures
        r matches Some(rec) ==> parse_frame_line(s@.subrange(from as int, to as int)) == Some(
            record_view(rec),
        ),
        r is None ==> parse_frame_line(s@.subrange(from as int, to as int)) is None,
{
    let ghost line = s@.subrange(from as int, to as int);
    let ghost fs = split(line, 44);
    let fields = split_ranges(s, from, to, 44);
    if fields.len() % 2 == 0 {
        return None;
    }
    let f = match parse_unsigned_at(s, fields[0].0, fields[0].1, u32::MAX) {
        None => return None,
        Some(f) => f,
    };
    let n: usize = (fields.len() - 1) / 2;
    let mut ds: Vec<(u32, u16)> = Vec::new();
    let mut k: usize = 0;
    while k < n
        invariant
            k <= n,
            n == (fs.len() - 1) / 2,
            fields@.len() == fs.len(),
            fs == split(s@.subrange(from as int, to as int), 44),
            to <= s@.len(),
            forall|j: int|
                0 <= j < fields@.len() ==> from <= (#[trigger] fields@[j]).0 <= fields@[j].1 <= to
                    && s@.subrange(fields@[j].0 as int, fields@[j].1 as int) == fs[j],
            ds@.len() == k,
            forall|j: int|
                0 <= j < k ==> parse_unsigned(#[trigger] fs[2 * j + 1], u32::MAX as nat) == Some(
                    ds@[j].0 as nat,
                ) && parse_unsigned(fs[2 * j + 2], u16::MAX as nat) == Some(ds@[j].1 as nat),
        decreases n - k,
    {
        let a = fields[2 * k + 1];
        let b = fields[2 * k + 2];
        let p = parse_unsigned_at(s, a.0, a.1, u32::MAX);
        let c = parse_unsigned_at(s, b.0, b.1, 65535);
        if p.is_none() || c.is_none() {
            proof {
                assert(parse_unsigned(fs[2 * k + 1], u32::MAX as nat) is None || parse_unsigned(
                    fs[2 * k + 2],
                    u16::MAX as nat,
                ) is None);
            }
            return None;
        }
        let pv = p.unwrap();
        let cv = c.unwrap();
        proof {
            assert(parse_unsigned(fs[2 * k + 2], u16::MAX as nat) == Some(cv as nat));
        }
        ds.push((pv, cv as u16));
        k = k + 1;
    }
    proof {
        let expected = Seq::new(
            n as nat,
            |k: int|
                (
                    parse_unsigned(fs[2 * k + 1], u32::MAX as nat)->0 as u32,
                    parse_unsigned(fs[2 * k + 2], u16::MAX as nat)->0 as u16,
                ),
        );
        assert(ds@ =~= expected);
    }
    Some((f, ds))
}

/// Whether `s[from..to]` is a line of the header block.
fn is_header_at(s: &[u8], from: usize, to: usize) -> (r: bool)
    requires
        from <= to <= s@.len(),
    ensures
        r == is_header_line(s@.subrange(from as int, to as int)),
{
    if from == to {
        return true;
    }
    if to - from < 9 {
        return false;
    }
    let prefix: Vec<u8> = vec![109u8, 101, 116, 97, 100, 97, 116, 97, 32];
    let mut i: usize = 0;
    while i < 9
        invariant
            i <= 9,
            from + 9 <= to <= s@.len(),
            prefix@ == metadata_prefix(),
            forall|j: int| 0 <= j < i ==> s@[from + j] == #[trigger] prefix@[j],
        decreases 9 - i,
    {
        if s[from + i] != prefix[i] {
            proof {
                assert(s@.subrange(from as int, to as int).subrange(0, 9)[i as int] != metadata_prefix()[i as int]);
            }
            return false;
        }
        i = i + 1;
    }
    proof {
        assert(s@.subrange(from as int, to as int).subrange(0, 9) =~= metadata_prefix());
    }
    true
}

/// Reads the frame lines of an intermediate text, after its header block;
/// fails with the index of the first line that is not a frame line.
pub fn read_frames(text: &[u8]) -> (r: Result<Vec<FrameRecord>, usize>)
    ensures
        match r {
            Ok(v) => frames_of_text(text@) == Ok::<_, int>(records_view(v@)),
            Err(k) => frames_of_text(text@) == Err::<Seq<(u32, Seq<(u32, u16)>)>, _>(k as int),
        },
{
    let ghost ls = lines(text@);
    let rs = line_ranges(text);
    let mut h: usize = 0;
    proof {
        assert(ls.subrange(0, ls.len() as int) =~= ls);
    }
    while h < rs.len() && is_header_at(text, rs[h].0, rs[h].1)
        invariant
            h <= rs@.len() == ls.len(),
            ls == lines(text@),
            forall|j: int|
                0 <= j < rs@.len() ==> (#[trigger] rs@[j]).0 <= rs@[j].1 <= text@.len()
                    && text@.subrange(rs@[j].0 as int, rs@[j].1 as int) == ls[j],
            header_len(ls) == h + header_len(ls.subrange(h as int, ls.len() as int)),
        decreases rs@.len() - h,
    {
        proof {
            let rest = ls.subrange(h as int, ls.len() as int);
            assert(rest.drop_first() =~= ls.subrange(h + 1, ls.len() as int));
            assert(rest[0] == ls[h as int]);
        }
        h = h + 1;
    }
    proof {
        let rest = ls.subrange(h as int, ls.len() as int);
        if h < ls.len() {
            assert(rest[0] == ls[h as int]);
        }
        assert(header_len(rest) == 0);
        assert(header_len(ls) == h);
    }
    let mut out: Vec<FrameRecord> = Vec::new();
    let mut k: usize = h;
    while k < rs.len()
        invariant
            h <= k <= rs@.len() == ls.len(),
            ls == lines(text@),
            header_len(ls) == h,
            forall|j: int|
                0 <= j < rs@.len() ==> (#[trigger] rs@[j]).0 <= rs@[j].1 <= text@.len()
                    && text@.subrange(rs@[j].0 as int, rs@[j].1 as int) == ls[j],
            out@.len() == k - h,
            forall|j: int|
                h <= j < k ==> parse_frame_line(#[trigger] ls[j]) == Some(record_view(out@[j - h])),
        decreases rs@.len() - k,
    {
        match read_frame_line(text, rs[k].0, rs[k].1) {
            None => {
                proof {
                    let pred = |q: int|
                        h <= q < ls.len() && parse_frame_line(ls[q]) is None && forall|j: int|
                            h <= j < q ==> parse_frame_line(#[trigger] ls[j]) is Some;
                    assert(pred(k as int));
                    assert(!(forall|q: int| h <= q < ls.len() ==> parse_frame_line(#[trigger] ls[q]) is Some));
                    let c = choose|q: int|
                        h <= q < ls.len() && parse_frame_line(#[trigger] ls[q]) is None && forall|j: int|
                            h <= j < q ==> parse_frame_line(#[trigger] ls[j]) is Some;
                    assert(c == k) by {
                        if c < k {
                            assert(parse_frame_line(ls[c]) is Some);
                        } else if c > k {
                            assert(parse_frame_line(ls[k as int]) is Some);
                        }
                    }
                }
                return Err(k);
            },
            Some(rec) => {
                out.push(rec);
            },
        }
        k = k + 1;
    }
    proof {
        assert(records_view(out@) =~= Seq::new((ls.len() - h) as nat, |q: int| parse_frame_line(ls[h + q])->0));
    }
    Ok(out)
}

/// How many lines of `ls` come before the first empty one.
pub open spec fn block_len(ls: Seq<Seq<u8>>) -> nat
    decreases ls.len(),
{
    if ls.len() == 0 || ls[0].len() == 0 {
        0
    } else {
        1 + block_len(ls.drop_first())
    }
}

/// A metadata line holds at least three space-separated words.
pub open spec fn metadata_line_ok(line: Seq<u8>) -> bool {
    split(line, 32).len() >= 3
}

/// The (key, value) pairs of the lines before the first empty line: the
/// second and third space-separated word of each; or the index of the
/// first such line with fewer than three words.
pub open spec fn metadata_of_text(text: Seq<u8>) -> Result<Seq<(Seq<u8>, Seq<u8>)>, int> {
    let ls = lines(text);
    let m = block_len(ls);
    if forall|k: int| 0 <= k < m ==> metadata_line_ok(#[trigger] ls[k]) {
        Ok(Seq::new(m as nat, |k: int| (split(ls[k], 32)[1], split(ls[k], 32)[2])))
    } else {
        Err(
            choose|k: int|
                0 <= k < m && !metadata_line_ok(#[trigger] ls[k]) && forall|j: int|
                    0 <= j < k ==> metadata_line_ok(#[trigger] ls[j]),
        )
    }
}

/// A copy of `s[from..to]`.
pub fn copy_range(s: &[u8], from: usize, to: usize) -> (r: Vec<u8>)
    requires
        from <= to <= s@.len(),
    ensures
        r@ == s@.subrange(from as int, to as int),
{
    let mut r: Vec<u8> = Vec::new();
    let mut i: usize = from;
    while i < to
        invariant
            from <= i <= to <= s@.len(),
            r@ == s@.subrange(from as int, i as int),
        decreases to - i,
    {
        r.push(s[i]);
        proof {
            assert(r@ =~= s@.subrange(from as int, i + 1));
        }
        i = i + 1;
    }
    r
}

/// Reads the metadata block of an intermediate text as (key, value)
/// pairs, in order.
pub fn read_metadata(text: &[u8]) -> (r: Result<Vec<(Vec<u8>, Vec<u8>)>, usize>)
    ensures
        match r {
            Ok(v) => metadata_of_text(text@) == Ok::<_, int>(
                v@.map_values(|p: (Vec<u8>, Vec<u8>)| (p.0@, p.1@)),
            ),
            Err(k) => metadata_of_text(text@) == Err::<Seq<(Seq<u8>, Seq<u8>)>, _>(k as int),
        },
{
    let ghost ls = lines(text@);
    let rs = line_ranges(text);
    let mut out: Vec<(Vec<u8>, Vec<u8>)> = Vec::new();
    let mut k: usize = 0;
    proof {
        assert(ls.subrange(0, ls.len() as int) =~= ls);
    }
    while k < rs.len() && rs[k].0 < rs[k].1
        invariant
            k <= rs@.len() == ls.len(),
            ls == lines(text@),
            forall|j: int|
                0 <= j < rs@.len() ==> (#[trigger] rs@[j]).0 <= rs@[j].1 <= text@.len()
                    && text@.subrange(rs@[j].0 as int, rs@[j].1 as int) == ls[j],
            block_len(ls) == k + block_len(ls.subrange(k as int, ls.len() as int)),
            out@.len() == k,
            forall|j: int|
                0 <= j < k ==> metadata_line_ok(#[trigger] ls[j]) && out@[j].0@ == split(ls[j], 32)[1]
                    && out@[j].1@ == split(ls[j], 32)[2],
        decreases rs@.len() - k,
    {
        let (a, b) = rs[k];
        let words = split_ranges(text, a, b, 32);
        proof {
            let rest = ls.subrange(k as int, ls.len() as int);
            assert(rest.drop_first() =~= ls.subrange(k + 1, ls.len() as int));
            assert(rest[0] == ls[k as int]);
            assert(text@.subrange(a as int, b as int) == ls[k as int]);
            assert(block_len(rest) == 1 + block_len(rest.drop_first()));
        }
        if words.len() < 3 {
            proof {
                assert(block_len(ls) > k) by {
                    let rest = ls.subrange(k as int, ls.len() as int);
                    assert(text@.subrange(a as int, b as int).len() > 0);
                    assert(rest[0].len() > 0);
                    assert(block_len(rest) >= 1);
                }
                let c = choose|q: int|
                    0 <= q < block_len(ls) && !metadata_line_ok(#[trigger] ls[q]) && forall|j: int|
                        0 <= j < q ==> metadata_line_ok(#[trigger] ls[j]);
                assert(!metadata_line_ok(ls[k as int]));
                assert(c == k) by {
                    if c < k {
                        assert(metadata_line_ok(ls[c]));
                    } else if c > k {
                        assert(metadata_line_ok(ls[k as int]));
                    }
                }
            }
            return Err(k);
        }
        let key = copy_range(text, words[1].0, words[1].1);
        let value = copy_range(text, words[2].0, words[2].1);
        out.push((key, value));
        k = k + 1;
    }
    proof {
        let rest = ls.subrange(k as int, ls.len() as int);
        if k < ls.len() {
            assert(rest[0] == ls[k as int]);
            assert(text@.subrange(rs@[k as int].0 as int, rs@[k as int].1 as int) == ls[k as int]);
            assert(ls[k as int].len() == 0);
        }
        assert(block_len(rest) == 0);
        assert(out@.map_values(|p: (Vec<u8>, Vec<u8>)| (p.0@, p.1@)) =~= Seq::new(
            k as nat,
            |q: int| (split(ls[q], 32)[1], split(ls[q], 32)[2]),
        ));
    }
    Ok(out)
}

/// `s` holds no byte `b`.
pub open spec fn free_of(s: Seq<u8>, b: u8) -> bool {
    forall|i: int| 0 <= i < s.len() ==> #[trigger] s[i] != b
}

proof fn lemma_split_plain_tail(x: Seq<u8>, d: Seq<u8>, sep: u8)
    requires
        free_of(d, sep),
    ensures
        split(x + d, sep) == split(x, sep).update(
            split(x, sep).len() - 1,
            split(x, sep).last() + d,
        ),
    decreases d.len(),
{
    lemma_split_len(x, sep);
    let p = split(x, sep);
    if d.len() == 0 {
        assert(x + d =~= x);
        assert(p.last() + d =~= p.last());
        assert(p.update(p.len() - 1, p.last() + d) =~= p);
    } else {
        let d0 = d.drop_last();
        assert(free_of(d0, sep)) by {
            assert forall|i: int| 0 <= i < d0.len() implies #[trigger] d0[i] != sep by {
                assert(d0[i] == d[i]);
            }
        }
        lemma_split_plain_tail(x, d0, sep);
        assert((x + d).drop_last() =~= x + d0);
        assert((x + d).last() == d.last());
        assert(d[d.len() - 1] != sep);
        let q = p.update(p.len() - 1, p.last() + d0);
        assert((p.last() + d0).push(d.last()) =~= p.last() + d);
        assert(q.update(q.len() - 1, q.last().push(d.last())) =~= p.update(
            p.len() - 1,
            p.last() + d,
        ));
    }
}

proof fn lemma_split_after_sep(x: Seq<u8>, d: Seq<u8>, sep: u8)
    requires
        free_of(d, sep),
    ensures
        split(x + seq![sep] + d, sep) == split(x, sep).push(d),
{
    let xs = x + seq![sep];
    assert(xs.drop_last() =~= x);
    assert(split(xs, sep) == split(x, sep).push(Seq::empty()));
    lemma_split_plain_tail(xs, d, sep);
    assert(Seq::<u8>::empty() + d =~= d);
    assert(split(x, sep).push(Seq::empty()).update(split(x, sep).len() as int, d) =~= split(
        x,
        sep,
    ).push(d));
}

proof fn lemma_decimal_free(n: nat)
    ensures
        free_of(decimal(n), 10),
        free_of(decimal(n), 13),
        free_of(decimal(n), 44),
        free_of(decimal(n), 32),
        decimal(n).len() > 0,
        is_digit(decimal(n)[0]),
        is_digit(decimal(n).last()),
{
    lemma_decimal_reads_back(n);
}

/// The pieces that the deltas of a line split into: pixel, count, ...
pub open spec fn delta_pieces(ds: Seq<(u32, u16)>) -> Seq<Seq<u8>>
    decreases ds.len(),
{
    if ds.len() == 0 {
        Seq::empty()
    } else {
        delta_pieces(ds.drop_last()).push(decimal(ds.last().0 as nat)).push(
            decimal(ds.last().1 as nat),
        )
    }
}

proof fn lemma_delta_pieces(ds: Seq<(u32, u16)>)
    ensures
        delta_pieces(ds).len() == 2 * ds.len(),
        forall|k: int|
            0 <= k < ds.len() ==> delta_pieces(ds)[2 * k] == decimal((#[trigger] ds[k]).0 as nat)
                && delta_pieces(ds)[2 * k + 1] == decimal(ds[k].1 as nat),
    decreases ds.len(),
{
    if ds.len() > 0 {
        lemma_delta_pieces(ds.drop_last());
        assert forall|k: int| 0 <= k < ds.len() implies delta_pieces(ds)[2 * k] == decimal(
            (#[trigger] ds[k]).0 as nat,
        ) && delta_pieces(ds)[2 * k + 1] == decimal(ds[k].1 as nat) by {
            if k < ds.len() - 1 {
                assert(ds.drop_last()[k] == ds[k]);
            }
        }
    }
}

proof fn lemma_split_frame_line(r: (u32, Seq<(u32, u16)>))
    ensures
        split(frame_line(r), 44) == seq![decimal(r.0 as nat)] + delta_pieces(r.1),
        free_of(frame_line(r), 10),
        frame_line(r).len() > 0,
        is_digit(frame_line(r)[0]),
        is_digit(frame_line(r).last()),
    decreases r.1.len(),
{
    lemma_decimal_free(r.0 as nat);
    let ds = r.1;
    if ds.len() == 0 {
        assert(frame_line(r) =~= Seq::<u8>::empty() + decimal(r.0 as nat));
        assert(split(Seq::<u8>::empty(), 44) =~= seq![Seq::<u8>::empty()]);
        lemma_split_plain_tail(Seq::<u8>::empty(), decimal(r.0 as nat), 44);
        assert(Seq::<u8>::empty() + decimal(r.0 as nat) =~= decimal(r.0 as nat));
        assert(seq![Seq::<u8>::empty()].update(0, Seq::<u8>::empty() + decimal(r.0 as nat))
            =~= seq![decimal(r.0 as nat)] + delta_pieces(ds));
    } else {
        let r0 = (r.0, ds.drop_last());
        lemma_split_frame_line(r0);
        let t = frame_line(r0);
        let dp = decimal(ds.last().0 as nat);
        let dc = decimal(ds.last().1 as nat);
        lemma_decimal_free(ds.last().0 as nat);
        lemma_decimal_free(ds.last().1 as nat);
        assert(frame_line(r) =~= t + seq![44u8] + dp + seq![44u8] + dc);
        lemma_split_after_sep(t, dp, 44);
        lemma_split_after_sep(t + seq![44u8] + dp, dc, 44);
        assert(seq![decimal(r.0 as nat)] + delta_pieces(ds) =~= (seq![decimal(r.0 as nat)]
            + delta_pieces(ds.drop_last())).push(dp).push(dc));
        let fl = frame_line(r);
        assert forall|i: int| 0 <= i < fl.len() implies #[trigger] fl[i] != 10 by {
            if i < t.len() {
                assert(fl[i] == t[i]);
            } else if i == t.len() || i == t.len() + 1 + dp.len() {
            } else if i < t.len() + 1 + dp.len() {
                assert(fl[i] == dp[i - t.len() - 1]);
            } else {
                assert(fl[i] == dc[i - t.len() - 2 - dp.len()]);
            }
        }
        assert(fl[0] == t[0]);
        assert(fl.last() == dc.last());
    }
}

proof fn lemma_parse_frame_line(r: (u32, Seq<(u32, u16)>))
    ensures
        parse_frame_line(frame_line(r)) == Some(r),
{
    lemma_split_frame_line(r);
    lemma_delta_pieces(r.1);
    let fs = split(frame_line(r), 44);
    let ds = r.1;
    let n = (fs.len() - 1) / 2;
    assert(fs.len() == 1 + 2 * ds.len());
    assert(n == ds.len());
    assert(fs[0] == decimal(r.0 as nat));
    lemma_decimal_reads_back(r.0 as nat);
    assert forall|k: int| 0 <= k < n implies parse_unsigned(#[trigger] fs[2 * k + 1], u32::MAX as nat)
        == Some(ds[k].0 as nat) && parse_unsigned(fs[2 * k + 2], u16::MAX as nat) == Some(
        ds[k].1 as nat,
    ) by {
        assert(fs[2 * k + 1] == delta_pieces(ds)[2 * k]);
        assert(fs[2 * k + 2] == delta_pieces(ds)[2 * k + 1]);
        lemma_decimal_reads_back(ds[k].0 as nat);
        lemma_decimal_reads_back(ds[k].1 as nat);
    }
    let got = Seq::new(
        n as nat,
        |k: int|
            (
                parse_unsigned(fs[2 * k + 1], u32::MAX as nat)->0 as u32,
                parse_unsigned(fs[2 * k + 2], u16::MAX as nat)->0 as u16,
            ),
    );
    assert(got =~= ds);
}

proof fn lemma_lines_of_frames_text(rs: Seq<(u32, Seq<(u32, u16)>)>)
    ensures
        split(frames_text(rs), 10).len() == rs.len() + 1,
        split(frames_text(rs), 10).last() == Seq::<u8>::empty(),
        forall|k: int| 0 <= k < rs.len() ==> split(frames_text(rs), 10)[k] == frame_line(#[trigger] rs[k]),
        frames_text(rs).len() == 0 || frames_text(rs).last() == 10,
    decreases rs.len(),
{
    if rs.len() > 0 {
        let rs0 = rs.drop_last();
        lemma_lines_of_frames_text(rs0);
        let t = frames_text(rs0);
        let l = frame_line(rs.last());
        lemma_split_frame_line(rs.last());
        lemma_split_plain_tail(t, l, 10);
        assert((t + l + seq![10u8]).drop_last() =~= t + l);
        assert forall|k: int| 0 <= k < rs.len() implies split(frames_text(rs), 10)[k] == frame_line(
            #[trigger] rs[k],
        ) by {
            if k < rs.len() - 1 {
                assert(rs0[k] == rs[k]);
            }
        }
        assert(split(t, 10).last() + l =~= l);
    } else {
        assert(split(Seq::<u8>::empty(), 10) =~= seq![Seq::<u8>::empty()]);
    }
}

/// Reading back the body written for a frame sequence gives that frame
/// sequence.
pub proof fn lemma_frames_round_trip(rs: Seq<(u32, Seq<(u32, u16)>)>)
    ensures
        frames_of_text(frames_text(rs)) == Ok::<_, int>(rs),
{
    let text = frames_text(rs);
    lemma_lines_of_frames_text(rs);
    let ls = lines(text);
    assert(ls.len() == rs.len());
    assert forall|k: int| 0 <= k < rs.len() implies ls[k] == frame_line(#[trigger] rs[k]) by {
        lemma_split_frame_line(rs[k]);
        let l = frame_line(rs[k]);
        assert(l.last() != 13);
    }
    if rs.len() > 0 {
        lemma_split_frame_line(rs[0]);
        assert(ls[0] == frame_line(rs[0]));
        if ls[0].len() >= 9 {
            assert(ls[0].subrange(0, 9)[0] != metadata_prefix()[0]);
        }
        assert(!is_header_line(ls[0]));
    }
    assert(header_len(ls) == 0);
    assert forall|k: int| 0 <= k < ls.len() implies parse_frame_line(#[trigger] ls[k]) == Some(rs[k]) by {
        lemma_parse_frame_line(rs[k]);
    }
    assert(Seq::new((ls.len() - 0) as nat, |k: int| parse_frame_line(ls[0 + k])->0) =~= rs);
}

/// The header line `metadata <key> <value>`, with its newline.
pub open spec fn header_line(kv: (Seq<u8>, Seq<u8>)) -> Seq<u8> {
    metadata_prefix() + kv.0 + seq![32u8] + kv.1 + seq![10u8]
}

/// The header lines of `kvs`, in order.
pub open spec fn header_text(kvs: Seq<(Seq<u8>, Seq<u8>)>) -> Seq<u8>
    decreases kvs.len(),
{
    if kvs.len() == 0 {
        Seq::empty()
    } else {
        header_text(kvs.drop_last()) + header_line(kvs.last())
    }
}

/// A key and a value that a header line can carry: no space, newline or
/// carriage return in either.
pub open spec fn metadata_pair_ok(kv: (Seq<u8>, Seq<u8>)) -> bool {
    &&& free_of(kv.0, 32) && free_of(kv.0, 10) && free_of(kv.0, 13)
    &&& free_of(kv.1, 32) && free_of(kv.1, 10) && free_of(kv.1, 13)
}

/// A whole intermediate text: the header lines, a blank line, the body.
pub open spec fn intermediate_text(
    kvs: Seq<(Seq<u8>, Seq<u8>)>,
    rs: Seq<(u32, Seq<(u32, u16)>)>,
) -> Seq<u8> {
    header_text(kvs) + seq![10u8] + frames_text(rs)
}

/// Appends a header line for each (key, value) pair, then the blank line
/// that ends the header block.
pub fn write_metadata(out: &mut Vec<u8>, pairs: &Vec<(Vec<u8>, Vec<u8>)>)
    ensures
        final(out)@ == old(out)@ + header_text(pairs@.map_values(|p: (Vec<u8>, Vec<u8>)| (p.0@, p.1@)))
            + seq![10u8],
{
    let ghost kvs = pairs@.map_values(|p: (Vec<u8>, Vec<u8>)| (p.0@, p.1@));
    let mut i: usize = 0;
    proof {
        assert(kvs.subrange(0, 0) =~= Seq::<(Seq<u8>, Seq<u8>)>::empty());
        assert(out@ =~= old(out)@ + header_text(kvs.subrange(0, 0)));
    }
    while i < pairs.len()
        invariant
            i <= pairs@.len(),
            kvs == pairs@.map_values(|p: (Vec<u8>, Vec<u8>)| (p.0@, p.1@)),
            out@ == old(out)@ + header_text(kvs.subrange(0, i as int)),
        decreases pairs@.len() - i,
    {
        let ghost before = out@;
        let prefix: Vec<u8> = vec![109u8, 101, 116, 97, 100, 97, 116, 97, 32];
        push_all(out, &prefix);
        push_all(out, &pairs[i].0);
        out.push(32);
        push_all(out, &pairs[i].1);
        out.push(10);
        proof {
            let sub = kvs.subrange(0, i + 1);
            assert(sub.drop_last() =~= kvs.subrange(0, i as int));
            assert(sub.last() == kvs[i as int]);
            assert(out@ =~= before + header_line(kvs[i as int]));
            assert(out@ =~= old(out)@ + header_text(sub));
        }
        i = i + 1;
    }
    out.push(10);
    proof {
        assert(kvs.subrange(0, i as int) =~= kvs);
    }
}

/// Appends the bytes of `b` to `out`.
fn push_all(out: &mut Vec<u8>, b: &Vec<u8>)
    ensures
        final(out)@ == old(out)@ + b@,
{
    let mut i: usize = 0;
    while i < b.len()
        invariant
            i <= b@.len(),
            out@ == old(out)@ + b@.subrange(0, i as int),
        decreases b@.len() - i,
    {
        out.push(b[i]);
        proof {
            assert(out@ =~= old(out)@ + b@.subrange(0, i + 1));
        }
        i = i + 1;
    }
    proof {
        assert(b@.subrange(0, i as int) =~= b@);
    }
}

/// Each piece followed by a newline.
pub open spec fn joined(ps: Seq<Seq<u8>>) -> Seq<u8>
    decreases ps.len(),
{
    if ps.len() == 0 {
        Seq::empty()
    } else {
        joined(ps.drop_last()) + ps.last() + seq![10u8]
    }
}

proof fn lemma_joined_concat(a: Seq<Seq<u8>>, b: Seq<Seq<u8>>)
    ensures
        joined(a + b) == joined(a) + joined(b),
    decreases b.len(),
{
    if b.len() == 0 {
        assert(a + b =~= a);
        assert(joined(a) + joined(b) =~= joined(a));
    } else {
        lemma_joined_concat(a, b.drop_last());
        assert((a + b).drop_last() =~= a + b.drop_last());
        assert((a + b).last() == b.last());
        assert(joined(a + b) =~= joined(a) + joined(b));
    }
}

proof fn lemma_split_joined(ps: Seq<Seq<u8>>)
    requires
        forall|k: int| 0 <= k < ps.len() ==> free_of(#[trigger] ps[k], 10),
    ensures
        split(joined(ps), 10) == ps.push(Seq::empty()),
    decreases ps.len(),
{
    if ps.len() == 0 {
        assert(split(Seq::<u8>::empty(), 10) =~= seq![Seq::<u8>::empty()]);
        assert(ps.push(Seq::empty()) =~= seq![Seq::<u8>::empty()]);
    } else {
        let front = ps.drop_last();
        assert forall|k: int| 0 <= k < front.len() implies free_of(#[trigger] front[k], 10) by {
            assert(front[k] == ps[k]);
        }
        lemma_split_joined(front);
        let t = joined(front);
        lemma_split_plain_tail(t, ps.last(), 10);
        assert((t + ps.last() + seq![10u8]).drop_last() =~= t + ps.last());
        assert(Seq::<u8>::empty() + ps.last() =~= ps.last());
        assert(front.push(Seq::empty()).update(front.len() as int, Seq::<u8>::empty() + ps.last()).push(
            Seq::empty(),
        ) =~= ps.push(Seq::empty()));
    }
}

/// The lines of header entries without their newline.
pub open spec fn header_pieces(kvs: Seq<(Seq<u8>, Seq<u8>)>) -> Seq<Seq<u8>> {
    kvs.map_values(|kv: (Seq<u8>, Seq<u8>)| header_line(kv).drop_last())
}

proof fn lemma_header_joined(kvs: Seq<(Seq<u8>, Seq<u8>)>)
    ensures
        header_text(kvs) == joined(header_pieces(kvs)),
    decreases kvs.len(),
{
    if kvs.len() > 0 {
        lemma_header_joined(kvs.drop_last());
        assert(header_pieces(kvs).drop_last() =~= header_pieces(kvs.drop_last()));
        let hl = header_line(kvs.last());
        assert(hl.drop_last() + seq![10u8] =~= hl);
    }
}

proof fn lemma_frames_joined(rs: Seq<(u32, Seq<(u32, u16)>)>)
    ensures
        frames_text(rs) == joined(rs.map_values(|r: (u32, Seq<(u32, u16)>)| frame_line(r))),
    decreases rs.len(),
{
    if rs.len() > 0 {
        lemma_frames_joined(rs.drop_last());
        assert(rs.map_values(|r: (u32, Seq<(u32, u16)>)| frame_line(r)).drop_last() =~= rs.drop_last().map_values(
            |r: (u32, Seq<(u32, u16)>)| frame_line(r),
        ));
    }
}

proof fn lemma_header_piece(kv: (Seq<u8>, Seq<u8>))
    requires
        metadata_pair_ok(kv),
    ensures
        free_of(header_line(kv).drop_last(), 10),
        header_line(kv).drop_last().len() >= 9,
        header_line(kv).drop_last().subrange(0, 9) == metadata_prefix(),
        header_line(kv).drop_last().last() != 13,
        split(header_line(kv).drop_last(), 32) == seq![metadata_prefix().drop_last(), kv.0, kv.1],
{
    let m8 = metadata_prefix().drop_last();
    let l = header_line(kv).drop_last();
    assert(l =~= m8 + seq![32u8] + kv.0 + seq![32u8] + kv.1);
    assert(free_of(m8, 32));
    lemma_split_plain_tail(Seq::<u8>::empty(), m8, 32);
    assert(Seq::<u8>::empty() + m8 =~= m8);
    assert(split(Seq::<u8>::empty(), 32) =~= seq![Seq::<u8>::empty()]);
    assert(split(m8, 32) =~= seq![m8]);
    lemma_split_after_sep(m8, kv.0, 32);
    lemma_split_after_sep(m8 + seq![32u8] + kv.0, kv.1, 32);
    assert(l.subrange(0, 9) =~= metadata_prefix());
    assert forall|i: int| 0 <= i < l.len() implies #[trigger] l[i] != 10 by {
        if i < 9 {
            assert(l[i] == metadata_prefix()[i]);
        } else if i < 9 + kv.0.len() {
            assert(l[i] == kv.0[i - 9]);
        } else if i > 9 + kv.0.len() {
            assert(l[i] == kv.1[i - 10 - kv.0.len()]);
        }
    }
    if kv.1.len() > 0 {
        assert(l.last() == kv.1.last());
        assert(kv.1[kv.1.len() - 1] != 13);
    }
}

proof fn lemma_header_len_prefix(ls: Seq<Seq<u8>>, j: int)
    requires
        0 <= j <= ls.len(),
        forall|k: int| 0 <= k < j ==> is_header_line(#[trigger] ls[k]),
    ensures
        header_len(ls) == j + header_len(ls.subrange(j, ls.len() as int)),
    decreases j,
{
    if j == 0 {
        assert(ls.subrange(0, ls.len() as int) =~= ls);
    } else {
        assert(is_header_line(ls[0]));
        let rest = ls.drop_first();
        assert forall|k: int| 0 <= k < j - 1 implies is_header_line(#[trigger] rest[k]) by {
            assert(rest[k] == ls[k + 1]);
        }
        lemma_header_len_prefix(rest, j - 1);
        assert(rest.subrange(j - 1, rest.len() as int) =~= ls.subrange(j, ls.len() as int));
    }
}

proof fn lemma_block_len_prefix(ls: Seq<Seq<u8>>, j: int)
    requires
        0 <= j <= ls.len(),
        forall|k: int| 0 <= k < j ==> (#[trigger] ls[k]).len() > 0,
    ensures
        block_len(ls) == j + block_len(ls.subrange(j, ls.len() as int)),
    decreases j,
{
    if j == 0 {
        assert(ls.subrange(0, ls.len() as int) =~= ls);
    } else {
        assert(ls[0].len() > 0);
        let rest = ls.drop_first();
        assert forall|k: int| 0 <= k < j - 1 implies (#[trigger] rest[k]).len() > 0 by {
            assert(rest[k] == ls[k + 1]);
        }
        lemma_block_len_prefix(rest, j - 1);
        assert(rest.subrange(j - 1, rest.len() as int) =~= ls.subrange(j, ls.len() as int));
    }
}

/// Reading back a whole text written from header pairs and a frame
/// sequence gives those pairs and that frame sequence.
#[verifier::rlimit(50)]
pub proof fn lemma_intermediate_round_trip(
    kvs: Seq<(Seq<u8>, Seq<u8>)>,
    rs: Seq<(u32, Seq<(u32, u16)>)>,
)
    requires
        forall|k: int| 0 <= k < kvs.len() ==> metadata_pair_ok(#[trigger] kvs[k]),
    ensures
        metadata_of_text(intermediate_text(kvs, rs)) == Ok::<_, int>(kvs),
        frames_of_text(intermediate_text(kvs, rs)) == Ok::<_, int>(rs),
{
    let hp = header_pieces(kvs);
    let fl = rs.map_values(|r: (u32, Seq<(u32, u16)>)| frame_line(r));
    let ps = hp + seq![Seq::<u8>::empty()] + fl;
    let m = kvs.len() as int;
    let n = rs.len() as int;
    lemma_header_joined(kvs);
    lemma_frames_joined(rs);
    lemma_joined_concat(hp, seq![Seq::<u8>::empty()]);
    lemma_joined_concat(hp + seq![Seq::<u8>::empty()], fl);
    assert(joined(seq![Seq::<u8>::empty()]) =~= seq![10u8]) by {
        let one = seq![Seq::<u8>::empty()];
        assert(one.drop_last() =~= Seq::<Seq<u8>>::empty());
        assert(joined(one.drop_last()) == Seq::<u8>::empty());
        assert(one.last() == Seq::<u8>::empty());
        assert(joined(one) == joined(one.drop_last()) + one.last() + seq![10u8]);
        assert(Seq::<u8>::empty() + Seq::<u8>::empty() + seq![10u8] =~= seq![10u8]);
    }
    let text = intermediate_text(kvs, rs);
    assert(text == joined(ps));
    assert forall|k: int| 0 <= k < ps.len() implies free_of(#[trigger] ps[k], 10) && (ps[k].len() == 0
        || ps[k].last() != 13) by {
        if k < m {
            lemma_header_piece(kvs[k]);
            assert(ps[k] == hp[k]);
        } else if k > m {
            lemma_split_frame_line(rs[k - m - 1]);
            assert(ps[k] == fl[k - m - 1]);
            assert(ps[k].last() != 13);
        }
    }
    lemma_split_joined(ps);
    let ls = lines(text);
    assert(ls.len() == ps.len());
    assert forall|k: int| 0 <= k < ls.len() implies #[trigger] ls[k] == ps[k] by {
        assert(split(text, 10)[k] == ps[k]);
    }
    assert(ls =~= ps);
    assert forall|k: int| 0 <= k < m implies (#[trigger] ls[k]).len() > 0 && is_header_line(ls[k])
        && metadata_line_ok(ls[k]) && split(ls[k], 32)[1] == kvs[k].0 && split(ls[k], 32)[2]
        == kvs[k].1 by {
        lemma_header_piece(kvs[k]);
        assert(ls[k] == hp[k]);
    }
    lemma_block_len_prefix(ls, m);
    assert(ls.subrange(m, ls.len() as int)[0].len() == 0);
    assert(block_len(ls) == m);
    assert(Seq::new(m as nat, |k: int| (split(ls[k], 32)[1], split(ls[k], 32)[2])) =~= kvs);
    assert(is_header_line(ls[m]));
    lemma_header_len_prefix(ls, m + 1);
    let rest = ls.subrange(m + 1, ls.len() as int);
    if n > 0 {
        lemma_split_frame_line(rs[0]);
        assert(rest[0] == frame_line(rs[0]));
        if rest[0].len() >= 9 {
            assert(rest[0].subrange(0, 9)[0] != metadata_prefix()[0]);
        }
    }
    assert(header_len(rest) == 0);
    assert forall|k: int| m + 1 <= k < ls.len() implies parse_frame_line(#[trigger] ls[k]) == Some(
        rs[k - m - 1],
    ) by {
        assert(ls[k] == fl[k - m - 1]);
        lemma_parse_frame_line(rs[k - m - 1]);
    }
    assert(Seq::new((ls.len() - (m + 1)) as nat, |k: int| parse_frame_line(ls[(m + 1) + k])->0) =~= rs);
}

/// The header pairs of a run's configuration, in file order: version,
/// height, width, seconds per frame, bounding box, centre, projection.
/// Numbers are written in decimal; the version, box and centre are given
/// as text.
pub open spec fn config_pairs(
    version: Seq<u8>,
    height: u32,
    width: u32,
    sec_per_frame: u32,
    bbox: Seq<u8>,
    centre: Seq<u8>,
    projection: ProjectionKind,
) -> Seq<(Seq<u8>, Seq<u8>)> {
    seq![
        (seq![118u8, 101, 114, 115, 105, 111, 110], version),
        (seq![104u8, 101, 105, 103, 104, 116], decimal(height as nat)),
        (seq![119u8, 105, 100, 116, 104], decimal(width as nat)),
        (seq![115u8, 101, 99, 95, 112, 101, 114, 95, 102, 114, 97, 109, 101], decimal(sec_per_frame as nat)),
        (seq![98u8, 98, 111, 120], bbox),
        (seq![99u8, 101, 110, 116, 114, 101], centre),
        (seq![112u8, 114, 111, 106, 101, 99, 116, 105, 111, 110], projection_name(projection)),
    ]
}

/// `ortho` or `equirect`.
pub open spec fn projection_name(projection: ProjectionKind) -> Seq<u8> {
    match projection {
        ProjectionKind::Ortho => seq![111u8, 114, 116, 104, 111],
        ProjectionKind::Equirect => seq![101u8, 113, 117, 105, 114, 101, 99, 116],
    }
}

/// A copy of `b`.
fn copy_vec(b: &Vec<u8>) -> (r: Vec<u8>)
    ensures
        r@ == b@,
{
    let mut r: Vec<u8> = Vec::new();
    push_all(&mut r, b);
    proof {
        assert(r@ =~= b@);
    }
    r
}

/// The decimal digits of `n`.
fn decimal_vec(n: u32) -> (r: Vec<u8>)
    ensures
        r@ == decimal(n as nat),
{
    let mut r: Vec<u8> = Vec::new();
    push_decimal(&mut r, n as u64);
    proof {
        assert(r@ =~= decimal(n as nat));
    }
    r
}

/// Appends the header block of a run's configuration: its seven
/// `metadata` lines and the blank line after them.
pub fn write_header(
    out: &mut Vec<u8>,
    version: &Vec<u8>,
    height: u32,
    width: u32,
    sec_per_frame: u32,
    bbox: &Vec<u8>,
    centre: &Vec<u8>,
    projection: ProjectionKind,
)
    ensures
        final(out)@ == old(out)@ + header_text(
            config_pairs(version@, height, width, sec_per_frame, bbox@, centre@, projection),
        ) + seq![10u8],
{
    let name: Vec<u8> = match projection {
        ProjectionKind::Ortho => vec![111u8, 114, 116, 104, 111],
        ProjectionKind::Equirect => vec![101u8, 113, 117, 105, 114, 101, 99, 116],
    };
    let mut pairs: Vec<(Vec<u8>, Vec<u8>)> = Vec::new();
    pairs.push((vec![118u8, 101, 114, 115, 105, 111, 110], copy_vec(version)));
    pairs.push((vec![104u8, 101, 105, 103, 104, 116], decimal_vec(height)));
    pairs.push((vec![119u8, 105, 100, 116, 104], decimal_vec(width)));
    pairs.push((vec![115u8, 101, 99, 95, 112, 101, 114, 95, 102, 114, 97, 109, 101], decimal_vec(sec_per_frame)));
    pairs.push((vec![98u8, 98, 111, 120], copy_vec(bbox)));
    pairs.push((vec![99u8, 101, 110, 116, 114, 101], copy_vec(centre)));
    pairs.push((vec![112u8, 114, 111, 106, 101, 99, 116, 105, 111, 110], name));
    proof {
        assert(pairs@.map_values(|p: (Vec<u8>, Vec<u8>)| (p.0@, p.1@)) =~= config_pairs(
            version@,
            height,
            width,
            sec_per_frame,
            bbox@,
            centre@,
            projection,
        ));
    }
    write_metadata(out, &pairs);
}

proof fn lemma_word_ok(key: Seq<u8>, value: Seq<u8>)
    requires
        word_bytes(key),
        free_of(value, 32) && free_of(value, 10) && free_of(value, 13),
    ensures
        metadata_pair_ok((key, value)),
{
    lemma_word_bytes_free(key);
}

#[verifier::rlimit(50)]
proof fn lemma_config_pairs_ok(
    version: Seq<u8>,
    height: u32,
    width: u32,
    sec_per_frame: u32,
    bbox: Seq<u8>,
    centre: Seq<u8>,
    projection: ProjectionKind,
)
    requires
        free_of(version, 32) && free_of(version, 10) && free_of(version, 13),
        free_of(bbox, 32) && free_of(bbox, 10) && free_of(bbox, 13),
        free_of(centre, 32) && free_of(centre, 10) && free_of(centre, 13),
    ensures
        forall|k: int|
            0 <= k < 7 ==> metadata_pair_ok(
                #[trigger] config_pairs(version, height, width, sec_per_frame, bbox, centre, projection)[k],
            ),
{
    let kvs = config_pairs(version, height, width, sec_per_frame, bbox, centre, projection);
    lemma_decimal_free(height as nat);
    lemma_decimal_free(width as nat);
    lemma_decimal_free(sec_per_frame as nat);
    reveal_with_fuel(word_bytes, 14);
    assert(word_bytes(projection_name(projection)));
    lemma_word_bytes_free(projection_name(projection));
    lemma_word_ok(kvs[0].0, version);
    lemma_word_ok(kvs[1].0, decimal(height as nat));
    lemma_word_ok(kvs[2].0, decimal(width as nat));
    lemma_word_ok(kvs[3].0, decimal(sec_per_frame as nat));
    lemma_word_ok(kvs[4].0, bbox);
    lemma_word_ok(kvs[5].0, centre);
    lemma_word_ok(kvs[6].0, projection_name(projection));
    assert forall|k: int| 0 <= k < 7 implies metadata_pair_ok(#[trigger] kvs[k]) by {
        if k == 0 {
            assert(kvs[k] == (kvs[0].0, version));
        } else if k == 1 {
            assert(kvs[k] == (kvs[1].0, decimal(height as nat)));
        } else if k == 2 {
            assert(kvs[k] == (kvs[2].0, decimal(width as nat)));
        } else if k == 3 {
            assert(kvs[k] == (kvs[3].0, decimal(sec_per_frame as nat)));
        } else if k == 4 {
            assert(kvs[k] == (kvs[4].0, bbox));
        } else if k == 5 {
            assert(kvs[k] == (kvs[5].0, centre));
        } else {
            assert(kvs[k] == (kvs[6].0, projection_name(projection)));
        }
    }
}

/// Reading back a whole text written from a run's configuration and a
/// frame sequence gives that configuration's header pairs and that frame
/// sequence, where the version, box and centre texts hold no space,
/// newline or carriage return.
pub proof fn lemma_config_round_trip(
    version: Seq<u8>,
    height: u32,
    width: u32,
    sec_per_frame: u32,
    bbox: Seq<u8>,
    centre: Seq<u8>,
    projection: ProjectionKind,
    rs: Seq<(u32, Seq<(u32, u16)>)>,
)
    requires
        free_of(version, 32) && free_of(version, 10) && free_of(version, 13),
        free_of(bbox, 32) && free_of(bbox, 10) && free_of(bbox, 13),
        free_of(centre, 32) && free_of(centre, 10) && free_of(centre, 13),
    ensures
        ({
            let kvs = config_pairs(version, height, width, sec_per_frame, bbox, centre, projection);
            &&& metadata_of_text(intermediate_text(kvs, rs)) == Ok::<_, int>(kvs)
            &&& frames_of_text(intermediate_text(kvs, rs)) == Ok::<_, int>(rs)
        }),
{
    let kvs = config_pairs(version, height, width, sec_per_frame, bbox, centre, projection);
    lemma_config_pairs_ok(version, height, width, sec_per_frame, bbox, centre, projection);
    lemma_intermediate_round_trip(kvs, rs);
}

/// Every byte of `s` is a lower-case letter or `_`.
pub open spec fn word_bytes(s: Seq<u8>) -> bool
    decreases s.len(),
{
    s.len() == 0 || (95 <= s.last() <= 122 && word_bytes(s.drop_last()))
}

proof fn lemma_word_bytes_free(s: Seq<u8>)
    requires
        word_bytes(s),
    ensures
        free_of(s, 32) && free_of(s, 10) && free_of(s, 13),
    decreases s.len(),
{
    if s.len() > 0 {
        lemma_word_bytes_free(s.drop_last());
        assert forall|i: int| 0 <= i < s.len() implies #[trigger] s[i] != 32 && s[i] != 10 && s[i] != 13 by {
            if i < s.len() - 1 {
                assert(s[i] == s.drop_last()[i]);
            }
        }
    }
}

/// The value of the last pair in `kvs` whose key is `key`.
pub open spec fn last_value(kvs: Seq<(Seq<u8>, Seq<u8>)>, key: Seq<u8>) -> Option<Seq<u8>>
    decreases kvs.len(),
{
    if kvs.len() == 0 {
        None
    } else if kvs.last().0 == key {
        Some(kvs.last().1)
    } else {
        last_value(kvs.drop_last(), key)
    }
}

fn bytes_equal(a: &Vec<u8>, b: &Vec<u8>) -> (r: bool)
    ensures
        r == (a@ == b@),
{
    if a.len() != b.len() {
        return false;
    }
    let mut i: usize = 0;
    while i < a.len()
        invariant
            i <= a@.len() == b@.len(),
            forall|j: int| 0 <= j < i ==> a@[j] == b@[j],
        decreases a@.len() - i,
    {
        if a[i] != b[i] {
            return false;
        }
        i = i + 1;
    }
    proof {
        assert(a@ =~= b@);
    }
    true
}

/// The value a key of the metadata block has: that of its last line, as a
/// later line overrides an earlier one.
pub fn metadata_value(pairs: &Vec<(Vec<u8>, Vec<u8>)>, key: &Vec<u8>) -> (r: Option<Vec<u8>>)
    ensures
        ({
            let kvs = pairs@.map_values(|p: (Vec<u8>, Vec<u8>)| (p.0@, p.1@));
            match r {
                None => last_value(kvs, key@) is None,
                Some(v) => last_value(kvs, key@) == Some(v@),
            }
        }),
{
    let ghost kvs = pairs@.map_values(|p: (Vec<u8>, Vec<u8>)| (p.0@, p.1@));
    let mut i: usize = pairs.len();
    proof {
        assert(kvs.subrange(0, i as int) =~= kvs);
    }
    while i > 0
        invariant
            i <= pairs@.len(),
            kvs == pairs@.map_values(|p: (Vec<u8>, Vec<u8>)| (p.0@, p.1@)),
            last_value(kvs, key@) == last_value(kvs.subrange(0, i as int), key@),
        decreases i,
    {
        let sub = Ghost(kvs.subrange(0, i as int));
        proof {
            assert(sub@.drop_last() =~= kvs.subrange(0, i - 1));
            assert(sub@.last() == kvs[i - 1]);
        }
        if bytes_equal(&pairs[i - 1].0, key) {
            return Some(copy_vec(&pairs[i - 1].1));
        }
        i = i - 1;
    }
    None
}

} // verus!
