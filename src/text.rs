//! Byte-level text helpers: splitting at a separator and reading and
//! writing unsigned decimal numbers.
use vstd::prelude::*;

verus! {

/// The pieces of `s` between occurrences of `sep`, in order; there is
/// always at least one piece (the empty text is one empty piece).
pub open spec fn split(s: Seq<u8>, sep: u8) -> Seq<Seq<u8>>
    decreases s.len(),
{
    if s.len() == 0 {
        seq![Seq::empty()]
    } else {
        let p = split(s.drop_last(), sep);
        if s.last() == sep {
            p.push(Seq::empty())
        } else {
            p.update(p.len() - 1, p.last().push(s.last()))
        }
    }
}

pub proof fn lemma_split_len(s: Seq<u8>, sep: u8)
    ensures
        split(s, sep).len() >= 1,
    decreases s.len(),
{
    if s.len() > 0 {
        lemma_split_len(s.drop_last(), sep);
    }
}

pub open spec fn is_digit(b: u8) -> bool {
    48 <= b && b <= 57
}

pub open spec fn all_digits(s: Seq<u8>) -> bool {
    forall|i: int| 0 <= i < s.len() ==> is_digit(#[trigger] s[i])
}

/// The number that a run of decimal digits spells.
pub open spec fn digits_value(s: Seq<u8>) -> nat
    decreases s.len(),
{
    if s.len() == 0 {
        0
    } else {
        digits_value(s.drop_last()) * 10 + (s.last() - 48) as nat
    }
}

/// The digits of an unsigned number as std's `parse` reads them: one
/// optional leading `+`, then the rest.
pub open spec fn unsigned_body(s: Seq<u8>) -> Seq<u8> {
    if s.len() > 0 && s[0] == 43 {
        s.drop_first()
    } else {
        s
    }
}

/// What parsing `s` as an unsigned integer no larger than `max` gives:
/// `None` unless it is an optional `+` and one or more decimal digits
/// whose value is at most `max`.
pub open spec fn parse_unsigned(s: Seq<u8>, max: nat) -> Option<nat> {
    let d = unsigned_body(s);
    if d.len() > 0 && all_digits(d) && digits_value(d) <= max {
        Some(digits_value(d))
    } else {
        None
    }
}

/// Positions of the pieces of `s[from..to]` split at `sep`.
pub fn split_ranges(s: &[u8], from: usize, to: usize, sep: u8) -> (r: Vec<(usize, usize)>)
    requires
        from <= to <= s@.len(),
    ensures
        r@.len() == split(s@.subrange(from as int, to as int), sep).len(),
        forall|k: int|
            0 <= k < r@.len() ==> from <= (#[trigger] r@[k]).0 <= r@[k].1 <= to
                && s@.subrange(r@[k].0 as int, r@[k].1 as int) == split(
                s@.subrange(from as int, to as int),
                sep,
            )[k],
{
    let mut r: Vec<(usize, usize)> = Vec::new();
    let mut start: usize = from;
    let mut i: usize = from;
    proof {
        assert(s@.subrange(from as int, from as int) =~= Seq::<u8>::empty());
    }
    while i < to
        invariant
            from <= start <= i <= to <= s@.len(),
            split(s@.subrange(from as int, i as int), sep).len() == r@.len() + 1,
            split(s@.subrange(from as int, i as int), sep)[r@.len() as int] == s@.subrange(
                start as int,
                i as int,
            ),
            forall|k: int|
                0 <= k < r@.len() ==> from <= (#[trigger] r@[k]).0 <= r@[k].1 <= start
                    && s@.subrange(r@[k].0 as int, r@[k].1 as int) == split(
                    s@.subrange(from as int, i as int),
                    sep,
                )[k],
        decreases to - i,
    {
        let c = s[i];
        let ghost prev = s@.subrange(from as int, i as int);
        let ghost next = s@.subrange(from as int, i + 1);
        proof {
            assert(next.drop_last() =~= prev);
            assert(next.last() == c);
        }
        if c == sep {
            r.push((start, i));
            start = i + 1;
            proof {
                assert(s@.subrange(start as int, i + 1) =~= Seq::<u8>::empty());
            }
        } else {
            proof {
                assert(s@.subrange(start as int, i as int).push(c) =~= s@.subrange(
                    start as int,
                    i + 1,
                ));
            }
        }
        i = i + 1;
    }
    r.push((start, to));
    r
}

/// Reads `s[from..to]` as an unsigned number no larger than `max`, as std's
/// `parse` for an unsigned integer type whose largest value is `max`.
pub fn parse_unsigned_at(s: &[u8], from: usize, to: usize, max: u32) -> (r: Option<u32>)
    requires
        from <= to <= s@.len(),
    ensures
        r matches Some(v) ==> parse_unsigned(s@.subrange(from as int, to as int), max as nat)
            == Some(v as nat),
        r is None ==> parse_unsigned(s@.subrange(from as int, to as int), max as nat) is None,
{
    let ghost whole = s@.subrange(from as int, to as int);
    let mut d0: usize = from;
    if from < to && s[from] == 43 {
        d0 = from + 1;
    }
    proof {
        assert(unsigned_body(whole) =~= s@.subrange(d0 as int, to as int));
        assert(s@.subrange(d0 as int, d0 as int) =~= Seq::<u8>::empty());
    }
    let mut acc: u64 = 0;
    let mut over = false;
    let mut i: usize = d0;
    while i < to
        invariant
            from <= d0 <= i <= to <= s@.len(),
            whole == s@.subrange(from as int, to as int),
            unsigned_body(whole) == s@.subrange(d0 as int, to as int),
            all_digits(s@.subrange(d0 as int, i as int)),
            !over ==> acc as nat == digits_value(s@.subrange(d0 as int, i as int)) && acc
                <= max,
            over ==> digits_value(s@.subrange(d0 as int, i as int)) > max,
        decreases to - i,
    {
        let c = s[i];
        let ghost prev = s@.subrange(d0 as int, i as int);
        let ghost next = s@.subrange(d0 as int, i + 1);
        proof {
            assert(next.drop_last() =~= prev);
            assert(next.last() == c);
        }
        if c < 48 || c > 57 {
            proof {
                let body = s@.subrange(d0 as int, to as int);
                assert(body[i - d0] == c);
                assert(!is_digit(body[i - d0]));
                assert(!all_digits(body));
                assert(!all_digits(unsigned_body(whole)));
                assert(parse_unsigned(whole, max as nat) is None);
            }
            return None;
        }
        proof {
            assert forall|j: int| 0 <= j < next.len() implies is_digit(#[trigger] next[j]) by {
                if j < prev.len() {
                    assert(next[j] == prev[j]);
                }
            }
        }
        if !over {
            let v: u64 = acc * 10 + (c - 48) as u64;
            if v > max as u64 {
                over = true;
            } else {
                acc = v;
            }
        }
        i = i + 1;
    }
    if i == d0 || over {
        None
    } else {
        Some(acc as u32)
    }
}

/// The decimal digits of `n`, most significant first, without leading zeros.
pub open spec fn decimal(n: nat) -> Seq<u8>
    decreases n,
{
    if n < 10 {
        seq![(n + 48) as u8]
    } else {
        decimal(n / 10).push((n % 10 + 48) as u8)
    }
}

/// The decimal form of a number reads back as that number.
pub proof fn lemma_decimal_reads_back(n: nat)
    ensures
        decimal(n).len() > 0,
        all_digits(decimal(n)),
        digits_value(decimal(n)) == n,
        unsigned_body(decimal(n)) == decimal(n),
    decreases n,
{
    if n < 10 {
        assert(decimal(n).drop_last() =~= Seq::<u8>::empty());
        assert(digits_value(Seq::<u8>::empty()) == 0);
    } else {
        lemma_decimal_reads_back(n / 10);
        let d = decimal(n);
        assert(d.drop_last() =~= decimal(n / 10));
        assert(d.last() == (n % 10 + 48) as u8);
        assert(digits_value(d) == digits_value(decimal(n / 10)) * 10 + n % 10);
        assert forall|i: int| 0 <= i < d.len() implies is_digit(#[trigger] d[i]) by {
            if i < d.len() - 1 {
                assert(d[i] == decimal(n / 10)[i]);
            }
        }
    }
}

/// Appends the decimal digits of `n` to `out`.
pub fn push_decimal(out: &mut Vec<u8>, n: u64)
    ensures
        final(out)@ == old(out)@ + decimal(n as nat),
    decreases n,
{
    if n >= 10 {
        push_decimal(out, n / 10);
    }
    out.push((n % 10 + 48) as u8);
    proof {
        if n < 10 {
            assert(n % 10 == n);
        }
        assert(final(out)@ =~= old(out)@ + decimal(n as nat));
    }
}

/// `l` without one trailing carriage return.
pub open spec fn strip_cr(l: Seq<u8>) -> Seq<u8> {
    if l.len() > 0 && l.last() == 13 {
        l.drop_last()
    } else {
        l
    }
}

/// How many lines `s` holds: the pieces between newlines, where a final
/// newline ends the last line rather than starting an empty one.
pub open spec fn line_count(s: Seq<u8>) -> int {
    if s.len() == 0 || s.last() == 10 {
        split(s, 10).len() - 1
    } else {
        split(s, 10).len() as int
    }
}

/// The lines of `s` as std's `str::lines` gives them: split at `\n`, a line
/// that a `\n` ends loses one trailing `\r`, and a final `\n` starts no
/// further line.
pub open spec fn lines(s: Seq<u8>) -> Seq<Seq<u8>> {
    let p = split(s, 10);
    Seq::new(
        line_count(s) as nat,
        |i: int|
            if i < p.len() - 1 {
                strip_cr(p[i])
            } else {
                p[i]
            },
    )
}

/// The values of those `pieces` that read as unsigned numbers no larger
/// than `max`, in order; the others are skipped.
pub open spec fn parsed_values(pieces: Seq<Seq<u8>>, max: nat) -> Seq<nat>
    decreases pieces.len(),
{
    if pieces.len() == 0 {
        Seq::empty()
    } else {
        let r = parsed_values(pieces.drop_last(), max);
        match parse_unsigned(pieces.last(), max) {
            Some(v) => r.push(v),
            None => r,
        }
    }
}

/// The numbers of a comma-separated line, skipping fields that are not one.
pub open spec fn line_numbers(line: Seq<u8>, max: nat) -> Seq<nat> {
    parsed_values(split(line, 44), max)
}

/// Positions of the lines of `s`.
pub fn line_ranges(s: &[u8]) -> (r: Vec<(usize, usize)>)
    ensures
        r@.len() == lines(s@).len(),
        forall|k: int|
            0 <= k < r@.len() ==> (#[trigger] r@[k]).0 <= r@[k].1 <= s@.len()
                && s@.subrange(r@[k].0 as int, r@[k].1 as int) == lines(s@)[k],
{
    let n = s.len();
    let pieces = split_ranges(s, 0, n, 10);
    proof {
        assert(s@.subrange(0, n as int) =~= s@);
        lemma_split_len(s@, 10);
    }
    let count: usize = if n == 0 || s[n - 1] == 10 {
        pieces.len() - 1
    } else {
        pieces.len()
    };
    let mut r: Vec<(usize, usize)> = Vec::new();
    let mut k: usize = 0;
    while k < count
        invariant
            count == line_count(s@),
            count <= pieces@.len(),
            k <= count,
            pieces@.len() == split(s@, 10).len(),
            forall|j: int|
                0 <= j < pieces@.len() ==> 0 <= (#[trigger] pieces@[j]).0 <= pieces@[j].1
                    <= s@.len() && s@.subrange(pieces@[j].0 as int, pieces@[j].1 as int)
                    == split(s@, 10)[j],
            r@.len() == k,
            forall|j: int|
                0 <= j < k ==> (#[trigger] r@[j]).0 <= r@[j].1 <= s@.len() && s@.subrange(
                    r@[j].0 as int,
                    r@[j].1 as int,
                ) == lines(s@)[j],
        decreases count - k,
    {
        let (a, b) = pieces[k];
        let mut e = b;
        if k + 1 < pieces.len() && b > a && s[b - 1] == 13 {
            e = b - 1;
            proof {
                assert(s@.subrange(a as int, e as int) =~= s@.subrange(
                    a as int,
                    b as int,
                ).drop_last());
            }
        }
        r.push((a, e));
        k = k + 1;
    }
    r
}

/// The numbers no larger than `max` among the comma-separated fields of
/// `s[from..to]`.
pub fn numbers_at(s: &[u8], from: usize, to: usize, max: u32) -> (r: Vec<u32>)
    requires
        from <= to <= s@.len(),
    ensures
        r@.map_values(|v: u32| v as nat) == line_numbers(
            s@.subrange(from as int, to as int),
            max as nat,
        ),
        forall|j: int| 0 <= j < r@.len() ==> #[trigger] r@[j] <= max,
{
    let fields = split_ranges(s, from, to, 44);
    let ghost pieces = split(s@.subrange(from as int, to as int), 44);
    let mut r: Vec<u32> = Vec::new();
    let mut k: usize = 0;
    proof {
        assert(pieces.subrange(0, 0) =~= Seq::<Seq<u8>>::empty());
        assert(r@.map_values(|v: u32| v as nat) =~= Seq::<nat>::empty());
    }
    while k < fields.len()
        invariant
            k <= fields@.len() == pieces.len(),
            pieces == split(s@.subrange(from as int, to as int), 44),
            forall|j: int|
                0 <= j < fields@.len() ==> from <= (#[trigger] fields@[j]).0 <= fields@[j].1
                    <= to && s@.subrange(fields@[j].0 as int, fields@[j].1 as int)
                    == pieces[j],
            to <= s@.len(),
            forall|j: int| 0 <= j < r@.len() ==> #[trigger] r@[j] <= max,
            r@.map_values(|v: u32| v as nat) == parsed_values(
                pieces.subrange(0, k as int),
                max as nat,
            ),
        decreases fields@.len() - k,
    {
        let (a, b) = fields[k];
        let v = parse_unsigned_at(s, a, b, max);
        proof {
            assert(pieces.subrange(0, k + 1).drop_last() =~= pieces.subrange(0, k as int));
            assert(pieces.subrange(0, k + 1).last() == pieces[k as int]);
        }
        match v {
            Some(x) => {
                let ghost before = r@;
                r.push(x);
                proof {
                    assert(r@.map_values(|v: u32| v as nat) =~= before.map_values(
                        |v: u32| v as nat,
                    ).push(x as nat));
                }
            },
            None => {},
        }
        k = k + 1;
    }
    proof {
        assert(pieces.subrange(0, k as int) =~= pieces);
    }
    r
}

} // verus!
