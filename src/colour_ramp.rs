//! The colour ramp: an "empty" colour and ordered age steps, read from
//! text, turned into a palette, and the intensity-to-index mapping.
use vstd::prelude::*;
use vstd::string::StringSliceAdditionalSpecFns;
use crate::text::{line_numbers, line_ranges, lines, numbers_at};

verus! {

/// The most ramp steps a palette of 8-bit indices can hold beside the
/// empty colour.
pub const MAX_STEPS: usize = 254;

/// Colour of the palette slot reserved for magnitudes above the intensity
/// scale; the slot follows the ramp steps.
pub const HIGH_MAGNITUDE_COLOUR: Rgb = (255, 255, 255);

pub type Rgb = (u8, u8, u8);

pub struct ColourRamp {
    pub empty_colour: Rgb,
    pub steps: Vec<(u32, Rgb)>,
}

/// Why a ramp text was rejected.
#[derive(Debug, Clone, Copy, PartialEq, Eq, Structural)]
pub enum RampError {
    /// The first line does not hold three numbers of at most 255.
    MissingEmptyColour,
    /// The step of this index (counting from 0, on the line after it)
    /// does not hold four numbers.
    ShortStep(usize),
    /// More than `MAX_STEPS` steps.
    TooManySteps,
}

/// The first line gives the empty colour.
pub open spec fn empty_line_ok(ls: Seq<Seq<u8>>) -> bool {
    ls.len() > 0 && line_numbers(ls[0], 255).len() >= 3
}

pub open spec fn step_line_ok(line: Seq<u8>) -> bool {
    line_numbers(line, u32::MAX as nat).len() >= 4
}

/// The step that a line `age,R,G,B` describes; each colour component is
/// read as a 32-bit number and keeps its low eight bits.
pub open spec fn step_of(line: Seq<u8>) -> (u32, Rgb) {
    let v = line_numbers(line, u32::MAX as nat);
    (v[0] as u32, ((v[1] % 256) as u8, (v[2] % 256) as u8, (v[3] % 256) as u8))
}

pub open spec fn empty_of(line: Seq<u8>) -> Rgb {
    let v = line_numbers(line, 255);
    (v[0] as u8, v[1] as u8, v[2] as u8)
}

/// Every step line up to (not including) step `n` is well formed.
pub open spec fn steps_ok_before(ls: Seq<Seq<u8>>, n: int) -> bool {
    forall|j: int| 0 <= j < n ==> step_line_ok(#[trigger] ls[j + 1])
}

/// The palette of a ramp with this empty colour and these steps: three
/// bytes per colour, the empty colour first.
pub open spec fn palette_of(empty: Rgb, steps: Seq<(u32, Rgb)>) -> Seq<u8> {
    Seq::new(
        3 * (steps.len() + 1),
        |i: int|
            {
                let c = if i < 3 {
                    empty
                } else {
                    steps[i / 3 - 1].1
                };
                if i % 3 == 0 {
                    c.0
                } else if i % 3 == 1 {
                    c.1
                } else {
                    c.2
                }
            },
    )
}

/// The palette slot reserved for magnitudes above the intensity scale: the
/// one after the last of `n_steps` ramp steps.
pub open spec fn high_index_for(n_steps: nat) -> u8 {
    (n_steps + 1) as u8
}

/// The palette used for animation: the ramp palette, then the colour of
/// the high-magnitude slot.
pub open spec fn animation_palette_of(empty: Rgb, steps: Seq<(u32, Rgb)>) -> Seq<u8> {
    palette_of(empty, steps) + seq![HIGH_MAGNITUDE_COLOUR.0, HIGH_MAGNITUDE_COLOUR.1, HIGH_MAGNITUDE_COLOUR.2]
}

/// Palette index for an intensity, with `n_steps` ramp steps: 0 where
/// nothing is set, the reserved high-magnitude slot above 255, else the
/// scale read backwards.
pub open spec fn index_for(n_steps: nat, magnitude: Option<u32>) -> u8 {
    match magnitude {
        None => 0,
        Some(m) => if m > 255 {
            high_index_for(n_steps)
        } else {
            (255 - m) as u8
        },
    }
}

impl ColourRamp {
    /// Reads a ramp: the first line `R,G,B` is the empty colour, each
    /// further line `age,R,G,B` one step, in order. Fields that are not
    /// numbers are skipped.
    pub fn new_from_text(source: &str) -> (r: Result<ColourRamp, RampError>)
        ensures
            ({
                let ls = lines(source.spec_bytes());
                match r {
                    Ok(ramp) => empty_line_ok(ls) && steps_ok_before(ls, ls.len() - 1) && ls.len()
                        - 1 <= MAX_STEPS && ramp.empty_colour == empty_of(ls[0])
                        && ramp.steps@.len() == ls.len() - 1 && forall|k: int|
                        0 <= k < ramp.steps@.len() ==> #[trigger] ramp.steps@[k] == step_of(
                            ls[k + 1],
                        ),
                    Err(RampError::MissingEmptyColour) => !empty_line_ok(ls),
                    Err(RampError::ShortStep(k)) => empty_line_ok(ls) && k + 1 < ls.len()
                        && steps_ok_before(ls, k as int) && !step_line_ok(ls[k + 1]),
                    Err(RampError::TooManySteps) => empty_line_ok(ls) && steps_ok_before(
                        ls,
                        ls.len() - 1,
                    ) && ls.len() - 1 > MAX_STEPS,
                }
            }),
    {
        let bytes = source.as_bytes();
        let ghost ls = lines(bytes@);
        let rs = line_ranges(bytes);
        if rs.len() == 0 {
            return Err(RampError::MissingEmptyColour);
        }
        let first = numbers_at(bytes, rs[0].0, rs[0].1, 255);
        if first.len() < 3 {
            proof {
                assert(first@.map_values(|v: u32| v as nat).len() == first@.len());
            }
            return Err(RampError::MissingEmptyColour);
        }
        proof {
            let fv = first@.map_values(|v: u32| v as nat);
            assert(fv[0] == first@[0] as nat && fv[1] == first@[1] as nat && fv[2]
                == first@[2] as nat);
        }
        let empty = (first[0] as u8, first[1] as u8, first[2] as u8);
        let mut steps: Vec<(u32, Rgb)> = Vec::new();
        let mut k: usize = 1;
        while k < rs.len()
            invariant
                1 <= k <= rs@.len() == ls.len(),
                ls == lines(bytes@),
                bytes@ == source.spec_bytes(),
                empty_line_ok(ls),
                forall|j: int|
                    0 <= j < rs@.len() ==> (#[trigger] rs@[j]).0 <= rs@[j].1 <= bytes@.len()
                        && bytes@.subrange(rs@[j].0 as int, rs@[j].1 as int) == ls[j],
                steps@.len() == k - 1,
                steps_ok_before(ls, k - 1),
                forall|j: int| 0 <= j < k - 1 ==> #[trigger] steps@[j] == step_of(ls[j + 1]),
            decreases rs@.len() - k,
        {
            let v = numbers_at(bytes, rs[k].0, rs[k].1, u32::MAX);
            let ghost vn = v@.map_values(|x: u32| x as nat);
            if v.len() < 4 {
                proof {
                    assert(vn.len() == v@.len());
                    assert(!step_line_ok(ls[(k - 1) + 1]));
                }
                return Err(RampError::ShortStep(k - 1));
            }
            proof {
                assert(vn[0] == v@[0] as nat && vn[1] == v@[1] as nat && vn[2] == v@[2] as nat
                    && vn[3] == v@[3] as nat);
            }
            steps.push((v[0], ((v[1] % 256) as u8, (v[2] % 256) as u8, (v[3] % 256) as u8)));
            proof {
                assert forall|j: int| 0 <= j < k implies step_line_ok(#[trigger] ls[j + 1]) by {
                    if j == k - 1 {
                        assert(vn.len() >= 4);
                    }
                }
            }
            k = k + 1;
        }
        if steps.len() > MAX_STEPS {
            return Err(RampError::TooManySteps);
        }
        Ok(ColourRamp { empty_colour: empty, steps })
    }

    /// The palette: the empty colour, then each step's colour in order,
    /// three bytes each.
    pub fn palette(&self) -> (r: Vec<u8>)
        ensures
            r@ == palette_of(self.empty_colour, self.steps@),
    {
        let mut results: Vec<u8> = Vec::new();
        results.push(self.empty_colour.0);
        results.push(self.empty_colour.1);
        results.push(self.empty_colour.2);
        let ghost steps = self.steps@;
        let mut k: usize = 0;
        while k < self.steps.len()
            invariant
                k <= self.steps@.len(),
                steps == self.steps@,
                results@ =~= palette_of(self.empty_colour, steps.subrange(0, k as int)),
            decreases self.steps@.len() - k,
        {
            let (_, (r, g, b)) = self.steps[k];
            results.push(r);
            results.push(g);
            results.push(b);
            proof {
                let sub = steps.subrange(0, k + 1);
                assert forall|i: int| 0 <= i < results@.len() implies results@[i] == palette_of(
                    self.empty_colour,
                    sub,
                )[i] by {
                    if i >= 3 * (k + 1) {
                        assert(i / 3 - 1 == k);
                    } else {
                        if i >= 3 {
                            assert(i / 3 - 1 < k);
                            assert(sub[i / 3 - 1] == steps.subrange(0, k as int)[i / 3 - 1]);
                        }
                    }
                }
            }
            k = k + 1;
        }
        proof {
            assert(steps.subrange(0, k as int) =~= steps);
        }
        results
    }

    /// The palette index reserved for magnitudes above the intensity scale;
    /// it is none of the ramp's own indices.
    pub fn high_magnitude_index(&self) -> (r: u8)
        requires
            self.steps@.len() <= MAX_STEPS,
        ensures
            r == high_index_for(self.steps@.len()),
            r != 0,
            r > self.steps@.len(),
    {
        (self.steps.len() + 1) as u8
    }

    /// The palette for animation: `palette()`, then the colour of the
    /// high-magnitude slot, so that every index `index_for_magnitude`
    /// gives has a colour.
    pub fn animation_palette(&self) -> (r: Vec<u8>)
        ensures
            r@ == animation_palette_of(self.empty_colour, self.steps@),
    {
        let mut r = self.palette();
        r.push(HIGH_MAGNITUDE_COLOUR.0);
        r.push(HIGH_MAGNITUDE_COLOUR.1);
        r.push(HIGH_MAGNITUDE_COLOUR.2);
        proof {
            assert(r@ =~= animation_palette_of(self.empty_colour, self.steps@));
        }
        r
    }

    /// Palette index for an intensity (see `index_for`).
    pub fn index_for_magnitude(&self, magnitude: Option<u32>) -> (r: u8)
        requires
            self.steps@.len() <= MAX_STEPS,
        ensures
            r == index_for(self.steps@.len(), magnitude),
            magnitude matches Some(m) && m > 255 ==> r != 0 && r > self.steps@.len(),
    {
        match magnitude {
            None => 0,
            Some(m) => {
                if m > 255 {
                    self.high_magnitude_index()
                } else {
                    (255 - m) as u8
                }
            },
        }
    }
}

} // verus!
