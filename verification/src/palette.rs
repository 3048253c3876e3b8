//! The palette resolver: maps a material index to a color and an emission
//! sample. Entry `0` of the material index space is the air sentinel and
//! always resolves to a fully transparent, zero-emission sample; a non-zero
//! index `m` resolves to slot `m - 1` of the resolved palette. Emission
//! strengths are parsed from the material's decimal text into fixed-point
//! thousandths, so the module holds no floating point.

use crate::vox::{VoxColor, VoxFile};
use crate::DecodeError;
use vstd::prelude::*;

verus! {

/// An sRGB color sample: three 8-bit channels.
#[derive(Clone, Copy, Debug, PartialEq, Eq, Structural)]
pub struct Rgb {
    pub r: u8,
    pub g: u8,
    pub b: u8,
}

/// An emission record in fixed-point thousandths: `alpha_milli` is the
/// emission gate (0 means non-emissive), `intensity_milli` the brightness
/// multiplier (1000 means 1.0).
#[derive(Clone, Copy, Debug, PartialEq, Eq, Structural)]
pub struct Emission {
    pub alpha_milli: u32,
    pub intensity_milli: u32,
}

/// One resolved palette entry.
#[derive(Clone, Copy, Debug, PartialEq, Eq, Structural)]
pub struct PaletteSample {
    pub color: Rgb,
    pub emission: Emission,
}

/// The sample every air cell resolves to: black, fully non-emissive.
pub open spec fn air_sample() -> PaletteSample {
    PaletteSample {
        color: Rgb { r: 0, g: 0, b: 0 },
        emission: Emission { alpha_milli: 0, intensity_milli: 0 },
    }
}

/// ASCII digit test.
pub open spec fn is_digit_byte(b: u8) -> bool {
    48 <= b <= 57
}

/// Every byte of `s` is an ASCII digit.
pub open spec fn all_digit_bytes(s: Seq<u8>) -> bool {
    forall|i: int| 0 <= i < s.len() ==> is_digit_byte(s[i])
}

/// The non-negative integer written by a digit sequence (most significant
/// first); an empty sequence denotes 0.
pub open spec fn digits_val(s: Seq<u8>) -> int
    decreases s.len(),
{
    if s.len() == 0 {
        0
    } else {
        digits_val(s.drop_last()) * 10 + (s.last() - 48)
    }
}

/// Index of the first `.` in `s`, or `s.len()` if there is none.
pub open spec fn dot_pos(s: Seq<u8>) -> int
    decreases s.len(),
{
    if s.len() == 0 {
        0
    } else if s[0] == 46 {
        0
    } else {
        1 + dot_pos(s.subrange(1, s.len() as int))
    }
}

/// The integer-part digits of a decimal text: everything before the first
/// dot.
pub open spec fn int_part(s: Seq<u8>) -> Seq<u8> {
    s.take(dot_pos(s))
}

/// The fraction digits of a decimal text: everything after the first dot,
/// or empty if there is no dot.
pub open spec fn frac_part(s: Seq<u8>) -> Seq<u8> {
    if dot_pos(s) < s.len() {
        s.skip(dot_pos(s) + 1)
    } else {
        Seq::empty()
    }
}

/// `s` is a well-formed unsigned decimal: digits, at most one dot, and at
/// least one digit somewhere.
pub open spec fn is_decimal(s: Seq<u8>) -> bool {
    &&& all_digit_bytes(int_part(s))
    &&& all_digit_bytes(frac_part(s))
    &&& int_part(s).len() + frac_part(s).len() > 0
}

/// The value of the fraction digits in thousandths; digits beyond the
/// third are below the resolution and ignored.
pub open spec fn frac_milli(f: Seq<u8>) -> int {
    if f.len() == 0 {
        0
    } else if f.len() == 1 {
        (f[0] - 48) * 100
    } else if f.len() == 2 {
        (f[0] - 48) * 100 + (f[1] - 48) * 10
    } else {
        (f[0] - 48) * 100 + (f[1] - 48) * 10 + (f[2] - 48)
    }
}

/// The value of a well-formed decimal text in thousandths.
pub open spec fn decimal_milli(s: Seq<u8>) -> int {
    digits_val(int_part(s)) * 1000 + frac_milli(frac_part(s))
}

/// What parsing an emission text yields: the value in thousandths if the
/// text is a well-formed unsigned decimal that fits, `None` otherwise.
pub open spec fn spec_parse_milli(s: Seq<u8>) -> Option<u32> {
    if is_decimal(s) && decimal_milli(s) <= u32::MAX {
        Some(decimal_milli(s) as u32)
    } else {
        None
    }
}

/// The emission strength a material slot contributes: the parsed `emit`
/// text, or 0 when the slot is missing, has no `emit`, or the text does not
/// parse.
pub open spec fn spec_material_alpha(file: VoxFile, i: int) -> u32 {
    if 0 <= i < file.materials@.len() {
        match file.materials@[i].emit {
            Some(v) => match spec_parse_milli(v@) {
                Some(m) => m,
                None => 0,
            },
            None => 0,
        }
    } else {
        0
    }
}

/// The resolved sample for palette slot `i`: the slot's color and its
/// material's emission strength, with unit intensity.
pub open spec fn spec_resolved_sample(file: VoxFile, i: int) -> PaletteSample {
    PaletteSample {
        color: Rgb {
            r: file.palette@[i].r,
            g: file.palette@[i].g,
            b: file.palette@[i].b,
        },
        emission: Emission {
            alpha_milli: spec_material_alpha(file, i),
            intensity_milli: 1000,
        },
    }
}

/// Appending one digit multiplies the prefix value by ten and adds it, and
/// never shrinks the value.
proof fn lemma_digits_val_push(s: Seq<u8>, i: int)
    requires
        0 <= i < s.len(),
    ensures
        digits_val(s.take(i + 1)) == digits_val(s.take(i)) * 10 + (s[i] - 48),
{
    assert(s.take(i + 1).drop_last() =~= s.take(i));
    assert(s.take(i + 1).last() == s[i]);
}

/// Over digit bytes, the value of a longer prefix is at least the value of
/// a shorter one.
proof fn lemma_digits_val_grows(s: Seq<u8>, i: int)
    requires
        0 <= i < s.len(),
        all_digit_bytes(s),
        digits_val(s.take(i)) >= 0,
    ensures
        digits_val(s.take(i + 1)) >= digits_val(s.take(i)),
        digits_val(s.take(i + 1)) >= 0,
{
    lemma_digits_val_push(s, i);
    assert(digits_val(s.take(i)) * 10 >= digits_val(s.take(i))) by (nonlinear_arith)
        requires
            digits_val(s.take(i)) >= 0,
    ;
}

/// The value of any digit sequence is non-negative.
proof fn lemma_digits_val_nonneg(s: Seq<u8>)
    requires
        all_digit_bytes(s),
    ensures
        digits_val(s) >= 0,
    decreases s.len(),
{
    if s.len() > 0 {
        assert(all_digit_bytes(s.drop_last())) by {
            assert(forall|i: int| 0 <= i < s.len() - 1 ==> s.drop_last()[i] == s[i]);
        }
        lemma_digits_val_nonneg(s.drop_last());
        assert(digits_val(s.drop_last()) * 10 >= 0) by (nonlinear_arith)
            requires
                digits_val(s.drop_last()) >= 0,
        ;
    }
}

/// Over digit bytes, prefix values are monotone in the prefix length.
proof fn lemma_digits_val_take_mono(s: Seq<u8>, i: int, j: int)
    requires
        all_digit_bytes(s),
        0 <= i <= j <= s.len(),
    ensures
        digits_val(s.take(j)) >= digits_val(s.take(i)),
    decreases j - i,
{
    if i < j {
        lemma_digits_val_take_mono(s, i, j - 1);
        assert(all_digit_bytes(s.take(j - 1))) by {
            assert(forall|t: int| 0 <= t < j - 1 ==> s.take(j - 1)[t] == s[t]);
        }
        lemma_digits_val_nonneg(s.take(j - 1));
        lemma_digits_val_grows(s, j - 1);
    }
}

/// If no byte of `s` before `i` is a dot and `s[i]` is one, the first dot
/// is at `i`; if no byte at all is a dot, the first-dot position is the
/// length.
proof fn lemma_dot_pos_at(s: Seq<u8>, i: int)
    requires
        0 <= i <= s.len(),
        forall|j: int| 0 <= j < i ==> s[j] != 46,
        i < s.len() ==> s[i] == 46,
    ensures
        dot_pos(s) == i,
    decreases s.len(),
{
    if s.len() == 0 {
    } else if s[0] == 46 {
    } else {
        let t = s.subrange(1, s.len() as int);
        lemma_dot_pos_at(t, i - 1);
    }
}

/// Parses an unsigned decimal text into fixed-point thousandths.
///
/// Returns the exact value of the text in thousandths of a unit, with
/// fraction digits beyond the third ignored; `None` when the text is not
/// of the form `digits [ '.' digits ]` with at least one digit, or when
/// the value exceeds `u32::MAX` thousandths.
pub fn parse_emission_milli(s: &[u8]) -> (r: Option<u32>)
    ensures
        r == spec_parse_milli(s@),
{
    let n = s.len();
    // Find the first dot.
    let mut dp: usize = 0;
    while dp < n && s[dp] != 46
        invariant
            0 <= dp <= n,
            n == s@.len(),
            forall|j: int| 0 <= j < dp ==> s@[j] != 46,
        decreases n - dp,
    {
        dp = dp + 1;
    }
    proof {
        lemma_dot_pos_at(s@, dp as int);
    }
    // Validate the digits on both sides of the dot.
    let mut i: usize = 0;
    while i < dp
        invariant
            0 <= i <= dp <= n,
            n == s@.len(),
            forall|j: int| 0 <= j < i ==> is_digit_byte(s@[j]),
        decreases dp - i,
    {
        if s[i] < 48 || s[i] > 57 {
            proof {
                assert(int_part(s@)[i as int] == s@[i as int]);
                assert(!is_decimal(s@));
            }
            return None;
        }
        i = i + 1;
    }
    let fstart = if dp < n { dp + 1 } else { n };
    let mut k: usize = fstart;
    while k < n
        invariant
            fstart <= k <= n,
            n == s@.len(),
            fstart == if dp < n { dp + 1 } else { n as int },
            dot_pos(s@) == dp,
            forall|j: int| fstart <= j < k ==> is_digit_byte(s@[j]),
        decreases n - k,
    {
        if s[k] < 48 || s[k] > 57 {
            proof {
                assert(frac_part(s@)[k - fstart] == s@[k as int]);
                assert(!is_decimal(s@));
            }
            return None;
        }
        k = k + 1;
    }
    if dp == 0 && fstart >= n {
        proof {
            assert(int_part(s@).len() == 0);
            assert(frac_part(s@).len() == 0);
        }
        return None;
    }
    proof {
        assert(all_digit_bytes(int_part(s@))) by {
            assert(forall|j: int| 0 <= j < dp ==> int_part(s@)[j] == s@[j]);
        }
        assert(all_digit_bytes(frac_part(s@))) by {
            assert(forall|j: int|
                0 <= j < frac_part(s@).len() ==> frac_part(s@)[j] == s@[j + fstart]);
        }
        assert(is_decimal(s@));
    }
    // Accumulate the integer part, stopping once the value cannot fit.
    let ghost ip = int_part(s@);
    let mut acc: u64 = 0;
    let mut i2: usize = 0;
    while i2 < dp
        invariant
            0 <= i2 <= dp <= n,
            n == s@.len(),
            ip == int_part(s@),
            ip.len() == dp,
            all_digit_bytes(ip),
            forall|j: int| 0 <= j < dp ==> ip[j] == s@[j],
            is_decimal(s@),
            acc == digits_val(ip.take(i2 as int)),
            acc <= u32::MAX,
        decreases dp - i2,
    {
        proof {
            assert(is_digit_byte(ip[i2 as int]));
            lemma_digits_val_push(ip, i2 as int);
        }
        let d = s[i2] - 48;
        let next = acc * 10 + d as u64;
        if next > u32::MAX as u64 {
            // Every longer prefix is at least as large, so the whole value
            // overflows.
            proof {
                assert(digits_val(ip.take(i2 as int + 1)) == next);
                lemma_digits_val_take_mono(ip, i2 as int + 1, ip.len() as int);
                assert(ip.take(ip.len() as int) =~= ip);
                lemma_digits_val_nonneg(frac_part(s@));
                assert(frac_milli(frac_part(s@)) >= 0);
                assert(digits_val(ip) * 1000 > u32::MAX) by (nonlinear_arith)
                    requires
                        digits_val(ip) > u32::MAX,
                ;
            }
            return None;
        }
        acc = next;
        i2 = i2 + 1;
    }
    proof {
        assert(ip.take(dp as int) =~= ip);
    }
    // Read up to three fraction digits.
    let flen = n - fstart;
    let f0 = if flen >= 1 { (s[fstart] - 48) as u64 } else { 0 };
    let f1 = if flen >= 2 { (s[fstart + 1] - 48) as u64 } else { 0 };
    let f2 = if flen >= 3 { (s[fstart + 2] - 48) as u64 } else { 0 };
    let fm = f0 * 100 + f1 * 10 + f2;
    proof {
        let f = frac_part(s@);
        assert(forall|j: int| 0 <= j < f.len() ==> f[j] == s@[j + fstart]);
        assert(fm == frac_milli(f));
    }
    let total = acc * 1000 + fm;
    if total > u32::MAX as u64 {
        return None;
    }
    Some(total as u32)
}

/// The resolved palette: one sample per source palette slot, shared
/// read-only by every model's meshing pass.
pub struct Palette {
    samples: Vec<PaletteSample>,
}

/// What a cell's material index resolves to against a sample table: `0`
/// is the air sentinel and yields [`air_sample`] regardless of the table's
/// contents; a non-zero index `m` yields slot `m - 1`.
pub open spec fn sample_of(samples: Seq<PaletteSample>, m: int) -> PaletteSample {
    if m == 0 {
        air_sample()
    } else {
        samples[m - 1]
    }
}

/// The sample table a decoded file resolves to, one sample per palette
/// slot.
pub open spec fn resolved_samples(file: VoxFile) -> Seq<PaletteSample> {
    Seq::new(file.palette@.len(), |i: int| spec_resolved_sample(file, i))
}

impl Palette {
    /// The resolved samples, index-aligned with the source palette.
    pub closed spec fn spec_samples(self) -> Seq<PaletteSample> {
        self.samples@
    }

    /// What a cell's material index resolves to; see [`sample_of`].
    pub open spec fn spec_sample(self, m: int) -> PaletteSample {
        sample_of(self.spec_samples(), m)
    }

    /// Number of resolved samples.
    pub fn len(&self) -> (n: usize)
        ensures
            n == self.spec_samples().len(),
    {
        self.samples.len()
    }

    /// O(1) sample lookup by cell material index; the caller guarantees
    /// the index is 0 or a valid 1-based slot offset.
    pub fn sample(&self, m: u8) -> (r: PaletteSample)
        requires
            m == 0 || m - 1 < self.spec_samples().len(),
        ensures
            r == self.spec_sample(m as int),
    {
        if m == 0 {
            PaletteSample {
                color: Rgb { r: 0, g: 0, b: 0 },
                emission: Emission { alpha_milli: 0, intensity_milli: 0 },
            }
        } else {
            self.samples[(m - 1) as usize]
        }
    }

    /// Resolves a decoded file's palette and materials into samples, one
    /// per palette slot. A zero-length source palette is a decode error.
    pub fn resolve(file: &VoxFile) -> (r: Result<Palette, DecodeError>)
        ensures
            match r {
                Ok(p) => {
                    &&& file.palette@.len() > 0
                    &&& p.spec_samples() == resolved_samples(*file)
                },
                Err(e) => {
                    &&& e == DecodeError::EmptyPalette
                    &&& file.palette@.len() == 0
                },
            },
    {
        if file.palette.len() == 0 {
            return Err(DecodeError::EmptyPalette);
        }
        let n = file.palette.len();
        let mut samples: Vec<PaletteSample> = Vec::new();
        let mut i: usize = 0;
        while i < n
            invariant
                0 <= i <= n,
                n == file.palette@.len(),
                samples@.len() == i,
                forall|j: int| 0 <= j < i ==> samples@[j] == spec_resolved_sample(*file, j),
            decreases n - i,
        {
            let alpha: u32 = if i < file.materials.len() {
                match &file.materials[i].emit {
                    Some(v) => match parse_emission_milli(v.as_slice()) {
                        Some(m) => m,
                        None => 0,
                    },
                    None => 0,
                }
            } else {
                0
            };
            let c = file.palette[i];
            samples.push(PaletteSample {
                color: Rgb { r: c.r, g: c.g, b: c.b },
                emission: Emission { alpha_milli: alpha, intensity_milli: 1000 },
            });
            i = i + 1;
        }
        proof {
            assert(samples@ =~= resolved_samples(*file));
        }
        Ok(Palette { samples })
    }
}

/// Palette shift law: the air sentinel never resolves to a colored or
/// emissive sample, whatever the palette contents are.
pub proof fn lemma_air_never_lit(p: Palette)
    ensures
        p.spec_sample(0) == air_sample(),
        p.spec_sample(0).emission.alpha_milli == 0,
        p.spec_sample(0).color == (Rgb { r: 0, g: 0, b: 0 }),
{
}

} // verus!
