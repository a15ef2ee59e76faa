//! Option handling that the conversion needs: parsing a quality value and
//! a background color from their command-line spellings, deriving the
//! search bounds from quality and spread, and the calibrated table that
//! maps a quality to its dissimilarity target.

use vstd::prelude::*;
use crate::image::Rgb;

verus! {

/// Whether `c` is a decimal digit.
pub open spec fn is_digit(c: char) -> bool {
    48 <= c as int <= 57
}

/// The value of a decimal digit.
pub open spec fn digit_val(c: char) -> int {
    c as int - 48
}

/// Whether every character is a decimal digit.
pub open spec fn all_digits(s: Seq<char>) -> bool {
    forall|i: int| 0 <= i < s.len() ==> is_digit(#[trigger] s[i])
}

/// The number a digit string denotes.
pub open spec fn digits_value(s: Seq<char>) -> int
    decreases s.len(),
{
    if s.len() == 0 {
        0
    } else {
        digits_value(s.drop_last()) * 10 + digit_val(s.last())
    }
}

/// The number an unsigned decimal spelling denotes: an optional leading
/// plus sign, then at least one digit.
pub open spec fn spec_parse_unsigned(s: Seq<char>) -> Option<int> {
    let digits = if s.len() > 0 && s[0] == '+' {
        s.drop_first()
    } else {
        s
    };
    if digits.len() > 0 && all_digits(digits) {
        Some(digits_value(digits))
    } else {
        None
    }
}

/// Parses a quality argument: an unsigned decimal number up to 100.
/// Anything else — malformed, negative, or too large — is rejected with
/// one fixed message.
pub fn parse_quality(x: &str) -> (r: Result<u8, &'static str>)
    ensures
        match r {
            Ok(v) => spec_parse_unsigned(x@) == Some(v as int) && v <= 100,
            Err(m) => (match spec_parse_unsigned(x@) {
                Some(n) => n > 100,
                None => true,
            }) && m@ == "expected value between 0 and 100"@,
        },
{
    let n = x.unicode_len();
    let start: usize = if n > 0 && x.get_char(0) == '+' {
        1
    } else {
        0
    };
    if n == start {
        return Err("expected value between 0 and 100");
    }
    let ghost digits = x@.skip(start as int);
    let mut acc: u32 = 0;
    let mut i: usize = start;
    while i < n
        invariant
            start < n,
            start <= i <= n,
            n == x@.len(),
            start == 0 ==> (x@.len() == 0 || x@[0] != '+'),
            start == 1 ==> (x@.len() > 0 && x@[0] == '+'),
            start <= 1,
            digits == x@.skip(start as int),
            all_digits(x@.subrange(start as int, i as int)),
            acc as int == (if digits_value(x@.subrange(start as int, i as int)) <= 100 {
                digits_value(x@.subrange(start as int, i as int))
            } else {
                101int
            }),
        decreases n - i,
    {
        let c = x.get_char(i);
        let cv = c as u32;
        if cv < 48 || cv > 57 {
            proof {
                assert(!is_digit(x@[i as int]));
                assert(digits[i - start] == x@[i as int]);
                if start == 1 {
                    assert(digits =~= x@.drop_first());
                } else {
                    assert(digits =~= x@);
                }
                assert(spec_parse_unsigned(x@) is None);
            }
            return Err("expected value between 0 and 100");
        }
        let d = cv - 48;
        let ghost pre = x@.subrange(start as int, i as int);
        let ghost post = x@.subrange(start as int, i + 1);
        proof {
            assert(post.drop_last() =~= pre);
            assert(post.last() == x@[i as int]);
        }
        acc = acc * 10 + d;
        if acc > 100 {
            acc = 101;
        }
        i = i + 1;
    }
    proof {
        assert(x@.subrange(start as int, n as int) =~= digits);
        if start == 1 {
            assert(digits =~= x@.drop_first());
        } else {
            assert(digits =~= x@);
        }
        assert(digits.len() > 0);
        assert(all_digits(digits));
        assert(spec_parse_unsigned(x@) == Some(digits_value(digits)));
    }
    if acc <= 100 {
        Ok(acc as u8)
    } else {
        Err("expected value between 0 and 100")
    }
}

/// Whether `c` is a hexadecimal digit.
pub open spec fn is_hex_digit(c: char) -> bool {
    is_digit(c) || (97 <= c as int <= 102) || (65 <= c as int <= 70)
}

/// The value of a hexadecimal digit.
pub open spec fn hex_val(c: char) -> int {
    if is_digit(c) {
        c as int - 48
    } else if 97 <= c as int <= 102 {
        c as int - 87
    } else {
        c as int - 55
    }
}

/// The color a `#rrggbb` spelling denotes.
pub open spec fn spec_parse_color(s: Seq<char>) -> Option<Rgb> {
    if s.len() == 7 && s[0] == '#' && is_hex_digit(s[1]) && is_hex_digit(s[2]) && is_hex_digit(
        s[3],
    ) && is_hex_digit(s[4]) && is_hex_digit(s[5]) && is_hex_digit(s[6]) {
        Some(
            Rgb {
                r: (hex_val(s[1]) * 16 + hex_val(s[2])) as u8,
                g: (hex_val(s[3]) * 16 + hex_val(s[4])) as u8,
                b: (hex_val(s[5]) * 16 + hex_val(s[6])) as u8,
            },
        )
    } else {
        None
    }
}

fn hex_digit(c: char) -> (r: Result<u8, &'static str>)
    ensures
        match r {
            Ok(v) => is_hex_digit(c) && v as int == hex_val(c) && v < 16,
            Err(m) => !is_hex_digit(c) && m@ == "invalid digit found in string"@,
        },
{
    let cv = c as u32;
    if 48 <= cv && cv <= 57 {
        Ok((cv - 48) as u8)
    } else if 97 <= cv && cv <= 102 {
        Ok((cv - 87) as u8)
    } else if 65 <= cv && cv <= 70 {
        Ok((cv - 55) as u8)
    } else {
        Err("invalid digit found in string")
    }
}

/// Parses a background color given as `#rrggbb`.
pub fn parse_color(input: &str) -> (r: Result<Rgb, &'static str>)
    ensures
        match r {
            Ok(c) => spec_parse_color(input@) == Some(c),
            Err(m) => spec_parse_color(input@) is None && (m@ == "expected format #rrggbb"@ || m@
                == "invalid digit found in string"@),
        },
{
    if input.unicode_len() != 7 || input.get_char(0) != '#' {
        return Err("expected format #rrggbb");
    }
    let r_hi = hex_digit(input.get_char(1))?;
    let r_lo = hex_digit(input.get_char(2))?;
    let g_hi = hex_digit(input.get_char(3))?;
    let g_lo = hex_digit(input.get_char(4))?;
    let b_hi = hex_digit(input.get_char(5))?;
    let b_lo = hex_digit(input.get_char(6))?;
    Ok(Rgb { r: r_hi * 16 + r_lo, g: g_hi * 16 + g_lo, b: b_hi * 16 + b_lo })
}

/// The inclusive quality bounds the search may explore: explicit values
/// win; otherwise `quality` widened by `spread` in both directions,
/// saturating at 0 and capped at 100. Rejected when the bounds cross.
pub fn search_bounds(quality: u8, spread: u8, min: Option<u8>, max: Option<u8>) -> (r: Result<
    (u8, u8),
    &'static str,
>)
    requires
        quality <= 100,
        spread <= 100,
        min matches Some(m) ==> m <= 100,
        max matches Some(m) ==> m <= 100,
    ensures
        ({
            let lo = match min {
                Some(m) => m,
                None => if quality >= spread {
                    (quality - spread) as u8
                } else {
                    0u8
                },
            };
            let hi = match max {
                Some(m) => m,
                None => if quality + spread <= 100 {
                    (quality + spread) as u8
                } else {
                    100u8
                },
            };
            match r {
                Ok(b) => lo <= hi && b == (lo, hi) && hi <= 100,
                Err(m) => lo > hi && m@
                    == "value of `--min` must be less or equal to value of `--max`"@,
            }
        }),
{
    let lo = match min {
        Some(m) => m,
        None => if quality >= spread {
            quality - spread
        } else {
            0
        },
    };
    let hi = match max {
        Some(m) => m,
        None => {
            let sum = quality + spread;
            if sum <= 100 {
                sum
            } else {
                100
            }
        },
    };
    if lo > hi {
        return Err("value of `--min` must be less or equal to value of `--max`");
    }
    Ok((lo, hi))
}

/// The calibrated mapping from a quality value to its dissimilarity
/// target, on the fixed scale the search uses (a dissimilarity of 1.0 is
/// 1,000,000,000). Indexed by quality.
pub open spec fn spec_quality_targets() -> Seq<u64> {
    seq![
        644050000u64, 644050000, 493921000, 371768500, 287500500, 226447000, 185050000,
        155942000, 134025500, 116124500, 102150000, 91649000, 83064500, 74782500, 68646500,
        63627500, 58777500, 54974000, 50993500, 48128000, 45268500, 42817500, 40464500,
        38712500, 36170000, 34701000, 33340000, 31989500, 29954000, 29339500, 28261000,
        27141500, 25916000, 24854500, 24454500, 23451000, 22603000, 22269000, 21344000,
        20581000, 20249500, 19450000, 19161500, 18906500, 18063000, 17832000, 16955500,
        16858000, 16676000, 15910500, 15727500, 15555000, 14891500, 14727000, 14584500,
        13921000, 13756500, 13506500, 12928000, 12669000, 12530500, 11922500, 11724000,
        11544000, 11267500, 10782500, 10481000, 10245000, 9772000, 9507500, 9262000, 8721000,
        8471500, 8325000, 7556500, 7454000, 7243000, 6773500, 6625500, 6356500, 5924500,
        5674500, 5422000, 5021500, 4756500, 4475500, 4129500, 3851000, 3610000, 3372000,
        2925500, 2701000, 2441500, 2091000, 1795500, 1591000, 1218000, 980500, 749000, 548000,
        400000,
    ]
}

/// The quality-to-target table, exactly the calibration data of
/// `spec_quality_targets`; higher quality demands a smaller
/// dissimilarity.
pub fn quality_targets() -> (r: Vec<u64>)
    ensures
        r@ == spec_quality_targets(),
        r@.len() == 101,
        forall|i: int| 0 <= i < 100 ==> #[trigger] r@[i] >= r@[i + 1],
{
    let v: Vec<u64> = vec![
        644050000, 644050000, 493921000, 371768500, 287500500, 226447000, 185050000,
        155942000, 134025500, 116124500, 102150000, 91649000, 83064500, 74782500, 68646500,
        63627500, 58777500, 54974000, 50993500, 48128000, 45268500, 42817500, 40464500,
        38712500, 36170000, 34701000, 33340000, 31989500, 29954000, 29339500, 28261000,
        27141500, 25916000, 24854500, 24454500, 23451000, 22603000, 22269000, 21344000,
        20581000, 20249500, 19450000, 19161500, 18906500, 18063000, 17832000, 16955500,
        16858000, 16676000, 15910500, 15727500, 15555000, 14891500, 14727000, 14584500,
        13921000, 13756500, 13506500, 12928000, 12669000, 12530500, 11922500, 11724000,
        11544000, 11267500, 10782500, 10481000, 10245000, 9772000, 9507500, 9262000, 8721000,
        8471500, 8325000, 7556500, 7454000, 7243000, 6773500, 6625500, 6356500, 5924500,
        5674500, 5422000, 5021500, 4756500, 4475500, 4129500, 3851000, 3610000, 3372000,
        2925500, 2701000, 2441500, 2091000, 1795500, 1591000, 1218000, 980500, 749000, 548000,
        400000,
    ];
    proof {
        assert(v@ =~= spec_quality_targets());
    }
    v
}

} // verus!
