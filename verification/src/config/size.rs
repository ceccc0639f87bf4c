//! Size strings (`"4G"`, `"512MiB"`, `"2048"`) expressed in MiB.

use vstd::prelude::*;

use crate::text::{
    after, all_digits, before, chars, decimal, decimal_value, digit_run, is_digit_char, is_white,
    lemma_decimal, lemma_digit_run, lemma_digit_run_concat, lowercase, parse_decimal, push_decimal,
    quoted, quoted_text, same, string_of, to_lowercase,
};

verus! {

/// MiB per GiB.
pub const MIB_PER_GIB: u32 = 1024;

/// Why a size string could not be parsed.
#[derive(Debug, PartialEq, Eq)]
pub enum SizeError {
    Malformed(String),
    UnknownUnit(String),
    Zero,
    TooLarge,
}

/// A [`SizeError`] by its contents.
pub enum SizeErrorView {
    Malformed(Seq<char>),
    UnknownUnit(Seq<char>),
    Zero,
    TooLarge,
}

impl View for SizeError {
    type V = SizeErrorView;

    open spec fn view(&self) -> SizeErrorView {
        match self {
            SizeError::Malformed(input) => SizeErrorView::Malformed(input@),
            SizeError::UnknownUnit(unit) => SizeErrorView::UnknownUnit(unit@),
            SizeError::Zero => SizeErrorView::Zero,
            SizeError::TooLarge => SizeErrorView::TooLarge,
        }
    }
}

/// How many MiB a unit stands for.
pub open spec fn unit_mib(unit: Seq<char>) -> Option<nat> {
    let u = lowercase(unit);
    if u == ""@ || u == "m"@ || u == "mb"@ || u == "mib"@ {
        Some(1)
    } else if u == "g"@ || u == "gb"@ || u == "gib"@ {
        Some(MIB_PER_GIB as nat)
    } else {
        None
    }
}

/// A size string: digits, then a unit.
pub open spec fn size_of(input: Seq<char>) -> Result<u32, SizeErrorView> {
    let n = digit_run(input, 0);
    let digits = before(input, n);
    let unit = after(input, n);
    if n == 0 {
        Err(SizeErrorView::Malformed(input))
    } else {
        match unit_mib(unit) {
            None => if unit.len() > 0 && (unit[0] == '.' || is_white(unit[0])) {
                Err(SizeErrorView::Malformed(input))
            } else {
                Err(SizeErrorView::UnknownUnit(unit))
            },
            Some(mib) => if decimal_value(digits) > u32::MAX {
                Err(SizeErrorView::TooLarge)
            } else if decimal_value(digits) == 0 {
                Err(SizeErrorView::Zero)
            } else if decimal_value(digits) * mib > u32::MAX {
                Err(SizeErrorView::TooLarge)
            } else {
                Ok((decimal_value(digits) * mib) as u32)
            },
        }
    }
}

/// The outcome of a parse, by its contents.
pub open spec fn size_outcome(r: Result<u32, SizeError>) -> Result<u32, SizeErrorView> {
    match r {
        Ok(mib) => Ok(mib),
        Err(error) => Err(error@),
    }
}

/// Parse a size string into MiB.
///
/// Units are case-insensitive: `M`/`MB`/`MiB` and `G`/`GB`/`GiB`, all binary.
/// A bare integer is MiB. Whitespace and fractions are not accepted.
pub fn parse_size_mib(input: &str) -> (r: Result<u32, SizeError>)
    ensures
        size_outcome(r) == size_of(input@),
{
    let text = chars(input);
    let mut n: usize = 0;
    while n < text.len() && is_digit_char(text[n])
        invariant
            n <= text@.len(),
            digit_run(text@, 0) == digit_run(text@, n as int),
        decreases text@.len() - n,
    {
        n += 1;
    }
    if n == 0 {
        return Err(SizeError::Malformed(input.to_owned()));
    }
    let unit = string_of(&text, n, text.len());
    let lowered = to_lowercase(unit.as_str());
    let low = lowered.as_str();
    let multiplier: u64 = if same(low, "") || same(low, "m") || same(low, "mb") || same(low, "mib") {
        1
    } else if same(low, "g") || same(low, "gb") || same(low, "gib") {
        MIB_PER_GIB as u64
    } else if n < text.len() && (text[n] == '.' || text[n].is_whitespace()) {
        return Err(SizeError::Malformed(input.to_owned()));
    } else {
        return Err(SizeError::UnknownUnit(unit));
    };
    proof {
        lemma_digit_run(text@, 0);
        assert(all_digits(before(text@, n as int)));
    }
    let value: u64 = match parse_decimal(&text, 0, n, u32::MAX as u64) {
        Some(value) => value,
        None => {
            return Err(SizeError::TooLarge);
        },
    };
    if value == 0 {
        return Err(SizeError::Zero);
    }
    assert(value * multiplier <= u32::MAX * 1024) by (nonlinear_arith)
        requires
            value <= u32::MAX,
            multiplier == 1 || multiplier == 1024,
    ;
    let mib: u64 = value * multiplier;
    if mib > u32::MAX as u64 {
        return Err(SizeError::TooLarge);
    }
    Ok(mib as u32)
}

pub open spec fn mib_text(mib: nat) -> Seq<char> {
    if mib % (MIB_PER_GIB as nat) == 0 {
        decimal(mib / (MIB_PER_GIB as nat)) + "G"@
    } else {
        decimal(mib) + "M"@
    }
}

/// Format MiB compactly: whole GiB as `"4G"`, anything else as `"1536M"`.
pub fn format_mib(mib: u32) -> (r: String)
    ensures
        r@ == mib_text(mib as nat),
{
    let mut r = String::new();
    if mib % MIB_PER_GIB == 0 {
        push_decimal(&mut r, (mib / MIB_PER_GIB) as u64);
        r.push_str("G");
    } else {
        push_decimal(&mut r, mib as u64);
        r.push_str("M");
    }
    assert(r@ =~= mib_text(mib as nat));
    r
}

impl SizeErrorView {
    pub open spec fn text(self) -> Seq<char> {
        match self {
            SizeErrorView::Malformed(input) =>
                "expected a size such as \"4G\" or \"512M\", got "@ + quoted_text(input),
            SizeErrorView::UnknownUnit(unit) => "unknown unit "@ + quoted_text(unit)
                + "; use M, MB, MiB, G, GB or GiB"@,
            SizeErrorView::Zero => "the size must be greater than zero"@,
            SizeErrorView::TooLarge => "the size is too large"@,
        }
    }
}

impl SizeError {
    /// The error in words.
    pub fn to_text(&self) -> (r: String)
        ensures
            r@ == self@.text(),
    {
        match self {
            SizeError::Malformed(input) => {
                let mut r = "expected a size such as \"4G\" or \"512M\", got ".to_owned();
                r.push_str(quoted(input.as_str()).as_str());
                r
            },
            SizeError::UnknownUnit(unit) => {
                let mut r = "unknown unit ".to_owned();
                r.push_str(quoted(unit.as_str()).as_str());
                r.push_str("; use M, MB, MiB, G, GB or GiB");
                r
            },
            SizeError::Zero => "the size must be greater than zero".to_owned(),
            SizeError::TooLarge => "the size is too large".to_owned(),
        }
    }
}

/// What is formatted reads back as the same size. (Zero is formatted but not
/// accepted.)
pub proof fn law_sizes_round_trip(mib: u32)
    requires
        mib > 0,
    ensures
        size_of(mib_text(mib as nat)) == Ok::<u32, SizeErrorView>(mib),
{
    let gib = mib % MIB_PER_GIB == 0;
    let n = if gib { (mib / MIB_PER_GIB) as nat } else { mib as nat };
    let unit = if gib { "G"@ } else { "M"@ };
    reveal_strlit("G");
    reveal_strlit("M");
    reveal_strlit("g");
    reveal_strlit("m");
    reveal_strlit("");
    reveal_strlit("mb");
    reveal_strlit("mib");
    lemma_decimal(n);
    let text = decimal(n) + unit;
    assert(text == mib_text(mib as nat));
    lemma_digit_run_concat(decimal(n), unit, 0);
    assert(before(text, decimal(n).len() as int) =~= decimal(n));
    assert(after(text, decimal(n).len() as int) =~= unit);
    assert(lowercase("G"@) =~= "g"@);
    assert(lowercase("M"@) =~= "m"@);
    assert("g"@[0] != "m"@[0]);
    if gib {
        assert(unit_mib(unit) == Some(1024nat));
        assert(n * 1024nat == mib);
    } else {
        assert(unit_mib(unit) == Some(1nat));
        assert(n * 1nat == mib);
    }
}

/// A size is a number and a unit: MiB without one or with `M`, `MB` or `MiB`, and
/// 1024 of them with `G`, `GB` or `GiB`, in any case. Nothing, zero and what does not
/// fit are refused, and so is every other unit.
pub proof fn law_sizes_are_numbers_and_units(n: nat, unit: Seq<char>)
    requires
        unit.len() > 0 ==> !('0' <= unit[0] <= '9'),
    ensures
        ({
            let text = decimal(n) + unit;
            let u = lowercase(unit);
            let factor: nat = if u == "g"@ || u == "gb"@ || u == "gib"@ {
                1024
            } else {
                1
            };
            if u.len() == 0 || u == "m"@ || u == "mb"@ || u == "mib"@ || u == "g"@ || u == "gb"@
                || u == "gib"@ {
                size_of(text) == if n == 0 {
                    Err::<u32, SizeErrorView>(SizeErrorView::Zero)
                } else if n * factor <= 0xffff_ffff {
                    Ok((n * factor) as u32)
                } else {
                    Err(SizeErrorView::TooLarge)
                }
            } else if unit[0] == '.' || is_white(unit[0]) {
                size_of(text) == Err::<u32, SizeErrorView>(SizeErrorView::Malformed(text))
            } else {
                size_of(text) == Err::<u32, SizeErrorView>(SizeErrorView::UnknownUnit(unit))
            }
        }),
        size_of(unit) == Err::<u32, SizeErrorView>(SizeErrorView::Malformed(unit)),
{
    lemma_decimal(n);
    let text = decimal(n) + unit;
    reveal_strlit("");
    reveal_strlit("m");
    reveal_strlit("mb");
    reveal_strlit("mib");
    reveal_strlit("g");
    reveal_strlit("gb");
    reveal_strlit("gib");
    assert("m"@[0] == 'm' && "mb"@[0] == 'm' && "mib"@[0] == 'm');
    assert("g"@[0] == 'g' && "gb"@[0] == 'g' && "gib"@[0] == 'g');
    lemma_digit_run_concat(decimal(n), unit, 0);
    assert(before(text, decimal(n).len() as int) =~= decimal(n));
    assert(after(text, decimal(n).len() as int) =~= unit);
    let u = lowercase(unit);
    if u.len() == 0 {
        assert(u =~= ""@);
    }
    assert(n * 1nat == n);
    if n > u32::MAX {
        assert(n * 1024nat > u32::MAX);
    }
}

} // verus!
