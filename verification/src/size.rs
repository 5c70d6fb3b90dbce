//! Size strings such as `10G` or `512MiB`, read as a count of mebibytes.

use vstd::prelude::*;
use crate::num::{IntErrorKind, parse_u64_chars, parse_u64_spec};
use crate::text::chars_of;

verus! {

/// `pat` occurs in `s` starting at index `i`.
pub open spec fn occurs_at(s: Seq<char>, pat: Seq<char>, i: int) -> bool {
    0 <= i && i + pat.len() <= s.len() && s.subrange(i, i + pat.len()) == pat
}

/// The greatest index `<= i` at which `pat` occurs in `s`.
pub open spec fn last_occurrence_from(s: Seq<char>, pat: Seq<char>, i: int) -> Option<int>
    decreases i + 1,
{
    if i < 0 {
        None
    } else if occurs_at(s, pat, i) {
        Some(i)
    } else {
        last_occurrence_from(s, pat, i - 1)
    }
}

/// The start of the last occurrence of `pat` in `s`, where `str::rsplit_once`
/// splits.
pub open spec fn last_occurrence(s: Seq<char>, pat: Seq<char>) -> Option<int> {
    last_occurrence_from(s, pat, s.len() - pat.len())
}

/// The suffixes that `parse_size_mib` tries, in order, each with the number
/// of mebibytes that one unit of it is worth.
pub open spec fn size_suffix(k: int) -> (Seq<char>, u64) {
    if k == 0 {
        (seq!['M', 'i', 'B'], 1)
    } else if k == 1 {
        (seq!['M'], 1)
    } else if k == 2 {
        (seq!['G', 'i', 'B'], 1024)
    } else if k == 3 {
        (seq!['G'], 1024)
    } else if k == 4 {
        (seq!['T', 'i', 'B'], 1048576)
    } else {
        (seq!['T'], 1048576)
    }
}

/// Tries the suffixes from the `k`-th on: each one found (at its last
/// occurrence) must end the text; it is cut off and its multiplier replaces
/// `mul`. `Err` holds the text found after a suffix.
pub open spec fn strip_size_suffixes(s: Seq<char>, k: int, mul: u64) -> Result<(Seq<char>, u64), Seq<char>>
    decreases 6 - k,
{
    if k >= 6 {
        Ok((s, mul))
    } else {
        let (suf, imul) = size_suffix(k);
        match last_occurrence(s, suf) {
            None => strip_size_suffixes(s, k + 1, mul),
            Some(i) => {
                let rest = s.skip(i + suf.len());
                if rest.len() > 0 {
                    Err(rest)
                } else {
                    strip_size_suffixes(s.take(i), k + 1, imul)
                }
            },
        }
    }
}

/// The number and the multiplier that `s` stands for, once its suffixes are
/// stripped.
pub open spec fn size_parts(s: Seq<char>) -> Result<(Seq<char>, u64), Seq<char>> {
    strip_size_suffixes(s, 0, 1)
}

/// The product of number and multiplier fits in a `u64` (where both exist).
pub open spec fn size_fits(s: Seq<char>) -> bool {
    match size_parts(s) {
        Ok((num, mul)) => match parse_u64_spec(num) {
            Ok(v) => v * mul <= u64::MAX,
            Err(_) => true,
        },
        Err(_) => true,
    }
}

/// Why a size string was refused.
#[derive(Debug, PartialEq, Eq)]
pub enum SizeError {
    /// Text follows a unit suffix; the field holds that text.
    TrailingText(String),
    /// What remains once the suffixes are stripped is no `u64`.
    InvalidNumber(IntErrorKind),
}

impl SizeError {
    /// `Trailing text after size: <text>`, or the number's parse error.
    pub fn message(&self) -> (r: String)
        ensures
            match self {
                SizeError::TrailingText(t) => r@ == "Trailing text after size: "@ + t@,
                SizeError::InvalidNumber(kind) => r@ == crate::num::int_error_text(*kind),
            },
    {
        match self {
            SizeError::TrailingText(t) => {
                let mut m = "Trailing text after size: ".to_owned();
                m.append(t.as_str());
                m
            },
            SizeError::InvalidNumber(kind) => kind.description().to_owned(),
        }
    }
}

/// The start of the last occurrence of `pat` in `chars[0..end]`.
fn rfind_in(chars: &Vec<char>, end: usize, pat: &Vec<char>) -> (r: Option<usize>)
    requires
        end <= chars.len(),
        pat.len() > 0,
    ensures
        r matches Some(i) ==> last_occurrence(chars@.take(end as int), pat@) == Some(i as int),
        r is None ==> last_occurrence(chars@.take(end as int), pat@) is None,
        r matches Some(i) ==> i + pat.len() <= end,
{
    let ghost s = chars@.take(end as int);
    let plen = pat.len();
    if plen > end {
        assert(last_occurrence(s, pat@) == None::<int>);
        return None;
    }
    let mut i: usize = end - plen + 1;
    while i > 0
        invariant
            i <= end - plen + 1,
            plen == pat.len(),
            plen <= end <= chars.len(),
            s == chars@.take(end as int),
            last_occurrence(s, pat@) == last_occurrence_from(s, pat@, i - 1),
        decreases i,
    {
        let cand = i - 1;
        let mut j: usize = 0;
        let mut same = true;
        while j < plen
            invariant
                j <= plen == pat.len(),
                cand + plen <= end <= chars.len(),
                s == chars@.take(end as int),
                same == (forall|k: int| 0 <= k < j ==> chars@[cand + k] == pat@[k]),
            decreases plen - j,
        {
            if chars[cand + j] != pat[j] {
                same = false;
            }
            j = j + 1;
        }
        proof {
            if same {
                assert(s.subrange(cand as int, cand + plen) =~= pat@);
            } else {
                let k = choose|k: int| 0 <= k < plen && chars@[cand + k] != pat@[k];
                assert(s.subrange(cand as int, cand + plen)[k] != pat@[k]);
            }
        }
        if same {
            return Some(cand);
        }
        i = cand;
    }
    None
}

fn suffix_table(k: usize) -> (r: (Vec<char>, u64))
    requires
        k < 6,
    ensures
        r.0@ == size_suffix(k as int).0,
        r.1 == size_suffix(k as int).1,
        r.0.len() > 0,
{
    if k == 0 {
        (vec!['M', 'i', 'B'], 1)
    } else if k == 1 {
        (vec!['M'], 1)
    } else if k == 2 {
        (vec!['G', 'i', 'B'], 1024)
    } else if k == 3 {
        (vec!['G'], 1024)
    } else if k == 4 {
        (vec!['T', 'i', 'B'], 1024 * 1024)
    } else {
        (vec!['T'], 1024 * 1024)
    }
}

/// Strips the unit suffixes from `chars`: `Ok((end, mul))` when the number
/// is `chars[..end]` with multiplier `mul`, `Err((from, to))` when
/// `chars[from..to]` follows a suffix.
fn strip_suffixes_exec(chars: &Vec<char>) -> (r: Result<(usize, u64), (usize, usize)>)
    ensures
        match r {
            Ok((end, mul)) => end <= chars.len() && size_parts(chars@) == Ok::<
                (Seq<char>, u64),
                Seq<char>,
            >((chars@.take(end as int), mul)),
            Err((from, to)) => from <= to <= chars.len() && size_parts(chars@) == Err::<
                (Seq<char>, u64),
                Seq<char>,
            >(chars@.subrange(from as int, to as int)),
        },
{
    let mut end: usize = chars.len();
    let mut mul: u64 = 1;
    let mut k: usize = 0;
    assert(chars@.take(end as int) =~= chars@);
    while k < 6
        invariant
            k <= 6,
            end <= chars.len(),
            size_parts(chars@) == strip_size_suffixes(chars@.take(end as int), k as int, mul),
        decreases 6 - k,
    {
        let (suffix, imul) = suffix_table(k);
        let ghost cur = chars@.take(end as int);
        let ghost (suf, im) = size_suffix(k as int);
        assert(suf == suffix@ && im == imul);
        match rfind_in(chars, end, &suffix) {
            None => {
                assert(strip_size_suffixes(cur, k as int, mul) == strip_size_suffixes(cur, k + 1, mul));
            },
            Some(i) => {
                let rest_start = i + suffix.len();
                assert(cur.skip(rest_start as int) =~= chars@.subrange(rest_start as int, end as int));
                if rest_start < end {
                    assert(strip_size_suffixes(cur, k as int, mul) == Err::<(Seq<char>, u64), Seq<char>>(cur.skip(rest_start as int)));
                    return Err((rest_start, end));
                }
                assert(cur.take(i as int) =~= chars@.take(i as int));
                assert(cur.skip(rest_start as int).len() == 0);
                assert(strip_size_suffixes(cur, k as int, mul) == strip_size_suffixes(cur.take(i as int), k + 1, imul));
                end = i;
                mul = imul;
            },
        }
        k = k + 1;
    }
    Ok((end, mul))
}

/// Parses a size into mebibytes: a decimal number, optionally followed by one
/// of `MiB`/`M` (x1), `GiB`/`G` (x1024) or `TiB`/`T` (x1024*1024).
pub fn parse_size_mib(s: &str) -> (r: Result<u64, SizeError>)
    requires
        size_fits(s@),
    ensures
        match size_parts(s@) {
            Err(rest) => r matches Err(SizeError::TrailingText(t)) && t@ == rest,
            Ok((num, mul)) => match parse_u64_spec(num) {
                Err(kind) => r == Err::<u64, SizeError>(SizeError::InvalidNumber(kind)),
                Ok(v) => r == Ok::<u64, SizeError>((v * mul) as u64),
            },
        },
{
    let chars = chars_of(s);
    match strip_suffixes_exec(&chars) {
        Err((from, to)) => Err(SizeError::TrailingText(crate::text::string_of(&chars, from, to))),
        Ok((end, mul)) => {
            assert(chars@.subrange(0, end as int) =~= chars@.take(end as int));
            match parse_u64_chars(&chars, 0, end) {
                Err(kind) => Err(SizeError::InvalidNumber(kind)),
                Ok(v) => Ok(v * mul),
            }
        },
    }
}

/// Whether `parse_size_mib` may be called on `s`: the number times its
/// multiplier fits in a `u64`, where both exist.
pub fn size_mib_fits(s: &str) -> (r: bool)
    ensures
        r == size_fits(s@),
{
    let chars = chars_of(s);
    match strip_suffixes_exec(&chars) {
        Err(_) => true,
        Ok((end, mul)) => {
            assert(chars@.subrange(0, end as int) =~= chars@.take(end as int));
            match parse_u64_chars(&chars, 0, end) {
                Err(_) => true,
                Ok(v) => {
                    assert(mul >= 1) by {
                        assert(size_parts(chars@) == strip_size_suffixes(chars@, 0, 1));
                        lemma_strip_mul_positive(chars@, 0, 1);
                    }
                    let fits = v <= u64::MAX / mul;
                    assert(fits == (v * mul <= u64::MAX)) by (nonlinear_arith)
                        requires
                            mul >= 1,
                            fits == (v <= u64::MAX / mul),
                    ;
                    fits
                },
            }
        },
    }
}

proof fn lemma_strip_mul_positive(s: Seq<char>, k: int, mul: u64)
    requires
        mul >= 1,
        0 <= k,
    ensures
        strip_size_suffixes(s, k, mul) matches Ok((_, m)) ==> m >= 1,
    decreases 6 - k,
{
    if k < 6 {
        let (suf, imul) = size_suffix(k);
        match last_occurrence(s, suf) {
            None => lemma_strip_mul_positive(s, k + 1, mul),
            Some(i) => {
                lemma_strip_mul_positive(s.take(i), k + 1, imul);
            },
        }
    }
}

proof fn lemma_no_occurrence(s: Seq<char>, pat: Seq<char>, j: int)
    requires
        pat.len() > 0,
        j < s.len(),
        forall|i: int| 0 <= i <= j ==> s[i] != pat[0],
    ensures
        last_occurrence_from(s, pat, j) is None,
    decreases j + 1,
{
    if j >= 0 {
        assert(!occurs_at(s, pat, j)) by {
            if occurs_at(s, pat, j) {
                assert(s.subrange(j, j + pat.len())[0] == s[j]);
            }
        }
        lemma_no_occurrence(s, pat, j - 1);
    }
}

/// No suffix occurs in a run of digits.
proof fn lemma_digits_no_suffix(d: Seq<char>, k: int)
    requires
        0 <= k < 6,
        forall|i: int| 0 <= i < d.len() ==> crate::num::is_digit(#[trigger] d[i]),
    ensures
        last_occurrence(d, size_suffix(k).0) is None,
{
    let pat = size_suffix(k).0;
    let j = d.len() - pat.len();
    if j >= 0 {
        lemma_no_occurrence(d, pat, j);
    }
}

/// Digits followed by the `k`-th suffix: that suffix is found at the end,
/// and none of the suffixes before it occurs.
proof fn lemma_digits_then_suffix(d: Seq<char>, k: int, m: int)
    requires
        0 <= m < 6,
        0 <= k < 6,
        forall|i: int| 0 <= i < d.len() ==> crate::num::is_digit(#[trigger] d[i]),
    ensures
        m < k ==> last_occurrence(d + size_suffix(k).0, size_suffix(m).0) is None,
        m == k ==> last_occurrence(d + size_suffix(k).0, size_suffix(m).0) == Some(d.len() as int),
{
    let s = d + size_suffix(k).0;
    let pat = size_suffix(m).0;
    let j = s.len() - pat.len();
    if m == k {
        assert(s.subrange(j, j + pat.len()) =~= pat);
    } else if m < k {
        if j >= 0 {
            assert forall|i: int| 0 <= i <= j implies s[i] != pat[0] by {
                if i < d.len() {
                    assert(crate::num::is_digit(d[i]));
                }
            }
            lemma_no_occurrence(s, pat, j);
        }
    }
}

proof fn lemma_strip_digits(d: Seq<char>, k: int, mul: u64)
    requires
        0 <= k <= 6,
        forall|i: int| 0 <= i < d.len() ==> crate::num::is_digit(#[trigger] d[i]),
    ensures
        strip_size_suffixes(d, k, mul) == Ok::<(Seq<char>, u64), Seq<char>>((d, mul)),
    decreases 6 - k,
{
    if k < 6 {
        lemma_digits_no_suffix(d, k);
        lemma_strip_digits(d, k + 1, mul);
    }
}

proof fn lemma_strip_digits_suffix(d: Seq<char>, k: int, m: int, mul: u64)
    requires
        0 <= m <= k < 6,
        forall|i: int| 0 <= i < d.len() ==> crate::num::is_digit(#[trigger] d[i]),
    ensures
        strip_size_suffixes(d + size_suffix(k).0, m, mul) == Ok::<(Seq<char>, u64), Seq<char>>(
            (d, size_suffix(k).1),
        ),
    decreases k - m,
{
    let s = d + size_suffix(k).0;
    lemma_digits_then_suffix(d, k, m);
    if m < k {
        lemma_strip_digits_suffix(d, k, m + 1, mul);
    } else {
        let suf = size_suffix(k).0;
        assert(s.skip((d.len() + suf.len()) as int).len() == 0);
        assert(s.take(d.len() as int) =~= d);
        lemma_strip_digits(d, k + 1, size_suffix(k).1);
    }
}

/// The mebibytes that `s` stands for, where `parse_size_mib` gives a value.
pub open spec fn size_mib_value(s: Seq<char>) -> Option<int> {
    match size_parts(s) {
        Ok((num, mul)) => match parse_u64_spec(num) {
            Ok(v) => Some(v * mul),
            Err(_) => None,
        },
        Err(_) => None,
    }
}

pub open spec fn times(v: Option<int>, f: int) -> Option<int> {
    match v {
        Some(x) => Some(x * f),
        None => None,
    }
}

/// Any run of digits `d` (leading zeros, `+`-less, empty or too long
/// included) reads the same alone, with `M` and with `MiB`; with `G` or
/// `GiB` it reads 1024 times that; with `T` or `TiB` 1024 times the `G`
/// reading. Beyond the values, every suffix is stripped to the same number
/// `d`, so errors agree as well.
pub proof fn law_size_suffixes(d: Seq<char>)
    requires
        forall|i: int| 0 <= i < d.len() ==> crate::num::is_digit(#[trigger] d[i]),
    ensures
        size_parts(d) == Ok::<(Seq<char>, u64), Seq<char>>((d, 1)),
        forall|k: int|
            0 <= k < 6 ==> #[trigger] size_parts(d + size_suffix(k).0) == Ok::<
                (Seq<char>, u64),
                Seq<char>,
            >((d, size_suffix(k).1)),
        size_mib_value(d + seq!['M']) == size_mib_value(d),
        size_mib_value(d + seq!['M', 'i', 'B']) == size_mib_value(d),
        size_mib_value(d + seq!['G']) == times(size_mib_value(d), 1024),
        size_mib_value(d + seq!['G', 'i', 'B']) == times(size_mib_value(d), 1024),
        size_mib_value(d + seq!['T']) == times(size_mib_value(d + seq!['G']), 1024),
        size_mib_value(d + seq!['T', 'i', 'B']) == times(size_mib_value(d + seq!['G']), 1024),
{
    lemma_strip_digits(d, 0, 1);
    assert forall|k: int| 0 <= k < 6 implies #[trigger] size_parts(d + size_suffix(k).0) == Ok::<
        (Seq<char>, u64),
        Seq<char>,
    >((d, size_suffix(k).1)) by {
        lemma_strip_digits_suffix(d, k, 0, 1);
    }
    assert(size_parts(d + size_suffix(0).0) == Ok::<(Seq<char>, u64), Seq<char>>((d, 1)));
    assert(size_parts(d + size_suffix(1).0) == Ok::<(Seq<char>, u64), Seq<char>>((d, 1)));
    assert(size_parts(d + size_suffix(2).0) == Ok::<(Seq<char>, u64), Seq<char>>((d, 1024)));
    assert(size_parts(d + size_suffix(3).0) == Ok::<(Seq<char>, u64), Seq<char>>((d, 1024)));
    assert(size_parts(d + size_suffix(4).0) == Ok::<(Seq<char>, u64), Seq<char>>((d, 1048576)));
    assert(size_parts(d + size_suffix(5).0) == Ok::<(Seq<char>, u64), Seq<char>>((d, 1048576)));
    match parse_u64_spec(d) {
        Ok(v) => {
            assert(v * 1048576 == (v * 1024) * 1024) by (nonlinear_arith);
            assert((v * 1) * 1024 == v * 1024) by (nonlinear_arith);
            assert(v * 1 == v);
        },
        Err(_) => {},
    }
}

/// A decimal number alone counts mebibytes; followed by a unit suffix it
/// counts that unit: `MiB`/`M` x1, `GiB`/`G` x1024, `TiB`/`T` x1024*1024.
pub proof fn law_size_units(n: u64, k: int)
    requires
        0 <= k < 6,
    ensures
        parse_u64_spec(crate::num::decimal(n as nat)) == Ok::<u64, IntErrorKind>(n),
        size_parts(crate::num::decimal(n as nat)) == Ok::<(Seq<char>, u64), Seq<char>>(
            (crate::num::decimal(n as nat), 1),
        ),
        size_parts(crate::num::decimal(n as nat) + size_suffix(k).0) == Ok::<
            (Seq<char>, u64),
            Seq<char>,
        >((crate::num::decimal(n as nat), size_suffix(k).1)),
{
    crate::num::law_parse_decimal_roundtrip(n);
    crate::num::lemma_decimal_digits(n as nat);
    lemma_strip_digits(crate::num::decimal(n as nat), 0, 1);
    lemma_strip_digits_suffix(crate::num::decimal(n as nat), k, 0, 1);
}

} // verus!
