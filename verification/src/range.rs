use crate::decimal::{
    all_digits, append_decimal, decimal_chars, digits_value, lemma_decimal_chars_value,
    parse_unsigned, parse_unsigned_in, unsigned_digits,
};
use crate::external::random_usize_inclusive;
use crate::textutil::chars_of;
use rand_chacha::ChaCha8Rng;
use vstd::prelude::*;

verus! {

/// A count given on the command line: one exact value, or an inclusive range.
#[derive(Clone, Copy, Debug)]
pub enum RangeOrExact {
    Exact(usize),
    Range(usize, usize),
}

/// `k` is the position of the first occurrence of `c` in `s`.
pub open spec fn first_occurrence(s: Seq<char>, c: char, k: int) -> bool {
    &&& 0 <= k < s.len()
    &&& s[k] == c
    &&& forall|j: int| 0 <= j < k ==> s[j] != c
}

/// The value of a command-line count, as `str::parse::<usize>` reads it.
pub open spec fn count_value(s: Seq<char>) -> Option<nat> {
    parse_unsigned(s, usize::MAX as nat)
}

/// What parsing `s` gives: a range when `s` holds a `-` (split at the first one),
/// an exact value otherwise; the error text names the part that failed.
pub open spec fn parse_outcome(s: Seq<char>) -> Result<RangeOrExact, Seq<char>> {
    if s.contains('-') {
        let k = choose|k: int| first_occurrence(s, '-', k);
        let lo = s.subrange(0, k);
        let hi = s.subrange(k + 1, s.len() as int);
        match count_value(lo) {
            None => Err("Invalid min value: "@ + lo),
            Some(min) => match count_value(hi) {
                None => Err("Invalid max value: "@ + hi),
                Some(max) => if min > max {
                    Err(
                        "Min value "@ + decimal_chars(min) + " is greater than max value "@
                            + decimal_chars(max),
                    )
                } else {
                    Ok(RangeOrExact::Range(min as usize, max as usize))
                },
            },
        }
    } else {
        match count_value(s) {
            None => Err("Invalid value: "@ + s),
            Some(v) => Ok(RangeOrExact::Exact(v as usize)),
        }
    }
}

/// A range whose bounds are in order; an exact value always is.
pub open spec fn well_ordered(r: RangeOrExact) -> bool {
    match r {
        RangeOrExact::Exact(_) => true,
        RangeOrExact::Range(min, max) => min <= max,
    }
}

/// `v` is a value that resolving `r` may give.
pub open spec fn resolves_to(r: RangeOrExact, v: usize) -> bool {
    match r {
        RangeOrExact::Exact(x) => v == x,
        RangeOrExact::Range(min, max) => min <= v <= max,
    }
}

proof fn lemma_first_occurrence_unique(s: Seq<char>, c: char, k1: int, k2: int)
    requires
        first_occurrence(s, c, k1),
        first_occurrence(s, c, k2),
    ensures
        k1 == k2,
{
}

/// Finds the first `-` in `cs`, if any.
fn find_dash(cs: &Vec<char>) -> (r: Option<usize>)
    ensures
        match r {
            Some(k) => first_occurrence(cs@, '-', k as int),
            None => !cs@.contains('-'),
        },
{
    let mut i: usize = 0;
    while i < cs.len()
        invariant
            i <= cs.len(),
            forall|j: int| 0 <= j < i ==> cs@[j] != '-',
        decreases cs.len() - i,
    {
        if cs[i] == '-' {
            return Some(i);
        }
        i = i + 1;
    }
    None
}

/// Parses a count within `cs[from..to]` as `usize`.
fn parse_count(cs: &Vec<char>, from: usize, to: usize) -> (r: Option<usize>)
    requires
        from <= to <= cs.len(),
    ensures
        match r {
            Some(v) => count_value(cs@.subrange(from as int, to as int)) == Some(v as nat),
            None => count_value(cs@.subrange(from as int, to as int)) is None,
        },
{
    match parse_unsigned_in(cs, from, to, usize::MAX as u64) {
        Some(v) => Some(v as usize),
        None => None,
    }
}

/// Builds a string from a literal followed by a copy of `tail`.
fn message_with(prefix: &str, tail: &str) -> (m: String)
    ensures
        m@ == prefix@ + tail@,
{
    let mut m = String::from_str(prefix);
    m.append(tail);
    m
}

impl RangeOrExact {
    /// Parses a command line value as exact or range.
    ///
    /// # Errors
    /// Returns a string describing the parse error if formatting is invalid.
    pub fn parse(s: &str) -> (r: Result<RangeOrExact, String>)
        ensures
            match r {
                Ok(v) => parse_outcome(s@) == Ok::<RangeOrExact, Seq<char>>(v),
                Err(e) => parse_outcome(s@) == Err::<RangeOrExact, Seq<char>>(e@),
            },
            r matches Ok(v) ==> well_ordered(v),
    {
        let cs = chars_of(s);
        let n = cs.len();
        match find_dash(&cs) {
            Some(k) => {
                proof {
                    assert(s@.contains('-')) by {
                        assert(s@[k as int] == '-');
                    }
                    let kk = choose|kk: int| first_occurrence(s@, '-', kk);
                    lemma_first_occurrence_unique(s@, '-', kk, k as int);
                }
                match parse_count(&cs, 0, k) {
                    None => Err(message_with("Invalid min value: ", s.substring_char(0, k))),
                    Some(min) => match parse_count(&cs, k + 1, n) {
                        None => Err(
                            message_with("Invalid max value: ", s.substring_char(k + 1, n)),
                        ),
                        Some(max) => {
                            if min > max {
                                let mut m = String::from_str("Min value ");
                                append_decimal(&mut m, min as u64);
                                m.append(" is greater than max value ");
                                append_decimal(&mut m, max as u64);
                                Err(m)
                            } else {
                                Ok(RangeOrExact::Range(min, max))
                            }
                        },
                    },
                }
            },
            None => match parse_count(&cs, 0, n) {
                None => {
                    assert(cs@.subrange(0, n as int) =~= s@);
                    Err(message_with("Invalid value: ", s))
                },
                Some(v) => {
                    assert(cs@.subrange(0, n as int) =~= s@);
                    Ok(RangeOrExact::Exact(v))
                },
            },
        }
    }

    /// Picks the count: the exact value, or a random value within the range.
    pub fn resolve(self, rng: &mut ChaCha8Rng) -> (v: usize)
        requires
            well_ordered(self),
        ensures
            resolves_to(self, v),
            self is Exact ==> *final(rng) == *old(rng),
    {
        match self {
            RangeOrExact::Exact(val) => val,
            RangeOrExact::Range(min, max) => random_usize_inclusive(rng, min, max),
        }
    }
}

/// Reading back the decimal rendering of a count gives that exact count.
pub proof fn lemma_parse_exact_roundtrip(n: usize)
    ensures
        parse_outcome(decimal_chars(n as nat)) == Ok::<RangeOrExact, Seq<char>>(
            RangeOrExact::Exact(n),
        ),
{
    let d = decimal_chars(n as nat);
    lemma_decimal_chars_value(n as nat);
    assert(!d.contains('-')) by {
        if d.contains('-') {
            let i = choose|i: int| 0 <= i < d.len() && d[i] == '-';
            assert(all_digits(d));
            assert(crate::decimal::is_digit(d[i]));
        }
    }
    assert(unsigned_digits(d) == d);
}

/// Reading back "min-max", both written in decimal, gives that range when
/// `min <= max`, and otherwise the error that names both bounds.
pub proof fn lemma_parse_range_roundtrip(min: usize, max: usize)
    ensures
        parse_outcome(decimal_chars(min as nat) + seq!['-'] + decimal_chars(max as nat)) == if min
            <= max {
            Ok::<RangeOrExact, Seq<char>>(RangeOrExact::Range(min, max))
        } else {
            Err::<RangeOrExact, Seq<char>>(
                "Min value "@ + decimal_chars(min as nat) + " is greater than max value "@
                    + decimal_chars(max as nat),
            )
        },
{
    let a = decimal_chars(min as nat);
    let b = decimal_chars(max as nat);
    let s = a + seq!['-'] + b;
    lemma_decimal_chars_value(min as nat);
    lemma_decimal_chars_value(max as nat);
    let k = a.len() as int;
    assert(first_occurrence(s, '-', k)) by {
        assert forall|j: int| 0 <= j < k implies s[j] != '-' by {
            assert(s[j] == a[j]);
            assert(crate::decimal::is_digit(a[j]));
        }
    }
    assert(s.contains('-')) by {
        assert(s[k] == '-');
    }
    let kk = choose|kk: int| first_occurrence(s, '-', kk);
    lemma_first_occurrence_unique(s, '-', kk, k);
    assert(s.subrange(0, k) =~= a);
    assert(s.subrange(k + 1, s.len() as int) =~= b);
    assert(unsigned_digits(a) == a);
    assert(unsigned_digits(b) == b);
}

} // verus!
