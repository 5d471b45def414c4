use vstd::prelude::*;

verus! {

/// An ASCII decimal digit.
pub open spec fn is_digit(c: char) -> bool {
    '0' <= c && c <= '9'
}

/// The numeric value of a decimal digit character.
pub open spec fn digit_value(c: char) -> nat {
    (c as int - '0' as int) as nat
}

/// Every character of `s` is a decimal digit.
pub open spec fn all_digits(s: Seq<char>) -> bool {
    forall|i: int| 0 <= i < s.len() ==> is_digit(#[trigger] s[i])
}

/// The number written by a string of decimal digits (most significant first).
pub open spec fn digits_value(s: Seq<char>) -> nat
    decreases s.len(),
{
    if s.len() == 0 {
        0
    } else {
        digits_value(s.drop_last()) * 10 + digit_value(s.last())
    }
}

/// The digits that an unsigned integer parse reads: a single leading `+` is skipped.
pub open spec fn unsigned_digits(s: Seq<char>) -> Seq<char> {
    if s.len() > 0 && s[0] == '+' {
        s.drop_first()
    } else {
        s
    }
}

/// How the standard library parses an unsigned integer no larger than `max`:
/// an optional `+`, then at least one decimal digit and nothing else, and the value fits.
pub open spec fn parse_unsigned(s: Seq<char>, max: nat) -> Option<nat> {
    let d = unsigned_digits(s);
    if d.len() > 0 && all_digits(d) && digits_value(d) <= max {
        Some(digits_value(d))
    } else {
        None
    }
}

/// The ASCII byte of the decimal digit `d`.
pub open spec fn digit_byte(d: nat) -> u8 {
    (d + 48) as u8
}

/// The shortest decimal rendering of `n`, as ASCII bytes.
pub open spec fn decimal_bytes(n: nat) -> Seq<u8>
    decreases n,
{
    if n < 10 {
        seq![digit_byte(n)]
    } else {
        decimal_bytes(n / 10).push(digit_byte(n % 10))
    }
}

/// The shortest decimal rendering of `n`, as characters.
pub open spec fn decimal_chars(n: nat) -> Seq<char> {
    decimal_bytes(n).map_values(|b: u8| b as char)
}

/// The rendering of `n` padded on the left with zeros to at least `width` digits.
pub open spec fn zero_padded(n: nat, width: nat) -> Seq<u8> {
    let d = decimal_bytes(n);
    if d.len() >= width {
        d
    } else {
        Seq::new((width - d.len()) as nat, |i: int| 48u8) + d
    }
}

/// A prefix of a string of digits writes no larger a number than the whole string.
pub proof fn lemma_digits_value_prefix(s: Seq<char>, k: int)
    requires
        all_digits(s),
        0 <= k <= s.len(),
    ensures
        digits_value(s.subrange(0, k)) <= digits_value(s),
    decreases s.len(),
{
    if k < s.len() {
        assert(s.drop_last() =~= s.subrange(0, s.len() - 1));
        assert(s.subrange(0, k) =~= s.drop_last().subrange(0, k));
        lemma_digits_value_prefix(s.drop_last(), k);
    } else {
        assert(s.subrange(0, k) =~= s);
    }
}

/// Every byte of a decimal rendering is an ASCII digit.
pub proof fn lemma_decimal_bytes_digits(n: nat)
    ensures
        decimal_bytes(n).len() >= 1,
        forall|i: int|
            0 <= i < decimal_bytes(n).len() ==> 48 <= #[trigger] decimal_bytes(n)[i] <= 57,
    decreases n,
{
    if n >= 10 {
        lemma_decimal_bytes_digits(n / 10);
    }
}

/// Reading back the decimal rendering of `n` gives `n`.
pub proof fn lemma_decimal_chars_value(n: nat)
    ensures
        decimal_chars(n).len() >= 1,
        all_digits(decimal_chars(n)),
        digits_value(decimal_chars(n)) == n,
        decimal_chars(n)[0] != '+',
        decimal_chars(n)[0] != '-',
    decreases n,
{
    lemma_decimal_bytes_digits(n);
    let d = decimal_chars(n);
    assert forall|i: int| 0 <= i < d.len() implies is_digit(#[trigger] d[i]) by {
        assert(48 <= decimal_bytes(n)[i] <= 57);
    }
    let last_byte: u8 = ((n % 10) + 48) as u8;
    assert((last_byte as char) as int == last_byte as int);
    assert(digit_value(last_byte as char) == n % 10);
    if n >= 10 {
        lemma_decimal_chars_value(n / 10);
        assert(d.drop_last() =~= decimal_chars(n / 10));
        assert(d.last() == last_byte as char);
        assert((n / 10) * 10 + n % 10 == n) by (nonlinear_arith);
        assert(digits_value(d) == digits_value(d.drop_last()) * 10 + digit_value(d.last()));
    } else {
        assert(d.last() == last_byte as char);
        assert(d.drop_last() =~= Seq::<char>::empty());
        assert(digits_value(d) == digits_value(d.drop_last()) * 10 + digit_value(d.last()));
    }
}

/// Ten to the power `k`.
pub open spec fn pow10(k: nat) -> nat
    decreases k,
{
    if k == 0 {
        1
    } else {
        10 * pow10((k - 1) as nat)
    }
}

/// A number below 10^k is written with at most `k` digits, and padding it to
/// `k` digits gives exactly `k` bytes.
pub proof fn lemma_decimal_width(n: nat, k: nat)
    requires
        k >= 1,
        n < pow10(k),
    ensures
        decimal_bytes(n).len() <= k,
        zero_padded(n, k).len() == k,
    decreases n,
{
    if n >= 10 {
        assert(k >= 2) by {
            if k == 1 {
                assert(pow10(1) == 10 * pow10(0));
            }
        }
        let k1 = (k - 1) as nat;
        assert(pow10(k) == 10 * pow10(k1));
        assert(n / 10 < pow10(k1)) by (nonlinear_arith)
            requires
                n < 10 * pow10(k1),
        ;
        lemma_decimal_width(n / 10, k1);
    }
}

/// Parses an unsigned decimal number in `s[from..to]` that must not exceed `max`,
/// as the standard library's `from_str` for unsigned integers does.
pub fn parse_unsigned_in(s: &Vec<char>, from: usize, to: usize, max: u64) -> (r: Option<u64>)
    requires
        from <= to <= s.len(),
    ensures
        match r {
            Some(v) => parse_unsigned(s@.subrange(from as int, to as int), max as nat) == Some(
                v as nat,
            ),
            None => parse_unsigned(s@.subrange(from as int, to as int), max as nat) is None,
        },
{
    let ghost whole = s@.subrange(from as int, to as int);
    let start: usize = if from < to && s[from] == '+' {
        from + 1
    } else {
        from
    };
    let ghost d = unsigned_digits(whole);
    assert(d =~= s@.subrange(start as int, to as int));
    if start == to {
        return None;
    }
    let mut i: usize = start;
    let mut acc: u64 = 0;
    while i < to
        invariant
            start <= i <= to <= s.len(),
            start < to,
            whole == s@.subrange(from as int, to as int),
            d == unsigned_digits(whole),
            d =~= s@.subrange(start as int, to as int),
            all_digits(s@.subrange(start as int, i as int)),
            acc as nat == digits_value(s@.subrange(start as int, i as int)),
            acc <= max,
        decreases to - i,
    {
        let c = s[i];
        if !('0' <= c && c <= '9') {
            assert(d[i - start] == c);
            return None;
        }
        let dig: u64 = (c as u32 - '0' as u32) as u64;
        let ghost next = s@.subrange(start as int, i + 1);
        assert(next.drop_last() =~= s@.subrange(start as int, i as int));
        assert(all_digits(next)) by {
            assert forall|j: int| 0 <= j < next.len() implies is_digit(#[trigger] next[j]) by {
                if j < next.len() - 1 {
                    assert(next[j] == s@.subrange(start as int, i as int)[j]);
                }
            }
        }
        let grown = match acc.checked_mul(10) {
            Some(t) => t.checked_add(dig),
            None => None,
        };
        let ok = match grown {
            Some(g) => g <= max,
            None => false,
        };
        if !ok {
            proof {
                if all_digits(d) {
                    assert(next =~= d.subrange(0, i + 1 - start));
                    lemma_digits_value_prefix(d, i + 1 - start);
                }
            }
            return None;
        }
        acc = match grown {
            Some(g) => g,
            None => 0,
        };
        i = i + 1;
    }
    assert(s@.subrange(start as int, i as int) =~= d);
    Some(acc)
}

/// Appends the shortest decimal rendering of `n` to `out`.
pub fn push_decimal(out: &mut Vec<u8>, n: u64)
    ensures
        final(out)@ == old(out)@ + decimal_bytes(n as nat),
    decreases n,
{
    if n >= 10 {
        push_decimal(out, n / 10);
    }
    let d: u8 = (n % 10) as u8;
    out.push(d + 48);
    proof {
        assert(decimal_bytes(n as nat) =~= if n < 10 {
            seq![digit_byte(n as nat)]
        } else {
            decimal_bytes((n / 10) as nat).push(digit_byte((n % 10) as nat))
        });
    }
}

/// Appends `n` in decimal, padded with leading zeros to at least `width` digits.
pub fn push_zero_padded(out: &mut Vec<u8>, n: u64, width: usize)
    ensures
        final(out)@ == old(out)@ + zero_padded(n as nat, width as nat),
{
    let mut digits: Vec<u8> = Vec::new();
    push_decimal(&mut digits, n);
    assert(digits@ =~= decimal_bytes(n as nat));
    let mut pad: usize = 0;
    if digits.len() < width {
        pad = width - digits.len();
    }
    let ghost start = out@;
    let mut i: usize = 0;
    while i < pad
        invariant
            i <= pad,
            out@ =~= start + Seq::new(i as nat, |k: int| 48u8),
        decreases pad - i,
    {
        out.push(48u8);
        i = i + 1;
    }
    let ghost mid = out@;
    let mut j: usize = 0;
    while j < digits.len()
        invariant
            j <= digits.len(),
            out@ =~= mid + digits@.subrange(0, j as int),
        decreases digits.len() - j,
    {
        out.push(digits[j]);
        j = j + 1;
    }
    assert(digits@.subrange(0, j as int) =~= digits@);
}

/// The characters "0" to "9" as string slices.
fn digit_str(d: u64) -> (s: &'static str)
    requires
        d < 10,
    ensures
        s@ == seq![(d + 48) as u8 as char],
{
    proof {
        reveal_strlit("0");
        reveal_strlit("1");
        reveal_strlit("2");
        reveal_strlit("3");
        reveal_strlit("4");
        reveal_strlit("5");
        reveal_strlit("6");
        reveal_strlit("7");
        reveal_strlit("8");
        reveal_strlit("9");
    }
    if d == 0 {
        "0"
    } else if d == 1 {
        "1"
    } else if d == 2 {
        "2"
    } else if d == 3 {
        "3"
    } else if d == 4 {
        "4"
    } else if d == 5 {
        "5"
    } else if d == 6 {
        "6"
    } else if d == 7 {
        "7"
    } else if d == 8 {
        "8"
    } else {
        "9"
    }
}

/// Appends the shortest decimal rendering of `n` to a string.
pub fn append_decimal(s: &mut String, n: u64)
    ensures
        final(s)@ == old(s)@ + decimal_chars(n as nat),
    decreases n,
{
    if n >= 10 {
        append_decimal(s, n / 10);
    }
    s.append(digit_str(n % 10));
    proof {
        let b = decimal_bytes(n as nat);
        if n >= 10 {
            assert(b =~= decimal_bytes((n / 10) as nat).push(digit_byte((n % 10) as nat)));
        }
        assert(decimal_chars(n as nat) =~= if n < 10 {
            seq![((n % 10) + 48) as u8 as char]
        } else {
            decimal_chars((n / 10) as nat).push(((n % 10) + 48) as u8 as char)
        });
    }
}

} // verus!
