use vstd::prelude::*;

verus! {

/// The ASCII digit for a value in 0..=9.
pub open spec fn digit_byte(d: int) -> u8 {
    (48 + d) as u8
}

/// The ASCII decimal digits of a non-negative number, most significant
/// first, with no leading zero except for the number 0 itself.
pub open spec fn decimal_digits(n: nat) -> Seq<u8>
    decreases n,
{
    if n < 10 {
        seq![digit_byte(n as int)]
    } else {
        decimal_digits(n / 10).push(digit_byte((n % 10) as int))
    }
}

/// The ASCII decimal representation of an integer: a leading minus sign for
/// negative values, then the digits of its magnitude.
pub open spec fn decimal_of(v: int) -> Seq<u8> {
    if v < 0 {
        seq![45u8] + decimal_digits((-v) as nat)
    } else {
        decimal_digits(v as nat)
    }
}

/// The text an `Output` instruction sends to the output channel (without the
/// line terminator): the cell value's decimal representation, in ASCII.
pub fn decimal_bytes(v: i8) -> (out: Vec<u8>)
    ensures
        out@ == decimal_of(v as int),
{
    let mag: u16 = if v < 0 {
        (-(v as i16)) as u16
    } else {
        v as u16
    };
    let d2: u16 = mag / 100;
    let d1: u16 = (mag / 10) % 10;
    let d0: u16 = mag % 10;
    let mut out: Vec<u8> = Vec::new();
    if v < 0 {
        out.push(45);
    }
    if d2 > 0 {
        out.push((48 + d2) as u8);
    }
    if d2 > 0 || d1 > 0 {
        out.push((48 + d1) as u8);
    }
    out.push((48 + d0) as u8);
    proof {
        let m = mag as nat;
        vstd::arithmetic::div_mod::lemma_div_denominator(m as int, 10, 10);
        assert((m / 10) / 10 == m / 100);
        if m >= 100 {
            assert(decimal_digits(m / 100) == seq![digit_byte((m / 100) as int)]);
            assert(decimal_digits(m / 10) == seq![
                digit_byte((m / 100) as int),
                digit_byte(((m / 10) % 10) as int),
            ]);
        } else if m >= 10 {
            assert(decimal_digits(m / 10) == seq![digit_byte((m / 10) as int)]);
        }
        assert(out@ =~= decimal_of(v as int));
    }
    out
}

/// A byte that is an ASCII decimal digit.
pub open spec fn is_digit(b: u8) -> bool {
    48 <= b && b <= 57
}

/// Every byte of the sequence is an ASCII digit.
pub open spec fn all_digits(s: Seq<u8>) -> bool {
    forall|i: int| 0 <= i < s.len() ==> is_digit(#[trigger] s[i])
}

/// The number an ASCII digit string denotes, most significant digit first.
pub open spec fn digits_val(s: Seq<u8>) -> int
    decreases s.len(),
{
    if s.len() == 0 {
        0
    } else {
        digits_val(s.drop_last()) * 10 + (s.last() - 48)
    }
}

/// Which cell value a byte string denotes: an optional `+` or `-` sign, then
/// at least one ASCII digit, denoting a value within the 8-bit range; `None`
/// for anything else.
pub open spec fn parse_spec(s: Seq<u8>) -> Option<i8> {
    let digits = if s.len() > 0 && (s[0] == 43 || s[0] == 45) {
        s.drop_first()
    } else {
        s
    };
    let negative = s.len() > 0 && s[0] == 45;
    if digits.len() == 0 || !all_digits(digits) {
        None
    } else {
        let v = if negative {
            -digits_val(digits)
        } else {
            digits_val(digits)
        };
        if -128 <= v && v <= 127 {
            Some(v as i8)
        } else {
            None
        }
    }
}

/// Reads a cell value from the bytes of one (already trimmed) input line, as
/// the `Input` instruction calls for: `None` is the malformed-input condition.
#[verifier::loop_isolation(false)]
pub fn parse_cell(s: &[u8]) -> (r: Option<i8>)
    ensures
        r == parse_spec(s@),
{
    let negative: bool = s.len() > 0 && s[0] == 45;
    let start: usize = if s.len() > 0 && (s[0] == 43 || s[0] == 45) {
        1
    } else {
        0
    };
    if s.len() == start {
        return None;
    }
    let ghost digits = if start == 1 {
        s@.drop_first()
    } else {
        s@
    };
    let mut acc: i32 = 0;
    let mut i: usize = start;
    while i < s.len()
        invariant
            start <= i <= s@.len(),
            start <= 1,
            digits == if start == 1 {
                s@.drop_first()
            } else {
                s@
            },
            all_digits(s@.subrange(start as int, i as int)),
            0 <= digits_val(s@.subrange(start as int, i as int)),
            0 <= acc <= 3009,
            digits_val(s@.subrange(start as int, i as int)) <= 128 ==> acc == digits_val(
                s@.subrange(start as int, i as int),
            ),
            digits_val(s@.subrange(start as int, i as int)) > 128 ==> acc > 128,
        decreases s@.len() - i,
    {
        let ghost seg = s@.subrange(start as int, i as int);
        let b = s[i];
        if b < 48 || b > 57 {
            proof {
                if start == 1 {
                    assert(digits[i - 1] == s@[i as int]);
                } else {
                    assert(digits[i as int] == s@[i as int]);
                }
                assert(!all_digits(digits));
            }
            return None;
        }
        if acc <= 300 {
            acc = acc * 10 + ((b - 48) as i32);
        }
        i = i + 1;
        proof {
            let seg1 = s@.subrange(start as int, i as int);
            assert(seg1.drop_last() =~= seg);
            assert(seg1.last() == b);
            assert(digits_val(seg1) == digits_val(seg) * 10 + (b - 48));
            assert(all_digits(seg1));
        }
    }
    proof {
        assert(s@.subrange(start as int, s@.len() as int) =~= digits);
    }
    if negative {
        if acc <= 128 {
            Some((-acc) as i8)
        } else {
            None
        }
    } else {
        if acc <= 127 {
            Some(acc as i8)
        } else {
            None
        }
    }
}

proof fn lemma_digits_val_of_decimal(n: nat)
    ensures
        decimal_digits(n).len() >= 1,
        all_digits(decimal_digits(n)),
        digits_val(decimal_digits(n)) == n,
    decreases n,
{
    let s = decimal_digits(n);
    if n < 10 {
        assert(s.drop_last() =~= Seq::<u8>::empty());
        assert(digits_val(Seq::<u8>::empty()) == 0);
    } else {
        lemma_digits_val_of_decimal(n / 10);
        assert(s.drop_last() =~= decimal_digits(n / 10));
        assert(s.last() == digit_byte((n % 10) as int));
        assert forall|i: int| 0 <= i < s.len() implies is_digit(#[trigger] s[i]) by {
            if i < s.len() - 1 {
                assert(s[i] == decimal_digits(n / 10)[i]);
            }
        }
    }
}

/// Rendering a cell value as decimal text and reading that text back as an
/// input line yields exactly the value that was rendered.
pub proof fn lemma_decimal_round_trip(v: i8)
    ensures
        parse_spec(decimal_of(v as int)) == Some(v),
{
    let s = decimal_of(v as int);
    if v >= 0 {
        lemma_digits_val_of_decimal(v as nat);
        assert(is_digit(s[0]));
    } else {
        let m = -(v as int);
        lemma_digits_val_of_decimal(m as nat);
        assert(s[0] == 45);
        assert(s.drop_first() =~= decimal_digits(m as nat));
    }
}

} // verus!
