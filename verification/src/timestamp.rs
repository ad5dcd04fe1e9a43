use vstd::prelude::*;

verus! {

/// A log timestamp at hour resolution.
///
/// The minute, second and UTC-offset fields of the log's bracketed
/// timestamp are deliberately not retained: the hour is taken as it
/// stands in the log (local time), with no offset correction.
#[derive(Clone, Copy, PartialEq, Eq, Structural, Debug)]
pub struct Dt {
    pub year: u16,
    pub month: u8,
    pub day: u8,
    pub hour: u8,
}

/// Chronological (lexicographic) order on timestamps.
pub open spec fn dt_le(a: Dt, b: Dt) -> bool {
    if a.year != b.year {
        a.year < b.year
    } else if a.month != b.month {
        a.month < b.month
    } else if a.day != b.day {
        a.day < b.day
    } else {
        a.hour <= b.hour
    }
}

pub proof fn lemma_dt_le_trans(a: Dt, b: Dt, c: Dt)
    requires
        dt_le(a, b),
        dt_le(b, c),
    ensures
        dt_le(a, c),
{
}

pub open spec fn is_digit(c: char) -> bool {
    48 <= c as int && c as int <= 57
}

pub open spec fn digit_val(c: char) -> int {
    c as int - 48
}

pub open spec fn all_digits(s: Seq<char>) -> bool {
    forall|i: int| 0 <= i < s.len() ==> is_digit(#[trigger] s[i])
}

/// Value of a sequence of decimal digit characters.
pub open spec fn dec_uint(s: Seq<char>) -> int
    decreases s.len(),
{
    if s.len() == 0 {
        0
    } else {
        dec_uint(s.drop_last()) * 10 + digit_val(s.last())
    }
}

/// Whether `s` parses as an unsigned decimal integer: at least one
/// digit, all digits, allowing one leading `+` sign.
pub open spec fn valid_uint(s: Seq<char>) -> bool {
    if s.len() > 0 && s[0] == '+' {
        s.len() >= 2 && all_digits(s.skip(1))
    } else {
        s.len() >= 1 && all_digits(s)
    }
}

/// The integer value of a sequence accepted by `valid_uint`.
pub open spec fn uint_val(s: Seq<char>) -> int {
    if s.len() > 0 && s[0] == '+' {
        dec_uint(s.skip(1))
    } else {
        dec_uint(s)
    }
}

pub open spec fn pow10(n: nat) -> int
    decreases n,
{
    if n == 0 {
        1
    } else {
        10 * pow10((n - 1) as nat)
    }
}

pub proof fn lemma_dec_uint_bound(s: Seq<char>)
    requires
        all_digits(s),
    ensures
        0 <= dec_uint(s) < pow10(s.len()),
    decreases s.len(),
{
    if s.len() > 0 {
        assert(all_digits(s.drop_last())) by {
            assert(forall|i: int|
                0 <= i < s.drop_last().len() ==> #[trigger] s.drop_last()[i] == s[i]);
        }
        lemma_dec_uint_bound(s.drop_last());
        assert(is_digit(s.last()));
    }
}

pub proof fn lemma_uint_val_bound(s: Seq<char>)
    requires
        valid_uint(s),
    ensures
        0 <= uint_val(s) < pow10(s.len()),
    decreases s.len(),
{
    if s.len() > 0 && s[0] == '+' {
        lemma_dec_uint_bound(s.skip(1));
        assert(pow10((s.len() - 1) as nat) <= pow10(s.len())) by {
            lemma_pow10_pos((s.len() - 1) as nat);
        }
    } else {
        lemma_dec_uint_bound(s);
    }
}

pub proof fn lemma_pow10_pos(n: nat)
    ensures
        pow10(n) >= 1,
    decreases n,
{
    if n > 0 {
        lemma_pow10_pos((n - 1) as nat);
    }
}

/// Parses the characters `from..to` of `s` as an unsigned decimal
/// integer, in the way the event log's fixed-width timestamp fields
/// are read: at most four characters, optional leading `+`.
fn parse_uint_range(s: &str, from: usize, to: usize) -> (r: Option<u16>)
    requires
        from <= to && to <= s@.len(),
        to - from <= 4,
    ensures
        r is Some <==> valid_uint(s@.subrange(from as int, to as int)),
        r is Some ==> r->0 as int == uint_val(s@.subrange(from as int, to as int)),
{
    let ghost tok = s@.subrange(from as int, to as int);
    if from == to {
        return None;
    }
    let first = s.get_char(from);
    let ghost has_sign = first == '+';
    let start = if first == '+' {
        from + 1
    } else {
        from
    };
    proof {
        assert(tok[0] == s@[from as int]);
    }
    if start == to {
        // a bare `+` is not a number
        assert(!valid_uint(tok));
        return None;
    }
    let ghost digits = s@.subrange(start as int, to as int);
    let mut i = start;
    let mut val: u16 = 0;
    while i < to
        invariant
            from <= start <= i <= to,
            to <= s@.len(),
            to - from <= 4,
            start <= from + 1,
            tok == s@.subrange(from as int, to as int),
            tok.len() > 0,
            has_sign == (tok[0] == '+'),
            start == if has_sign { from + 1 as int } else { from as int },
            digits == s@.subrange(start as int, to as int),
            all_digits(s@.subrange(start as int, i as int)),
            val as int == dec_uint(s@.subrange(start as int, i as int)),
            val < 10000,
        decreases to - i,
    {
        let c = s.get_char(i);
        let cv = c as u32;
        if cv < 48 || cv > 57 {
            proof {
                assert(!is_digit(s@[i as int]));
                assert(digits[i - start] == s@[i as int]);
                if has_sign {
                    assert(tok[0] == '+');
                    assert(tok.skip(1) =~= digits);
                } else {
                    assert(tok =~= digits);
                    assert(tok[i - from] == s@[i as int]);
                }
                assert(!valid_uint(tok));
            }
            return None;
        }
        proof {
            let pre = s@.subrange(start as int, i as int);
            let post = s@.subrange(start as int, i + 1 as int);
            assert(post.drop_last() =~= pre);
            assert(post.last() == s@[i as int]);
            assert(is_digit(s@[i as int]));
            assert(all_digits(post));
            lemma_dec_uint_bound(pre);
            assert(pre.len() <= 3);
            assert(pow10(pre.len()) <= 1000) by {
                reveal_with_fuel(pow10, 5);
                if pre.len() == 0 {
                } else if pre.len() == 1 {
                } else if pre.len() == 2 {
                } else {
                    assert(pre.len() == 3);
                }
            }
        }
        val = val * 10 + ((cv - 48) as u16);
        i += 1;
    }
    proof {
        assert(s@.subrange(start as int, i as int) =~= digits);
        if has_sign {
            assert(tok[0] == '+');
            assert(tok.skip(1) =~= digits);
            assert(valid_uint(tok));
            assert(uint_val(tok) == dec_uint(digits));
        } else {
            assert(tok =~= digits);
            assert(tok.len() >= 1);
            if tok.len() > 0 && tok[0] == '+' {
                assert(is_digit(digits[0]));
                assert(false);
            }
            assert(valid_uint(tok));
            assert(uint_val(tok) == dec_uint(digits));
        }
    }
    Some(val)
}

/// Whether a token has the shape of a bracketed log timestamp:
/// long enough, with integer fields at the four fixed positions
/// (year 1..5, month 6..8, day 9..11, hour 12..14).
pub open spec fn valid_dt_token(s: Seq<char>) -> bool {
    &&& s.len() >= 14
    &&& valid_uint(s.subrange(1, 5))
    &&& valid_uint(s.subrange(6, 8))
    &&& valid_uint(s.subrange(9, 11))
    &&& valid_uint(s.subrange(12, 14))
}

/// The timestamp read from a token accepted by `valid_dt_token`.
pub open spec fn dt_of_token(s: Seq<char>) -> Dt {
    Dt {
        year: uint_val(s.subrange(1, 5)) as u16,
        month: uint_val(s.subrange(6, 8)) as u8,
        day: uint_val(s.subrange(9, 11)) as u8,
        hour: uint_val(s.subrange(12, 14)) as u8,
    }
}

/// Reads the fixed-offset fields of a token of shape
/// `[YYYY-MM-DDThh:mm:ss+ZZZZ]`: year from characters 1..5, month
/// 6..8, day 9..11 and hour 12..14.  Returns nothing if the token is
/// too short or any field is not an integer; the trailing UTC offset
/// is ignored, the hour is kept as written.
pub fn parse_dt(s: &str) -> (r: Option<Dt>)
    ensures
        r is Some <==> valid_dt_token(s@),
        r is Some ==> r->0 == dt_of_token(s@),
{
    let n = s.unicode_len();
    if n < 14 {
        return None;
    }
    let year = match parse_uint_range(s, 1, 5) {
        Some(v) => v,
        None => {
            return None;
        },
    };
    let month = match parse_uint_range(s, 6, 8) {
        Some(v) => v,
        None => {
            return None;
        },
    };
    let day = match parse_uint_range(s, 9, 11) {
        Some(v) => v,
        None => {
            return None;
        },
    };
    let hour = match parse_uint_range(s, 12, 14) {
        Some(v) => v,
        None => {
            return None;
        },
    };
    proof {
        lemma_uint_val_bound(s@.subrange(6, 8));
        lemma_uint_val_bound(s@.subrange(9, 11));
        lemma_uint_val_bound(s@.subrange(12, 14));
        reveal_with_fuel(pow10, 3);
    }
    Some(Dt { year, month: month as u8, day: day as u8, hour: hour as u8 })
}

} // verus!
