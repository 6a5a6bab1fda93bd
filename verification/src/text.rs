//! Verified text building blocks: decimal rendering of integers, joining
//! with a separator, and trusted wrappers for Unicode case folding.

use vstd::prelude::*;

verus! {

/// What `str::to_uppercase` returns; a function of the characters alone.
pub uninterp spec fn upper_of(s: Seq<char>) -> Seq<char>;

/// What `str::to_lowercase` returns; a function of the characters alone.
pub uninterp spec fn lower_of(s: Seq<char>) -> Seq<char>;

/// Relies on str::to_uppercase: the uppercase mapping of the characters,
/// which depends on nothing but the input; empty input gives empty output.
#[verifier::external_body]
pub fn to_upper(s: &str) -> (r: String)
    ensures
        r@ == upper_of(s@),
        s@.len() == 0 ==> r@.len() == 0,
{
    s.to_uppercase()
}

/// Relies on str::to_lowercase: the lowercase mapping of the characters,
/// which depends on nothing but the input; empty input gives empty output.
#[verifier::external_body]
pub fn to_lower(s: &str) -> (r: String)
    ensures
        r@ == lower_of(s@),
        s@.len() == 0 ==> r@.len() == 0,
{
    s.to_lowercase()
}

/// Ten raised to the given power.
pub open spec fn spec_pow10(e: nat) -> nat
    decreases e,
{
    if e == 0 {
        1
    } else {
        10 * spec_pow10((e - 1) as nat)
    }
}

/// The character of a decimal digit.
pub open spec fn spec_digit_char(d: nat) -> char {
    if d == 0 {
        '0'
    } else if d == 1 {
        '1'
    } else if d == 2 {
        '2'
    } else if d == 3 {
        '3'
    } else if d == 4 {
        '4'
    } else if d == 5 {
        '5'
    } else if d == 6 {
        '6'
    } else if d == 7 {
        '7'
    } else if d == 8 {
        '8'
    } else {
        '9'
    }
}

/// Whether a character is a decimal digit.
pub open spec fn spec_is_digit(c: char) -> bool {
    ||| c == '0'
    ||| c == '1'
    ||| c == '2'
    ||| c == '3'
    ||| c == '4'
    ||| c == '5'
    ||| c == '6'
    ||| c == '7'
    ||| c == '8'
    ||| c == '9'
}

/// The decimal representation of a number, most significant digit first.
pub open spec fn spec_decimal(n: nat) -> Seq<char>
    decreases n,
{
    if n < 10 {
        seq![spec_digit_char(n)]
    } else {
        spec_decimal(n / 10).push(spec_digit_char(n % 10))
    }
}

/// The one-character string of a decimal digit.
fn digit_str(d: u8) -> (r: &'static str)
    requires
        d < 10,
    ensures
        r@ =~= seq![spec_digit_char(d as nat)],
{
    proof {
        reveal_strlit("0");
        reveal_strlit("1");
        reveal_strlit("2");
        reveal_strlit("3");
        reveal_strlit("4");
        reveal_strlit("5");
        reveal_strlit("6");
        reveal_strlit("7");
        reveal_strlit("8");
        reveal_strlit("9");
    }
    match d {
        0 => "0",
        1 => "1",
        2 => "2",
        3 => "3",
        4 => "4",
        5 => "5",
        6 => "6",
        7 => "7",
        8 => "8",
        _ => "9",
    }
}

/// The decimal string of a number.
pub fn u64_to_string(n: u64) -> (r: String)
    ensures
        r@ == spec_decimal(n as nat),
    decreases n,
{
    if n < 10 {
        let r = String::from_str(digit_str(n as u8));
        proof {
            assert(r@ =~= spec_decimal(n as nat));
        }
        r
    } else {
        let front = u64_to_string(n / 10);
        let r = front.concat(digit_str((n % 10) as u8));
        proof {
            assert(r@ =~= spec_decimal(n as nat));
        }
        r
    }
}

/// Ten raised to the given power, as a machine integer.
pub fn pow10_u64(e: u32) -> (r: u64)
    requires
        e <= 19,
    ensures
        r == spec_pow10(e as nat),
{
    proof {
        lemma_pow10_19();
    }
    let mut acc: u64 = 1;
    let mut i: u32 = 0;
    while i < e
        invariant
            i <= e <= 19,
            acc == spec_pow10(i as nat),
        decreases e - i,
    {
        proof {
            lemma_pow10_19();
            assert(spec_pow10(i as nat + 1) == 10 * spec_pow10(i as nat));
            lemma_pow10_increases(i as nat + 1, 19);
        }
        acc = acc * 10;
        i = i + 1;
    }
    acc
}

/// Ten to the nineteenth still fits a `u64`; ten to the twentieth does not.
pub proof fn lemma_pow10_19()
    ensures
        spec_pow10(19) == 10_000_000_000_000_000_000,
        spec_pow10(20) == 100_000_000_000_000_000_000,
{
    reveal_with_fuel(spec_pow10, 21);
}

/// Powers of ten do not decrease with the exponent.
pub proof fn lemma_pow10_increases(a: nat, b: nat)
    requires
        a <= b,
    ensures
        spec_pow10(a) <= spec_pow10(b),
    decreases b,
{
    if a < b {
        lemma_pow10_increases(a, (b - 1) as nat);
        assert(spec_pow10(b) == 10 * spec_pow10((b - 1) as nat));
    }
}

/// A power of ten is positive.
pub proof fn lemma_pow10_pos(e: nat)
    ensures
        spec_pow10(e) >= 1,
    decreases e,
{
    if e > 0 {
        lemma_pow10_pos((e - 1) as nat);
    }
}

/// A number's decimal representation has exactly `k` digits when the number
/// lies between ten to the `k - 1` and ten to the `k`.
pub proof fn lemma_decimal_len(n: nat, k: nat)
    requires
        k >= 1,
        spec_pow10((k - 1) as nat) <= n < spec_pow10(k),
    ensures
        spec_decimal(n).len() == k,
    decreases k,
{
    if k == 1 {
        assert(n < 10);
    } else {
        assert(spec_pow10((k - 1) as nat) == 10 * spec_pow10((k - 2) as nat));
        assert(spec_pow10(k) == 10 * spec_pow10((k - 1) as nat));
        lemma_pow10_pos((k - 2) as nat);
        assert(n >= 10);
        assert(n / 10 >= spec_pow10((k - 2) as nat)) by (nonlinear_arith)
            requires
                n >= 10 * spec_pow10((k - 2) as nat),
        ;
        assert(n / 10 < spec_pow10((k - 1) as nat)) by (nonlinear_arith)
            requires
                n < 10 * spec_pow10((k - 1) as nat),
        ;
        lemma_decimal_len(n / 10, (k - 1) as nat);
    }
}

/// Every character of a decimal representation is a digit.
pub proof fn lemma_decimal_digits(n: nat)
    ensures
        forall|i: int|
            0 <= i < spec_decimal(n).len() ==> spec_is_digit(#[trigger] spec_decimal(n)[i]),
    decreases n,
{
    if n < 10 {
        assert(spec_decimal(n) =~= seq![spec_digit_char(n)]);
        assert(spec_is_digit(spec_digit_char(n)));
    } else {
        lemma_decimal_digits(n / 10);
        assert(spec_decimal(n) =~= spec_decimal(n / 10).push(spec_digit_char(n % 10)));
        assert(spec_is_digit(spec_digit_char(n % 10)));
        assert(forall|i: int|
            0 <= i < spec_decimal(n / 10).len() ==> spec_decimal(n)[i] == #[trigger] spec_decimal(
                n / 10,
            )[i]);
    }
}

/// A positive number's decimal representation does not start with a zero.
pub proof fn lemma_decimal_leading(n: nat)
    requires
        n >= 1,
    ensures
        spec_decimal(n)[0] != '0',
        spec_decimal(n).len() >= 1,
    decreases n,
{
    if n >= 10 {
        lemma_decimal_leading(n / 10);
    }
}

/// The character sequences of a list of strings.
pub open spec fn spec_views(v: Seq<String>) -> Seq<Seq<char>> {
    v.map_values(|s: String| s@)
}

/// The given parts joined with the separator between consecutive parts.
pub open spec fn spec_join(parts: Seq<Seq<char>>, sep: Seq<char>) -> Seq<char>
    decreases parts.len(),
{
    if parts.len() == 0 {
        Seq::empty()
    } else if parts.len() == 1 {
        parts[0]
    } else {
        parts[0] + sep + spec_join(parts.drop_first(), sep)
    }
}

/// Appending one more part extends the join by a separator and the part.
pub proof fn lemma_join_push(parts: Seq<Seq<char>>, sep: Seq<char>, part: Seq<char>)
    ensures
        parts.len() == 0 ==> spec_join(parts.push(part), sep) == part,
        parts.len() >= 1 ==> spec_join(parts.push(part), sep) =~= spec_join(parts, sep) + sep
            + part,
    decreases parts.len(),
{
    if parts.len() == 0 {
        assert(parts.push(part)[0] =~= part);
        assert(spec_join(parts.push(part), sep) == part);
    } else if parts.len() == 1 {
        assert(parts.push(part).drop_first() =~= seq![part]);
        assert(spec_join(seq![part], sep) == part);
        assert(parts.push(part)[0] == parts[0]);
        assert(spec_join(parts.push(part), sep) =~= parts[0] + sep + part);
        assert(spec_join(parts, sep) == parts[0]);
    } else {
        lemma_join_push(parts.drop_first(), sep, part);
        assert(parts.push(part).drop_first() =~= parts.drop_first().push(part));
        assert(spec_join(parts.push(part), sep) =~= parts[0] + sep + spec_join(
            parts.drop_first().push(part),
            sep,
        ));
    }
}

/// The given parts joined with the separator between consecutive parts.
pub fn join(parts: &Vec<String>, sep: &str) -> (r: String)
    ensures
        r@ == spec_join(spec_views(parts@), sep@),
{
    let ghost views = spec_views(parts@);
    let mut acc = String::new();
    let mut i: usize = 0;
    while i < parts.len()
        invariant
            i <= parts@.len(),
            views == parts@.map_values(|p: String| p@),
            acc@ == spec_join(views.take(i as int), sep@),
        decreases parts@.len() - i,
    {
        if i > 0 {
            acc.append(sep);
        }
        acc.append(parts[i].as_str());
        proof {
            lemma_join_push(views.take(i as int), sep@, views[i as int]);
            assert(views.take(i + 1) =~= views.take(i as int).push(views[i as int]));
            if i == 0 {
                assert(acc@ =~= views[0]);
            }
        }
        i = i + 1;
    }
    proof {
        assert(views.take(parts@.len() as int) =~= views);
    }
    acc
}

} // verus!
