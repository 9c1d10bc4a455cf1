//! Exact fixed-point prices and quantities.
//!
//! A feed delivers prices and sizes as decimal text such as `"123.456"`.
//! Comparing such values through binary floating point risks wrong
//! tie-breaks, so they are kept as an exact pair of unsigned integers:
//! the digits before and the digits after the decimal point.

use vstd::prelude::*;

verus! {

/// An exact decimal value: the integer part and the fractional part of a
/// textual decimal such as `"123.456"`, each held as an unsigned integer.
///
/// Values compare lexicographically on `(int, frac)`, which matches numeric
/// order when fractional parts come from a feed that pads them to one width.
/// The pair `(0, 0)` is the sentinel meaning "no quantity remains".
#[derive(Debug, Clone, Copy, PartialEq, Eq, PartialOrd, Ord, Structural)]
pub struct DecimalPair {
    pub int: u32,
    pub frac: u32,
}

impl DecimalPair {
    /// The zero sentinel `(0, 0)`.
    pub open spec fn zero_spec() -> DecimalPair {
        DecimalPair { int: 0, frac: 0 }
    }

    /// Lexicographic order on `(int, frac)`.
    pub open spec fn lt_spec(self, other: DecimalPair) -> bool {
        self.int < other.int || (self.int == other.int && self.frac < other.frac)
    }

    /// The zero sentinel.
    pub fn zero() -> (r: DecimalPair)
        ensures
            r == DecimalPair::zero_spec(),
    {
        DecimalPair { int: 0, frac: 0 }
    }

    /// Whether this value is the zero sentinel.
    pub fn is_zero(&self) -> (r: bool)
        ensures
            r == (*self == DecimalPair::zero_spec()),
    {
        self.int == 0 && self.frac == 0
    }

    /// Strict lexicographic comparison on `(int, frac)`.
    pub fn lt(&self, other: &DecimalPair) -> (r: bool)
        ensures
            r == self.lt_spec(*other),
    {
        self.int < other.int || (self.int == other.int && self.frac < other.frac)
    }
}

/// Whether `c` is a decimal digit.
pub open spec fn is_digit_char(c: char) -> bool {
    '0' <= c && c <= '9'
}

/// The numeric value of a digit character.
pub open spec fn digit_val(c: char) -> int {
    c as int - '0' as int
}

/// Whether every character of `s` is a decimal digit.
pub open spec fn all_digits(s: Seq<char>) -> bool {
    forall|i: int| 0 <= i < s.len() ==> is_digit_char(#[trigger] s[i])
}

/// The number denoted by a digit string, most significant digit first.
pub open spec fn digits_val(s: Seq<char>) -> int
    decreases s.len(),
{
    if s.len() == 0 {
        0
    } else {
        digits_val(s.drop_last()) * 10 + digit_val(s.last())
    }
}

/// Whether position `k` splits `s` into a non-empty digit string, a decimal
/// point, and a non-empty digit string.
pub open spec fn is_split_at(s: Seq<char>, k: int) -> bool {
    &&& 1 <= k
    &&& k + 2 <= s.len()
    &&& s[k] == '.'
    &&& all_digits(s.subrange(0, k))
    &&& all_digits(s.subrange(k + 1, s.len() as int))
}

/// Whether `s` has the shape `"I.F"` with `I` and `F` non-empty digit strings.
pub open spec fn valid_decimal(s: Seq<char>) -> bool {
    exists|k: int| is_split_at(s, k)
}

/// The position of the decimal point of a valid decimal string.
pub open spec fn split_pos(s: Seq<char>) -> int {
    choose|k: int| is_split_at(s, k)
}

/// The digits before the decimal point.
pub open spec fn int_part(s: Seq<char>) -> Seq<char> {
    s.subrange(0, split_pos(s))
}

/// The digits after the decimal point.
pub open spec fn frac_part(s: Seq<char>) -> Seq<char> {
    s.subrange(split_pos(s) + 1, s.len() as int)
}

/// Whether both components of a valid decimal string fit in `u32`.
pub open spec fn fits_u32(s: Seq<char>) -> bool {
    digits_val(int_part(s)) <= u32::MAX && digits_val(frac_part(s)) <= u32::MAX
}

/// Whether `s` denotes exactly the pair `p`.
pub open spec fn parses_to(s: Seq<char>, p: DecimalPair) -> bool {
    &&& valid_decimal(s)
    &&& digits_val(int_part(s)) == p.int as int
    &&& digits_val(frac_part(s)) == p.frac as int
}

/// A digit string denotes a non-negative number.
pub proof fn lemma_digits_val_nonneg(s: Seq<char>)
    requires
        all_digits(s),
    ensures
        digits_val(s) >= 0,
    decreases s.len(),
{
    if s.len() > 0 {
        assert(all_digits(s.drop_last()));
        lemma_digits_val_nonneg(s.drop_last());
    }
}

/// Appending one digit multiplies the value by ten and adds that digit.
pub proof fn lemma_digits_val_snoc(s: Seq<char>, from: int, i: int)
    requires
        0 <= from <= i < s.len(),
    ensures
        digits_val(s.subrange(from, i + 1)) == digits_val(s.subrange(from, i)) * 10 + digit_val(
            s[i],
        ),
{
    let t = s.subrange(from, i + 1);
    assert(t.drop_last() =~= s.subrange(from, i));
    assert(t.last() == s[i]);
}

/// A digit string is worth at least any of its prefixes.
pub proof fn lemma_digits_val_prefix_le(s: Seq<char>, from: int, i: int, to: int)
    requires
        0 <= from <= i <= to <= s.len(),
        forall|j: int| from <= j < to ==> is_digit_char(#[trigger] s[j]),
    ensures
        digits_val(s.subrange(from, to)) >= digits_val(s.subrange(from, i)) >= 0,
    decreases to - i,
{
    assert(all_digits(s.subrange(from, i)));
    lemma_digits_val_nonneg(s.subrange(from, i));
    if i < to {
        lemma_digits_val_snoc(s, from, i);
        lemma_digits_val_prefix_le(s, from, i + 1, to);
        lemma_digits_val_nonneg(s.subrange(from, i + 1));
    }
}

/// A valid decimal string has exactly one decimal point position.
pub proof fn lemma_split_unique(s: Seq<char>, k1: int, k2: int)
    requires
        is_split_at(s, k1),
        is_split_at(s, k2),
    ensures
        k1 == k2,
{
    if k1 < k2 {
        assert(is_digit_char(s.subrange(k1 + 1, s.len() as int)[k2 - k1 - 1]));
    }
    if k2 < k1 {
        assert(is_digit_char(s.subrange(k2 + 1, s.len() as int)[k1 - k2 - 1]));
    }
}

impl DecimalPair {
    /// Parses decimal text of the shape `"I.F"`, with `I` and `F` non-empty
    /// strings of digits each denoting a value that fits in `u32`; any other
    /// text is malformed and yields `None`.
    pub fn parse(s: &str) -> (r: Option<DecimalPair>)
        ensures
            match r {
                Some(p) => parses_to(s@, p) && fits_u32(s@),
                None => !(valid_decimal(s@) && fits_u32(s@)),
            },
    {
        let n: usize = s.unicode_len();
        // Locate the decimal point; reject any character that is neither a
        // digit nor the first point.
        let mut i: usize = 0;
        let mut dot: usize = 0;
        let mut seen_dot: bool = false;
        while i < n
            invariant
                0 <= i <= n,
                n == s@.len(),
                seen_dot ==> dot < i && s@[dot as int] == '.',
                forall|j: int|
                    0 <= j < i && (!seen_dot || j != dot) ==> is_digit_char(#[trigger] s@[j]),
            decreases n - i,
        {
            let c = s.get_char(i);
            let code = c as u32;
            if code == 46 {
                assert(c == '.');
                if seen_dot {
                    // A second point: no split position can make both sides digits.
                    proof {
                        if valid_decimal(s@) {
                            let k = split_pos(s@);
                            assert(is_split_at(s@, k));
                            if k < dot {
                                assert(is_digit_char(
                                    s@.subrange(k + 1, s@.len() as int)[dot - k - 1],
                                ));
                            } else if k > dot {
                                assert(is_digit_char(s@.subrange(0, k)[dot as int]));
                            } else {
                                assert(is_digit_char(s@.subrange(k + 1, s@.len() as int)[i - k - 1]));
                            }
                        }
                    }
                    return None;
                }
                dot = i;
                seen_dot = true;
            } else if 48 <= code && code <= 57 {
                assert(is_digit_char(c));
            } else {
                // Neither a digit nor a point: no split admits this character.
                proof {
                    assert(c != '.');
                    assert(!is_digit_char(c));
                    if valid_decimal(s@) {
                        let k = split_pos(s@);
                        assert(is_split_at(s@, k));
                        if (i as int) < k {
                            assert(is_digit_char(s@.subrange(0, k)[i as int]));
                        } else if (i as int) > k {
                            assert(is_digit_char(s@.subrange(k + 1, s@.len() as int)[i - k - 1]));
                        }
                    }
                }
                return None;
            }
            i += 1;
        }
        if !seen_dot {
            // No decimal point at all.
            proof {
                if valid_decimal(s@) {
                    let k = split_pos(s@);
                    assert(is_split_at(s@, k));
                }
            }
            return None;
        }
        if dot == 0 || n - dot < 2 {
            // An empty integer or fractional part.
            proof {
                if valid_decimal(s@) {
                    let k = split_pos(s@);
                    assert(is_split_at(s@, k));
                    if k != dot as int {
                        assert(s@[k] == '.');
                        if k < dot as int {
                            assert(is_digit_char(s@.subrange(0, dot as int)[k]));
                        } else {
                            assert(is_digit_char(
                                s@.subrange(dot + 1, s@.len() as int)[k - dot - 1],
                            ));
                        }
                    }
                }
            }
            return None;
        }
        proof {
            assert(all_digits(s@.subrange(0, dot as int)));
            assert(all_digits(s@.subrange(dot + 1, s@.len() as int)));
            assert(is_split_at(s@, dot as int));
            lemma_split_unique(s@, split_pos(s@), dot as int);
        }
        let int_v = match parse_digits(s, 0, dot) {
            Some(v) => v,
            None => {
                return None;
            },
        };
        let frac_v = match parse_digits(s, dot + 1, n) {
            Some(v) => v,
            None => {
                return None;
            },
        };
        Some(DecimalPair { int: int_v, frac: frac_v })
    }
}

/// The digit character of a digit value.
pub open spec fn digit_char(d: int) -> char {
    if d == 0 {
        '0'
    } else if d == 1 {
        '1'
    } else if d == 2 {
        '2'
    } else if d == 3 {
        '3'
    } else if d == 4 {
        '4'
    } else if d == 5 {
        '5'
    } else if d == 6 {
        '6'
    } else if d == 7 {
        '7'
    } else if d == 8 {
        '8'
    } else {
        '9'
    }
}

/// The canonical digit string of `n`: most significant digit first, with no
/// leading zero except for `"0"` itself.
pub open spec fn nat_digits(n: int) -> Seq<char>
    decreases n,
{
    if n < 10 {
        seq![digit_char(n)]
    } else {
        nat_digits(n / 10).push(digit_char(n % 10))
    }
}

/// The canonical text of a pair: `"I.F"` with both parts free of leading
/// zeros.
pub open spec fn format_spec(p: DecimalPair) -> Seq<char> {
    nat_digits(p.int as int) + seq!['.'] + nat_digits(p.frac as int)
}

/// Digit characters and digit values convert to one another.
proof fn lemma_digit_char_val(d: int)
    requires
        0 <= d < 10,
    ensures
        is_digit_char(digit_char(d)),
        digit_val(digit_char(d)) == d,
{
}

/// A digit character is recovered from its value.
proof fn lemma_digit_val_char(c: char)
    requires
        is_digit_char(c),
    ensures
        0 <= digit_val(c) < 10,
        digit_char(digit_val(c)) == c,
{
}

/// The canonical digit string of `n` denotes `n`.
pub proof fn lemma_nat_digits_wf(n: int)
    requires
        n >= 0,
    ensures
        all_digits(nat_digits(n)),
        nat_digits(n).len() >= 1,
        digits_val(nat_digits(n)) == n,
    decreases n,
{
    if n < 10 {
        lemma_digit_char_val(n);
        let t = seq![digit_char(n)];
        assert(t.drop_last() =~= Seq::<char>::empty());
        assert(digits_val(Seq::<char>::empty()) == 0);
        assert(t.last() == digit_char(n));
        assert(digits_val(t) == digits_val(t.drop_last()) * 10 + digit_val(t.last()));
    } else {
        lemma_nat_digits_wf(n / 10);
        lemma_digit_char_val(n % 10);
        let s = nat_digits(n / 10);
        let t = s.push(digit_char(n % 10));
        assert(t.drop_last() =~= s);
        assert(t.last() == digit_char(n % 10));
        vstd::arithmetic::div_mod::lemma_fundamental_div_mod(n, 10);
        assert(forall|i: int| 0 <= i < t.len() ==> is_digit_char(#[trigger] t[i]));
    }
}

/// The canonical digit string has no leading zero unless it is `"0"`.
pub proof fn lemma_nat_digits_canonical(n: int)
    requires
        n >= 0,
    ensures
        n >= 1 ==> nat_digits(n)[0] != '0',
        n == 0 ==> nat_digits(n).len() == 1,
    decreases n,
{
    if 1 <= n < 10 {
        lemma_digit_char_val(n);
    } else if n >= 10 {
        lemma_nat_digits_canonical(n / 10);
        assert(nat_digits(n)[0] == nat_digits(n / 10)[0]);
    }
}

/// A digit string without a leading zero denotes a positive number.
proof fn lemma_digits_val_pos(d: Seq<char>)
    requires
        all_digits(d),
        d.len() >= 1,
        d[0] != '0',
    ensures
        digits_val(d) >= 1,
    decreases d.len(),
{
    if d.len() == 1 {
        assert(d.drop_last() =~= Seq::<char>::empty());
        assert(digits_val(Seq::<char>::empty()) == 0);
        assert(d.last() == d[0]);
        assert(digit_val(d[0]) >= 1);
        assert(digits_val(d) == digits_val(d.drop_last()) * 10 + digit_val(d.last()));
    } else {
        let u = d.drop_last();
        assert(u[0] == d[0]);
        lemma_digits_val_pos(u);
        assert(digit_val(d.last()) >= 0);
    }
}

/// A canonical digit string is recovered from its value.
proof fn lemma_digits_canonical_inverse(d: Seq<char>)
    requires
        all_digits(d),
        d.len() >= 1,
        d.len() == 1 || d[0] != '0',
    ensures
        digits_val(d) >= 0,
        nat_digits(digits_val(d)) == d,
    decreases d.len(),
{
    lemma_digits_val_nonneg(d);
    if d.len() == 1 {
        lemma_digit_val_char(d[0]);
        assert(d.drop_last() =~= Seq::<char>::empty());
        assert(digits_val(Seq::<char>::empty()) == 0);
        assert(d.last() == d[0]);
        assert(digits_val(d) == digits_val(d.drop_last()) * 10 + digit_val(d.last()));
        assert(digits_val(d) == digit_val(d[0]));
        assert(nat_digits(digits_val(d)) =~= d);
    } else {
        let u = d.drop_last();
        assert(u[0] == d[0]);
        lemma_digits_canonical_inverse(u);
        lemma_digit_val_char(d.last());
        lemma_digits_val_pos(u);
        let v = digits_val(d);
        assert(v == digits_val(u) * 10 + digit_val(d.last()));
        vstd::arithmetic::div_mod::lemma_fundamental_div_mod_converse(
            v,
            10,
            digits_val(u),
            digit_val(d.last()),
        );
        assert(v / 10 == digits_val(u));
        assert(v % 10 == digit_val(d.last()));
        assert(v >= 10);
        assert(nat_digits(v) == nat_digits(digits_val(u)).push(digit_char(digit_val(d.last()))));
        assert(nat_digits(v) =~= d);
    }
}

/// Round trip, one way: formatting any pair and parsing the text yields the
/// pair back; the text is canonical, so the round trip the other way applies
/// to it as well.
pub proof fn lemma_format_then_parse(p: DecimalPair)
    ensures
        parses_to(format_spec(p), p),
        fits_u32(format_spec(p)),
        int_part(format_spec(p)).len() == 1 || int_part(format_spec(p))[0] != '0',
        frac_part(format_spec(p)).len() == 1 || frac_part(format_spec(p))[0] != '0',
{
    let s = format_spec(p);
    let di = nat_digits(p.int as int);
    let df = nat_digits(p.frac as int);
    lemma_nat_digits_wf(p.int as int);
    lemma_nat_digits_wf(p.frac as int);
    lemma_nat_digits_canonical(p.int as int);
    lemma_nat_digits_canonical(p.frac as int);
    let k = di.len() as int;
    assert(s.subrange(0, k) =~= di);
    assert(s[k] == '.');
    assert(s.subrange(k + 1, s.len() as int) =~= df);
    assert(is_split_at(s, k));
    assert(valid_decimal(s));
    lemma_split_unique(s, split_pos(s), k);
    assert(int_part(s) == s.subrange(0, k));
    assert(frac_part(s) == s.subrange(k + 1, s.len() as int));
}

/// Round trip, the other way: parsing canonical text (no leading zeros in
/// either part) and formatting the value yields the text back.
pub proof fn lemma_parse_then_format(s: Seq<char>, p: DecimalPair)
    requires
        parses_to(s, p),
        int_part(s).len() == 1 || int_part(s)[0] != '0',
        frac_part(s).len() == 1 || frac_part(s)[0] != '0',
    ensures
        format_spec(p) == s,
{
    let k = split_pos(s);
    assert(is_split_at(s, k));
    assert(all_digits(int_part(s)));
    assert(all_digits(frac_part(s)));
    assert(int_part(s).len() >= 1);
    assert(frac_part(s).len() >= 1);
    lemma_digits_canonical_inverse(int_part(s));
    lemma_digits_canonical_inverse(frac_part(s));
    assert(nat_digits(p.int as int) == int_part(s));
    assert(nat_digits(p.frac as int) == frac_part(s));
    assert(format_spec(p) =~= s);
}

/// The one-character text of a digit value.
fn digit_str(d: u32) -> (r: &'static str)
    requires
        d < 10,
    ensures
        r@ == seq![digit_char(d as int)],
{
    let r = match d {
        0 => "0",
        1 => "1",
        2 => "2",
        3 => "3",
        4 => "4",
        5 => "5",
        6 => "6",
        7 => "7",
        8 => "8",
        _ => "9",
    };
    proof {
        reveal_strlit("0");
        reveal_strlit("1");
        reveal_strlit("2");
        reveal_strlit("3");
        reveal_strlit("4");
        reveal_strlit("5");
        reveal_strlit("6");
        reveal_strlit("7");
        reveal_strlit("8");
        reveal_strlit("9");
        assert(r@ =~= seq![digit_char(d as int)]);
    }
    r
}

/// Appends the canonical digit string of `n`.
fn push_digits(out: &mut String, n: u32)
    ensures
        final (out)@ == old(out)@ + nat_digits(n as int),
    decreases n,
{
    if n < 10 {
        out.append(digit_str(n));
        assert(final (out)@ =~= old(out)@ + nat_digits(n as int));
    } else {
        push_digits(out, n / 10);
        out.append(digit_str(n % 10));
        assert(final (out)@ =~= old(out)@ + nat_digits(n as int));
    }
}

impl DecimalPair {
    /// Formats as canonical `"I.F"` text: both parts without leading zeros,
    /// so that `"100.05"` prints back as `"100.5"` while every canonical
    /// string round-trips exactly.
    pub fn format(&self) -> (r: String)
        ensures
            r@ == format_spec(*self),
    {
        let mut out = String::new();
        push_digits(&mut out, self.int);
        out.append(".");
        push_digits(&mut out, self.frac);
        proof {
            reveal_strlit(".");
            assert(out@ =~= format_spec(*self));
        }
        out
    }
}

/// Reads the digit run `s[from..to]` as a `u32`; `None` when its value
/// exceeds `u32::MAX`.
fn parse_digits(s: &str, from: usize, to: usize) -> (r: Option<u32>)
    requires
        from <= to <= s@.len(),
        forall|j: int| from <= j < to ==> is_digit_char(#[trigger] s@[j]),
    ensures
        match r {
            Some(v) => v as int == digits_val(s@.subrange(from as int, to as int)),
            None => digits_val(s@.subrange(from as int, to as int)) > u32::MAX,
        },
{
    let mut acc: u64 = 0;
    let mut i: usize = from;
    proof {
        assert(s@.subrange(from as int, from as int) =~= Seq::<char>::empty());
    }
    while i < to
        invariant
            from <= i <= to <= s@.len(),
            acc <= u32::MAX,
            acc as int == digits_val(s@.subrange(from as int, i as int)),
            forall|j: int| from <= j < to ==> is_digit_char(#[trigger] s@[j]),
        decreases to - i,
    {
        let c = s.get_char(i);
        assert(is_digit_char(c));
        let code = c as u32;
        assert(code >= 48 && code <= 57);
        let d: u64 = (code - 48) as u64;
        proof {
            lemma_digits_val_snoc(s@, from as int, i as int);
        }
        let next: u64 = acc * 10 + d;
        if next > 0xffff_ffff {
            proof {
                lemma_digits_val_prefix_le(s@, from as int, i as int + 1, to as int);
            }
            return None;
        }
        acc = next;
        i += 1;
    }
    Some(acc as u32)
}

} // verus!
