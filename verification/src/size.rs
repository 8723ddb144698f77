use vstd::prelude::*;
use vstd::string::StrSliceExecFns;

verus! {

/// A puzzle's grid shape: width and height in tiles.
#[derive(Debug, Clone, Copy, PartialEq, Eq, Structural)]
pub struct Size(pub u32, pub u32);

/// Error returned when a textual size cannot be parsed.
#[derive(Debug, Clone, Copy, PartialEq, Eq, Structural)]
pub struct ParseSizeError;

/// Characters that are stripped from the ends of a dimension before it
/// is read as a number: the Unicode white-space characters, as
/// `str::trim` removes them.
pub open spec fn is_space_char(c: char) -> bool {
    ||| c == '\t' || c == '\n' || c == '\u{b}' || c == '\u{c}' || c == '\r' || c == ' '
    ||| c == '\u{85}' || c == '\u{a0}' || c == '\u{1680}'
    ||| ('\u{2000}' <= c && c <= '\u{200a}')
    ||| c == '\u{2028}' || c == '\u{2029}' || c == '\u{202f}' || c == '\u{205f}' || c
        == '\u{3000}'
}

/// Decimal digits.
pub open spec fn is_digit_char(c: char) -> bool {
    '0' <= c && c <= '9'
}

pub open spec fn digit_val(c: char) -> nat
    recommends
        is_digit_char(c),
{
    (c as nat - '0' as nat) as nat
}

/// The number written by a sequence of decimal digits.
pub open spec fn digits_val(s: Seq<char>) -> nat
    decreases s.len(),
{
    if s.len() == 0 {
        0
    } else {
        digits_val(s.drop_last()) * 10 + digit_val(s.last())
    }
}

/// The digits of a number: everything after an optional leading plus sign.
pub open spec fn number_body(s: Seq<char>) -> Seq<char> {
    if s.len() > 0 && s[0] == '+' {
        s.drop_first()
    } else {
        s
    }
}

/// What `str::parse::<u32>` accepts: an optional plus sign, then at
/// least one digit, naming a value that fits in 32 bits.
pub open spec fn u32_str_spec(s: Seq<char>) -> Option<u32> {
    let body = number_body(s);
    if body.len() > 0 && (forall|i: int| 0 <= i < body.len() ==> is_digit_char(body[i]))
        && digits_val(body) <= u32::MAX {
        Some(digits_val(body) as u32)
    } else {
        None
    }
}

/// The sequence with leading space characters removed.
pub open spec fn trim_front(s: Seq<char>) -> Seq<char>
    decreases s.len(),
{
    if s.len() > 0 && is_space_char(s[0]) {
        trim_front(s.drop_first())
    } else {
        s
    }
}

/// The sequence with trailing space characters removed.
pub open spec fn trim_back(s: Seq<char>) -> Seq<char>
    decreases s.len(),
{
    if s.len() > 0 && is_space_char(s.last()) {
        trim_back(s.drop_last())
    } else {
        s
    }
}

pub open spec fn trim_spec(s: Seq<char>) -> Seq<char> {
    trim_back(trim_front(s))
}

/// The index of the first occurrence of `c` in `s`, or -1 if absent.
pub open spec fn find_char(s: Seq<char>, c: char) -> int
    decreases s.len(),
{
    if s.len() == 0 {
        -1
    } else if s[0] == c {
        0
    } else {
        let r = find_char(s.drop_first(), c);
        if r == -1 {
            -1
        } else {
            r + 1
        }
    }
}

/// What parsing a size accepts: either one number `n`, read as `n` by
/// `n`, or two numbers separated by the first `x`, each with spaces
/// around it allowed.
pub open spec fn size_parse_spec(s: Seq<char>) -> Option<(u32, u32)> {
    match u32_str_spec(s) {
        Some(n) => Some((n, n)),
        None => {
            let i = find_char(s, 'x');
            if i == -1 {
                None
            } else {
                let w = u32_str_spec(trim_spec(s.subrange(0, i)));
                let h = u32_str_spec(trim_spec(s.subrange(i + 1, s.len() as int)));
                match (w, h) {
                    (Some(w), Some(h)) => Some((w, h)),
                    _ => None,
                }
            }
        },
    }
}

proof fn lemma_digits_val_prefix_le(s: Seq<char>, i: int)
    requires
        0 <= i <= s.len(),
    ensures
        digits_val(s.subrange(0, i)) <= digits_val(s),
    decreases s.len() - i,
{
    if i < s.len() {
        lemma_digits_val_prefix_le(s, i + 1);
        assert(s.subrange(0, i + 1).drop_last() =~= s.subrange(0, i));
        assert(digits_val(s.subrange(0, i)) <= digits_val(s.subrange(0, i + 1)));
    } else {
        assert(s.subrange(0, i) =~= s);
    }
}

/// Reads the digits of `cs` between `from` and `to` as a decimal
/// number, exactly as `str::parse::<u32>` reads them.
fn parse_digits(cs: &Vec<char>, from: usize, to: usize) -> (r: Option<u32>)
    requires
        from <= to <= cs@.len(),
    ensures
        ({
            let body = cs@.subrange(from as int, to as int);
            match r {
                Some(n) => body.len() > 0 && (forall|i: int|
                    0 <= i < body.len() ==> is_digit_char(body[i])) && digits_val(body)
                    <= u32::MAX && n == digits_val(body),
                None => !(body.len() > 0 && (forall|i: int|
                    0 <= i < body.len() ==> is_digit_char(body[i])) && digits_val(body)
                    <= u32::MAX),
            }
        }),
{
    let ghost body = cs@.subrange(from as int, to as int);
    if from == to {
        return None;
    }
    let mut acc: u32 = 0;
    let mut i: usize = from;
    while i < to
        invariant
            from <= i <= to <= cs@.len(),
            body == cs@.subrange(from as int, to as int),
            forall|j: int| from <= j < i ==> is_digit_char(cs@[j]),
            acc == digits_val(cs@.subrange(from as int, i as int)),
        decreases to - i,
    {
        let c = cs[i];
        if !('0' <= c && c <= '9') {
            assert(!is_digit_char(body[i - from]));
            return None;
        }
        let d: u32 = (c as u32) - 48;
        assert(d == digit_val(c) && d <= 9);
        if acc > (u32::MAX - d) / 10 {
            proof {
                assert(acc * 10 + d > u32::MAX) by (nonlinear_arith)
                    requires
                        acc > (u32::MAX - d) / 10,
                        d <= 9,
                ;
                assert(cs@.subrange(from as int, i as int + 1).drop_last() =~= cs@.subrange(
                    from as int,
                    i as int,
                ));
                assert(digits_val(cs@.subrange(from as int, i as int + 1)) > u32::MAX);
                lemma_digits_val_prefix_le(body, i - from + 1);
                assert(body.subrange(0, i - from + 1) =~= cs@.subrange(
                    from as int,
                    i as int + 1,
                ));
                assert(digits_val(body) > u32::MAX);
            }
            return None;
        }
        proof {
            assert(acc * 10 + d <= u32::MAX) by (nonlinear_arith)
                requires
                    acc <= (u32::MAX - d) / 10,
                    d <= 9,
            ;
        }
        let next: u32 = acc * 10 + d;
        proof {
            assert(cs@.subrange(from as int, i as int + 1).drop_last() =~= cs@.subrange(
                from as int,
                i as int,
            ));
            assert(cs@.subrange(from as int, i as int + 1).last() == c);
        }
        acc = next;
        i = i + 1;
    }
    proof {
        assert(cs@.subrange(from as int, i as int) =~= body);
        assert(forall|j: int| 0 <= j < body.len() ==> is_digit_char(body[j]));
    }
    Some(acc)
}

/// Reads `cs` between `from` and `to` as `str::parse::<u32>` would:
/// an optional plus sign, then digits.
fn parse_u32_range(cs: &Vec<char>, from: usize, to: usize) -> (r: Option<u32>)
    requires
        from <= to <= cs@.len(),
    ensures
        r == u32_str_spec(cs@.subrange(from as int, to as int)),
{
    let ghost s = cs@.subrange(from as int, to as int);
    if from < to && cs[from] == '+' {
        proof {
            assert(number_body(s) =~= cs@.subrange(from as int + 1, to as int));
        }
        parse_digits(cs, from + 1, to)
    } else {
        proof {
            assert(number_body(s) =~= s);
        }
        parse_digits(cs, from, to)
    }
}

fn is_space(c: char) -> (r: bool)
    ensures
        r == is_space_char(c),
{
    c == '\t' || c == '\n' || c == '\u{b}' || c == '\u{c}' || c == '\r' || c == ' ' || c
        == '\u{85}' || c == '\u{a0}' || c == '\u{1680}' || ('\u{2000}' <= c && c <= '\u{200a}')
        || c == '\u{2028}' || c == '\u{2029}' || c == '\u{202f}' || c == '\u{205f}' || c
        == '\u{3000}'
}

/// Narrows the window `[from, to)` of `cs` so that it spans exactly the
/// trimmed sequence.
fn trim_range(cs: &Vec<char>, from: usize, to: usize) -> (r: (usize, usize))
    requires
        from <= to <= cs@.len(),
    ensures
        from <= r.0 <= r.1 <= to,
        cs@.subrange(r.0 as int, r.1 as int) == trim_spec(cs@.subrange(from as int, to as int)),
{
    let mut lo = from;
    let mut hi = to;
    while lo < hi && is_space(cs[lo])
        invariant
            from <= lo <= hi <= to <= cs@.len(),
            hi == to,
            trim_front(cs@.subrange(from as int, to as int)) == trim_front(
                cs@.subrange(lo as int, to as int),
            ),
        decreases hi - lo,
    {
        proof {
            assert(cs@.subrange(lo as int, to as int).drop_first() =~= cs@.subrange(
                lo as int + 1,
                to as int,
            ));
        }
        lo = lo + 1;
    }
    proof {
        let w = cs@.subrange(lo as int, to as int);
        assert(trim_front(w) == w) by {
            if w.len() > 0 && is_space_char(w[0]) {
                assert(is_space_char(cs@[lo as int]));
                assert(false);
            }
        }
    }
    while lo < hi && is_space(cs[hi - 1])
        invariant
            from <= lo <= hi <= to <= cs@.len(),
            trim_front(cs@.subrange(from as int, to as int)) == cs@.subrange(lo as int, to as int),
            trim_back(cs@.subrange(lo as int, to as int)) == trim_back(
                cs@.subrange(lo as int, hi as int),
            ),
        decreases hi - lo,
    {
        proof {
            assert(cs@.subrange(lo as int, hi as int).drop_last() =~= cs@.subrange(
                lo as int,
                hi as int - 1,
            ));
        }
        hi = hi - 1;
    }
    proof {
        let w = cs@.subrange(lo as int, hi as int);
        assert(trim_back(w) == w) by {
            if w.len() > 0 && is_space_char(w.last()) {
                assert(is_space_char(cs@[hi as int - 1]));
                assert(false);
            }
        }
    }
    (lo, hi)
}

/// Collects the characters of `s` into a vector.
fn chars_of(s: &str) -> (r: Vec<char>)
    ensures
        r@ == s@,
{
    let n = s.unicode_len();
    let mut r: Vec<char> = Vec::new();
    let mut i: usize = 0;
    while i < n
        invariant
            i <= n,
            n == s@.len(),
            r@ == s@.subrange(0, i as int),
        decreases n - i,
    {
        let c = s.get_char(i);
        r.push(c);
        proof {
            assert(r@ =~= s@.subrange(0, i as int + 1));
        }
        i = i + 1;
    }
    proof {
        assert(r@ =~= s@);
    }
    r
}

impl Size {
    /// Reads a size from text: either `"n"`, giving an `n` by `n` size,
    /// or `"w x h"` with the spaces optional.
    pub fn parse(s: &str) -> (r: Result<Size, ParseSizeError>)
        ensures
            match r {
                Ok(sz) => size_parse_spec(s@) == Some((sz.0, sz.1)),
                Err(_) => size_parse_spec(s@) is None,
            },
    {
        let cs = chars_of(s);
        let n = cs.len();
        proof {
            assert(cs@.subrange(0, n as int) =~= s@);
        }
        if let Some(v) = parse_u32_range(&cs, 0, n) {
            return Ok(Size(v, v));
        }
        let mut i: usize = 0;
        while i < n && cs[i] != 'x'
            invariant
                0 <= i <= n == cs@.len(),
                forall|j: int| 0 <= j < i ==> cs@[j] != 'x',
            decreases n - i,
        {
            i = i + 1;
        }
        proof {
            lemma_find_char(cs@, 'x', i as int);
        }
        if i == n {
            return Err(ParseSizeError);
        }
        let (wl, wh) = trim_range(&cs, 0, i);
        let w = match parse_u32_range(&cs, wl, wh) {
            Some(w) => w,
            None => {
                return Err(ParseSizeError);
            },
        };
        let (hl, hh) = trim_range(&cs, i + 1, n);
        let h = match parse_u32_range(&cs, hl, hh) {
            Some(h) => h,
            None => {
                return Err(ParseSizeError);
            },
        };
        Ok(Size(w, h))
    }
}

/// `find_char` returns the index of the first hit: a scan that saw no
/// `c` before `i`, and either stopped at `c` or at the end, pins it.
proof fn lemma_find_char(s: Seq<char>, c: char, i: int)
    requires
        0 <= i <= s.len(),
        forall|j: int| 0 <= j < i ==> s[j] != c,
        i < s.len() ==> s[i] == c,
    ensures
        find_char(s, c) == if i == s.len() {
            -1int
        } else {
            i
        },
    decreases s.len(),
{
    if s.len() > 0 {
        if s[0] == c {
        } else {
            lemma_find_char(s.drop_first(), c, i - 1);
        }
    }
}


/// The digit character of one decimal digit.
pub open spec fn digit_char(d: int) -> char {
    if d == 0 {
        '0'
    } else if d == 1 {
        '1'
    } else if d == 2 {
        '2'
    } else if d == 3 {
        '3'
    } else if d == 4 {
        '4'
    } else if d == 5 {
        '5'
    } else if d == 6 {
        '6'
    } else if d == 7 {
        '7'
    } else if d == 8 {
        '8'
    } else {
        '9'
    }
}

/// The decimal digits of a non-negative number, most significant
/// first, with no sign and no leading zero except for zero itself.
pub open spec fn dec_digits(n: int) -> Seq<char>
    recommends
        0 <= n,
    decreases n,
{
    if n < 10 {
        seq![digit_char(n)]
    } else {
        dec_digits(n / 10).push(digit_char(n % 10))
    }
}

/// How a size is written: the width, an `x`, the height.
pub open spec fn size_display_spec(s: Size) -> Seq<char> {
    dec_digits(s.0 as int) + seq!['x'] + dec_digits(s.1 as int)
}

/// The decimal digits of a number read back as that number.
proof fn lemma_dec_digits(n: int)
    requires
        0 <= n,
    ensures
        dec_digits(n).len() >= 1,
        forall|i: int| 0 <= i < dec_digits(n).len() ==> is_digit_char(#[trigger] dec_digits(n)[i]),
        digits_val(dec_digits(n)) == n,
    decreases n,
{
    if n < 10 {
        let d = dec_digits(n);
        assert(d.len() == 1);
        assert(d.last() == digit_char(n));
        assert(d.drop_last() =~= Seq::<char>::empty());
        assert(digits_val(d.drop_last()) == 0);
        assert(digits_val(d) == 0 * 10 + digit_val(digit_char(n)));
        assert(digit_val(digit_char(n)) == n);
    } else {
        lemma_dec_digits(n / 10);
        vstd::arithmetic::div_mod::lemma_fundamental_div_mod(n, 10);
        vstd::arithmetic::div_mod::lemma_mod_division_less_than_divisor(n, 10);
        let d = dec_digits(n);
        assert(d.drop_last() =~= dec_digits(n / 10));
        assert(d.last() == digit_char(n % 10));
        assert(digit_val(digit_char(n % 10)) == n % 10);
        assert(digits_val(d) == digits_val(dec_digits(n / 10)) * 10 + n % 10);
    }
}

/// Appends one digit character.
fn push_digit(s: &mut String, d: u64)
    requires
        d < 10,
    ensures
        final (s)@ == old(s)@.push(digit_char(d as int)),
{
    let t: &str = match d {
        0 => "0",
        1 => "1",
        2 => "2",
        3 => "3",
        4 => "4",
        5 => "5",
        6 => "6",
        7 => "7",
        8 => "8",
        _ => "9",
    };
    proof {
        reveal_strlit("0");
        reveal_strlit("1");
        reveal_strlit("2");
        reveal_strlit("3");
        reveal_strlit("4");
        reveal_strlit("5");
        reveal_strlit("6");
        reveal_strlit("7");
        reveal_strlit("8");
        reveal_strlit("9");
        assert(t@ =~= seq![digit_char(d as int)]);
    }
    s.append(t);
    proof {
        assert(s@ =~= old(s)@.push(digit_char(d as int)));
    }
}

/// Appends the decimal digits of `n`.
fn append_u32(s: &mut String, n: u32)
    ensures
        final (s)@ == old(s)@ + dec_digits(n as int),
    decreases n,
{
    if n < 10 {
        push_digit(s, n as u64);
        proof {
            assert(s@ =~= old(s)@ + dec_digits(n as int));
        }
    } else {
        append_u32(s, n / 10);
        push_digit(s, (n % 10) as u64);
        proof {
            assert(s@ =~= old(s)@ + dec_digits(n as int));
        }
    }
}

impl Size {
    /// Writes the size as text: the width, an `x`, the height, in
    /// decimal. Parsing the text gives the size back.
    pub fn to_display_string(&self) -> (r: String)
        ensures
            r@ == size_display_spec(*self),
            size_parse_spec(r@) == Some((self.0, self.1)),
    {
        let mut out = String::new();
        append_u32(&mut out, self.0);
        proof {
            reveal_strlit("x");
        }
        out.append("x");
        append_u32(&mut out, self.1);
        proof {
            assert(out@ =~= size_display_spec(*self));
            lemma_display_parse_round_trip(*self);
        }
        out
    }
}

/// Digits are neither spaces, signs, nor an `x`, so trimming and
/// splitting leave them alone.
proof fn lemma_digit_char_plain(c: char)
    requires
        is_digit_char(c),
    ensures
        !is_space_char(c),
        c != 'x',
        c != '+',
{
}

/// Writing a size and parsing the text gives the size back.
pub proof fn lemma_display_parse_round_trip(s: Size)
    ensures
        size_parse_spec(size_display_spec(s)) == Some((s.0, s.1)),
{
    let dw = dec_digits(s.0 as int);
    let dh = dec_digits(s.1 as int);
    let whole = size_display_spec(s);
    lemma_dec_digits(s.0 as int);
    lemma_dec_digits(s.1 as int);
    let i = dw.len() as int;
    assert(whole[i] == 'x');
    assert forall|j: int| 0 <= j < i implies whole[j] != 'x' by {
        assert(whole[j] == dw[j]);
        lemma_digit_char_plain(dw[j]);
    }
    lemma_find_char(whole, 'x', i);
    assert(u32_str_spec(whole) is None) by {
        assert(whole[0] == dw[0]);
        lemma_digit_char_plain(dw[0]);
        assert(number_body(whole) == whole);
        assert(!is_digit_char(whole[i]));
    }
    assert(whole.subrange(0, i) =~= dw);
    assert(whole.subrange(i + 1, whole.len() as int) =~= dh);
    lemma_trim_plain(dw);
    lemma_trim_plain(dh);
    assert(number_body(dw) == dw) by {
        lemma_digit_char_plain(dw[0]);
    }
    assert(number_body(dh) == dh) by {
        lemma_digit_char_plain(dh[0]);
    }
    assert(u32_str_spec(dw) == Some(s.0));
    assert(u32_str_spec(dh) == Some(s.1));
}

/// Trimming a sequence of digits changes nothing.
proof fn lemma_trim_plain(s: Seq<char>)
    requires
        forall|i: int| 0 <= i < s.len() ==> is_digit_char(#[trigger] s[i]),
    ensures
        trim_spec(s) == s,
{
    if s.len() > 0 {
        lemma_digit_char_plain(s[0]);
        lemma_digit_char_plain(s.last());
    }
    assert(trim_front(s) == s);
    assert(trim_back(s) == s);
}

impl core::str::FromStr for Size {
    type Err = ParseSizeError;

    fn from_str(s: &str) -> Result<Self, Self::Err> {
        Size::parse(s)
    }
}

} // verus!
