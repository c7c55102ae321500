//! Character-level text handling: reading a `&str` as characters, trimming,
//! splitting, decimal integers in and out.

use vstd::prelude::*;

verus! {

/// Why a decimal integer could not be read.
#[derive(Debug, Clone, Copy, PartialEq, Eq, Structural)]
pub enum IntErrorKind {
    /// The text was empty.
    Empty,
    /// A character that is not a decimal digit was met.
    InvalidDigit,
    /// The value does not fit in the target type.
    PosOverflow,
}

/// The characters of `s`, in order.
pub fn chars_of(s: &str) -> (v: Vec<char>)
    ensures
        v@ == s@,
{
    let mut v: Vec<char> = Vec::new();
    for c in it: s.chars()
        invariant
            v@ == it.seq().take(it.index() as int),
            it.seq() == s@,
    {
        v.push(c);
    }
    v
}


/// `c` is one of the decimal digits `0` to `9`.
pub open spec fn is_digit(c: char) -> bool {
    '0' <= c && c <= '9'
}

/// The value of the decimal digit `c`.
pub open spec fn digit_value(c: char) -> nat {
    (c as nat - '0' as nat) as nat
}

/// Reads the digits of `s` from left to right onto the running value `acc`;
/// the first character that is no digit, or the first step that passes
/// `max`, decides the error.
pub open spec fn scan_digits(s: Seq<char>, acc: nat, max: nat) -> Result<nat, IntErrorKind>
    decreases s.len(),
{
    if s.len() == 0 {
        Ok(acc)
    } else if !is_digit(s[0]) {
        Err(IntErrorKind::InvalidDigit)
    } else if acc * 10 + digit_value(s[0]) > max {
        Err(IntErrorKind::PosOverflow)
    } else {
        scan_digits(s.drop_first(), acc * 10 + digit_value(s[0]), max)
    }
}

/// What reading `s` as an unsigned decimal integer of at most `max` gives:
/// an optional leading `+`, then one or more digits.
pub open spec fn parse_unsigned(s: Seq<char>, max: nat) -> Result<nat, IntErrorKind> {
    if s.len() == 0 {
        Err(IntErrorKind::Empty)
    } else if s.len() == 1 && (s[0] == '+' || s[0] == '-') {
        Err(IntErrorKind::InvalidDigit)
    } else if s[0] == '+' {
        scan_digits(s.drop_first(), 0, max)
    } else {
        scan_digits(s, 0, max)
    }
}

/// A successful read never passes the bound.
pub proof fn lemma_scan_digits_bounded(s: Seq<char>, acc: nat, max: nat)
    requires
        acc <= max,
    ensures
        scan_digits(s, acc, max) matches Ok(v) ==> v <= max,
    decreases s.len(),
{
    if s.len() > 0 && is_digit(s[0]) && acc * 10 + digit_value(s[0]) <= max {
        lemma_scan_digits_bounded(s.drop_first(), acc * 10 + digit_value(s[0]), max);
    }
}

proof fn lemma_step_fits(acc: u128, d: u128, max: u128)
    requires
        d <= 9,
    ensures
        (d <= max && acc <= (max - d) / 10) <==> acc * 10 + d <= max,
{
    if d <= max {
        assert((acc <= (max - d) / 10) <==> acc * 10 <= max - d) by (nonlinear_arith)
            requires
                d <= max,
        ;
    }
}

/// Reads `chars[start..]` as digits onto `acc`, as `scan_digits` says.
fn scan_digits_exec(chars: &Vec<char>, start: usize, max: u128) -> (r: Result<u128, IntErrorKind>)
    requires
        start <= chars@.len(),
    ensures
        match scan_digits(chars@.subrange(start as int, chars@.len() as int), 0, max as nat) {
            Ok(v) => r == Ok::<u128, IntErrorKind>(v as u128),
            Err(e) => r == Err::<u128, IntErrorKind>(e),
        },
{
    let mut acc: u128 = 0;
    let mut i = start;
    let ghost whole = chars@.subrange(start as int, chars@.len() as int);
    while i < chars.len()
        invariant
            start <= i <= chars@.len(),
            acc <= max,
            whole == chars@.subrange(start as int, chars@.len() as int),
            scan_digits(whole, 0, max as nat) == scan_digits(
                chars@.subrange(i as int, chars@.len() as int),
                acc as nat,
                max as nat,
            ),
        decreases chars@.len() - i,
    {
        let ghost rest = chars@.subrange(i as int, chars@.len() as int);
        assert(rest[0] == chars@[i as int]);
        assert(rest.drop_first() =~= chars@.subrange(i + 1, chars@.len() as int));
        let c = chars[i];
        if !('0' <= c && c <= '9') {
            return Err(IntErrorKind::InvalidDigit);
        }
        let d: u128 = (c as u32 - '0' as u32) as u128;
        assert(d == digit_value(c));
        proof {
            lemma_step_fits(acc, d, max);
        }
        if d > max || acc > (max - d) / 10 {
            return Err(IntErrorKind::PosOverflow);
        }
        acc = acc * 10 + d;
        i = i + 1;
    }
    assert(chars@.subrange(i as int, chars@.len() as int).len() == 0);
    Ok(acc)
}

/// Reads `s` as an unsigned decimal integer of at most `max`, with the
/// outcome and error kinds of std's integer parsing.
pub fn parse_bounded(s: &str, max: u128) -> (r: Result<u128, IntErrorKind>)
    ensures
        match parse_unsigned(s@, max as nat) {
            Ok(v) => r == Ok::<u128, IntErrorKind>(v as u128),
            Err(e) => r == Err::<u128, IntErrorKind>(e),
        },
{
    let chars = chars_of(s);
    if chars.len() == 0 {
        return Err(IntErrorKind::Empty);
    }
    if chars.len() == 1 && (chars[0] == '+' || chars[0] == '-') {
        return Err(IntErrorKind::InvalidDigit);
    }
    if chars[0] == '+' {
        assert(chars@.subrange(1, chars@.len() as int) =~= s@.drop_first());
        scan_digits_exec(&chars, 1, max)
    } else {
        assert(chars@.subrange(0, chars@.len() as int) =~= s@);
        scan_digits_exec(&chars, 0, max)
    }
}

/// `s` read as a `u8`, as `str::parse::<u8>` reads it.
pub fn parse_u8(s: &str) -> (r: Result<u8, IntErrorKind>)
    ensures
        match parse_unsigned(s@, 255) {
            Ok(v) => r == Ok::<u8, IntErrorKind>(v as u8),
            Err(e) => r == Err::<u8, IntErrorKind>(e),
        },
{
    match parse_bounded(s, 255) {
        Ok(v) => {
            proof {
                lemma_parse_bounded(s@, 255);
            }
            Ok(v as u8)
        },
        Err(e) => Err(e),
    }
}

/// `s` read as a `u32`, as `str::parse::<u32>` reads it.
pub fn parse_u32(s: &str) -> (r: Result<u32, IntErrorKind>)
    ensures
        match parse_unsigned(s@, u32::MAX as nat) {
            Ok(v) => r == Ok::<u32, IntErrorKind>(v as u32),
            Err(e) => r == Err::<u32, IntErrorKind>(e),
        },
{
    match parse_bounded(s, 0xffff_ffff) {
        Ok(v) => {
            proof {
                lemma_parse_bounded(s@, u32::MAX as nat);
            }
            Ok(v as u32)
        },
        Err(e) => Err(e),
    }
}

/// `s` read as a `u128`, as `str::parse::<u128>` reads it.
pub fn parse_u128(s: &str) -> (r: Result<u128, IntErrorKind>)
    ensures
        match parse_unsigned(s@, u128::MAX as nat) {
            Ok(v) => r == Ok::<u128, IntErrorKind>(v as u128),
            Err(e) => r == Err::<u128, IntErrorKind>(e),
        },
{
    parse_bounded(s, u128::MAX)
}

/// The number that a string of digits stands for in decimal.
pub open spec fn digits_value(s: Seq<char>) -> nat
    decreases s.len(),
{
    if s.len() == 0 {
        0
    } else {
        digits_value(s.drop_last()) * 10 + digit_value(s.last())
    }
}

/// Every character is a decimal digit.
pub open spec fn all_digits(s: Seq<char>) -> bool {
    forall|i: int| 0 <= i < s.len() ==> is_digit(#[trigger] s[i])
}

proof fn lemma_scan_from_zero(s: Seq<char>, max: nat)
    ensures
        scan_digits(s, 0, max) is Ok <==> (all_digits(s) && digits_value(s) <= max),
        scan_digits(s, 0, max) is Ok ==> scan_digits(s, 0, max) == Ok::<nat, IntErrorKind>(
            digits_value(s),
        ),
    decreases s.len(),
{
    if s.len() == 0 {
    } else {
        let s0 = s.drop_last();
        let c = s.last();
        lemma_scan_from_zero(s0, max);
        assert(s0.push(c) =~= s);
        lemma_scan_digits_push(s0, c, 0, max);
        assert(all_digits(s) <==> all_digits(s0) && is_digit(c)) by {
            if all_digits(s) {
                assert forall|i: int| 0 <= i < s0.len() implies is_digit(#[trigger] s0[i]) by {
                    assert(s0[i] == s[i]);
                }
                assert(is_digit(s[s.len() - 1]));
            }
            if all_digits(s0) && is_digit(c) {
                assert forall|i: int| 0 <= i < s.len() implies is_digit(#[trigger] s[i]) by {
                    if i < s.len() - 1 {
                        assert(s[i] == s0[i]);
                    }
                }
            }
        }
        assert(digits_value(s) == digits_value(s0) * 10 + digit_value(c));
    }
}

/// Reading an unsigned decimal integer succeeds exactly on one or more
/// digits, after at most one leading `+`, that stand for a number no larger
/// than the bound, and gives that number.
pub proof fn lemma_parse_accepts_digits(s: Seq<char>, max: nat)
    ensures
        ({
            let body = if s.len() > 0 && s[0] == '+' { s.drop_first() } else { s };
            &&& parse_unsigned(s, max) is Ok <==> (body.len() > 0 && all_digits(body) && digits_value(
                body,
            ) <= max)
            &&& parse_unsigned(s, max) is Ok ==> parse_unsigned(s, max) == Ok::<nat, IntErrorKind>(
                digits_value(body),
            )
        }),
        s.len() == 0 ==> parse_unsigned(s, max) == Err::<nat, IntErrorKind>(IntErrorKind::Empty),
{
    if s.len() > 0 {
        lemma_scan_from_zero(s, max);
        lemma_scan_from_zero(s.drop_first(), max);
        if s.len() == 1 && s[0] == '-' {
            assert(!is_digit(s[0]));
        }
    }
}

/// A number's decimal digits stand for the number: they are digits below
/// ten, the first is not zero unless the number is zero, and read back in
/// decimal they give the number.
pub proof fn lemma_decimal_stands_for(n: nat)
    ensures
        all_digits(decimal(n)),
        digits_value(decimal(n)) == n,
        decimal(n).len() >= 1,
        decimal(n)[0] == '0' ==> n == 0 && decimal(n).len() == 1,
    decreases n,
{
    lemma_decimal_chars(n);
    lemma_decimal_digits(n);
    if n < 10 {
        lemma_digit_char(n);
        assert(decimal(n) =~= seq![digit_char(n)]);
        assert(seq![digit_char(n)].drop_last() =~= Seq::<char>::empty());
        assert(digits_value(decimal(n)) == digits_value(Seq::<char>::empty()) * 10 + digit_value(
            digit_char(n),
        ));
    } else {
        lemma_decimal_stands_for(n / 10);
        let d = (n % 10) as nat;
        lemma_digit_char(d);
        assert(decimal(n) =~= decimal(n / 10).push(digit_char(d)));
        assert(decimal(n).drop_last() =~= decimal(n / 10));
        assert(decimal(n)[0] == decimal(n / 10)[0]);
        assert(decimal(n).last() == digit_char(d));
        assert(digits_value(decimal(n)) == digits_value(decimal(n / 10)) * 10 + d);
        assert((n / 10) * 10 + d == n);
    }
}

/// A successful read never passes its bound.
pub proof fn lemma_parse_bounded(s: Seq<char>, max: nat)
    ensures
        parse_unsigned(s, max) matches Ok(v) ==> v <= max,
{
    if s.len() > 0 {
        lemma_scan_digits_bounded(s, 0, max);
        lemma_scan_digits_bounded(s.drop_first(), 0, max);
    }
}


/// `c` has Unicode's White_Space property, which is what `char::is_whitespace`
/// and `str::trim` go by.
pub open spec fn is_whitespace(c: char) -> bool {
    let u = c as u32;
    ||| 0x09 <= u <= 0x0d
    ||| u == 0x20
    ||| u == 0x85
    ||| u == 0xa0
    ||| u == 0x1680
    ||| 0x2000 <= u <= 0x200a
    ||| u == 0x2028
    ||| u == 0x2029
    ||| u == 0x202f
    ||| u == 0x205f
    ||| u == 0x3000
}

/// Whether `c` is white space.
pub fn char_is_whitespace(c: char) -> (r: bool)
    ensures
        r == is_whitespace(c),
{
    let u = c as u32;
    (0x09 <= u && u <= 0x0d) || u == 0x20 || u == 0x85 || u == 0xa0 || u == 0x1680 || (0x2000
        <= u && u <= 0x200a) || u == 0x2028 || u == 0x2029 || u == 0x202f || u == 0x205f || u
        == 0x3000
}

/// `s` without its leading white space.
pub open spec fn trim_start(s: Seq<char>) -> Seq<char>
    decreases s.len(),
{
    if s.len() > 0 && is_whitespace(s[0]) {
        trim_start(s.drop_first())
    } else {
        s
    }
}

/// `s` without its trailing white space.
pub open spec fn trim_end(s: Seq<char>) -> Seq<char>
    decreases s.len(),
{
    if s.len() > 0 && is_whitespace(s.last()) {
        trim_end(s.drop_last())
    } else {
        s
    }
}

/// `s` without leading and trailing white space, as `str::trim` gives it.
pub open spec fn trim_spec(s: Seq<char>) -> Seq<char> {
    trim_end(trim_start(s))
}

/// `s` without leading and trailing white space.
pub fn trim(s: &str) -> (r: &str)
    ensures
        r@ == trim_spec(s@),
{
    let chars = chars_of(s);
    let n = chars.len();
    let mut i: usize = 0;
    assert(s@.subrange(0, n as int) =~= s@);
    while i < n && char_is_whitespace(chars[i])
        invariant
            i <= n,
            n == chars@.len(),
            chars@ == s@,
            trim_start(s@) == trim_start(s@.subrange(i as int, n as int)),
        decreases n - i,
    {
        let ghost rest = s@.subrange(i as int, n as int);
        assert(rest.drop_first() =~= s@.subrange(i + 1, n as int));
        i = i + 1;
    }
    assert(trim_start(s@) == s@.subrange(i as int, n as int));
    let mut j: usize = n;
    while j > i && char_is_whitespace(chars[j - 1])
        invariant
            i <= j <= n,
            n == chars@.len(),
            chars@ == s@,
            trim_end(s@.subrange(i as int, n as int)) == trim_end(
                s@.subrange(i as int, j as int),
            ),
        decreases j - i,
    {
        let ghost rest = s@.subrange(i as int, j as int);
        assert(rest.drop_last() =~= s@.subrange(i as int, j - 1));
        j = j - 1;
    }
    s.substring_char(i, j)
}

/// Trimming removes white space at both ends and nothing else: the result
/// is a stretch of `s` that neither starts nor ends with white space, and
/// everything cut off before and after it is white space.
pub proof fn lemma_trim_cuts_only_white_space(s: Seq<char>)
    ensures
        exists|i: int, j: int|
            {
                &&& 0 <= i <= j <= s.len()
                &&& trim_spec(s) == s.subrange(i, j)
                &&& forall|k: int| 0 <= k < i ==> is_whitespace(#[trigger] s[k])
                &&& forall|k: int| j <= k < s.len() ==> is_whitespace(#[trigger] s[k])
                &&& i < j ==> !is_whitespace(s[i]) && !is_whitespace(s[j - 1])
            },
{
    let i = lemma_trim_start_cut(s);
    let t = s.subrange(i, s.len() as int);
    let j = lemma_trim_end_cut(t);
    assert(trim_spec(s) == t.subrange(0, j));
    assert(t.subrange(0, j) =~= s.subrange(i, i + j));
    assert forall|k: int| i + j <= k < s.len() implies is_whitespace(#[trigger] s[k]) by {
        assert(s[k] == t[k - i]);
    }
    if 0 < j {
        assert(s[i] == t[0]);
        assert(s[i + j - 1] == t[j - 1]);
    }
    assert({
        &&& 0 <= i <= i + j <= s.len()
        &&& trim_spec(s) == s.subrange(i, i + j)
        &&& forall|k: int| 0 <= k < i ==> is_whitespace(#[trigger] s[k])
        &&& forall|k: int| i + j <= k < s.len() ==> is_whitespace(#[trigger] s[k])
        &&& i < i + j ==> !is_whitespace(s[i]) && !is_whitespace(s[i + j - 1])
    });
}

proof fn lemma_trim_start_cut(s: Seq<char>) -> (i: int)
    ensures
        0 <= i <= s.len(),
        trim_start(s) == s.subrange(i, s.len() as int),
        forall|k: int| 0 <= k < i ==> is_whitespace(#[trigger] s[k]),
        i < s.len() ==> !is_whitespace(s[i]),
    decreases s.len(),
{
    if s.len() > 0 && is_whitespace(s[0]) {
        let i0 = lemma_trim_start_cut(s.drop_first());
        assert(s.drop_first().subrange(i0, s.len() - 1) =~= s.subrange(i0 + 1, s.len() as int));
        assert forall|k: int| 0 <= k < i0 + 1 implies is_whitespace(#[trigger] s[k]) by {
            if k > 0 {
                assert(s[k] == s.drop_first()[k - 1]);
            }
        }
        if i0 + 1 < s.len() {
            assert(s[i0 + 1] == s.drop_first()[i0]);
        }
        i0 + 1
    } else {
        assert(s.subrange(0, s.len() as int) =~= s);
        0
    }
}

proof fn lemma_trim_end_cut(s: Seq<char>) -> (j: int)
    ensures
        0 <= j <= s.len(),
        trim_end(s) == s.subrange(0, j),
        forall|k: int| j <= k < s.len() ==> is_whitespace(#[trigger] s[k]),
        0 < j ==> !is_whitespace(s[j - 1]),
    decreases s.len(),
{
    if s.len() > 0 && is_whitespace(s.last()) {
        let j0 = lemma_trim_end_cut(s.drop_last());
        assert(s.drop_last().subrange(0, j0) =~= s.subrange(0, j0));
        assert forall|k: int| j0 <= k < s.len() implies is_whitespace(#[trigger] s[k]) by {
            if k < s.len() - 1 {
                assert(s[k] == s.drop_last()[k]);
            }
        }
        if 0 < j0 {
            assert(s[j0 - 1] == s.drop_last()[j0 - 1]);
        }
        j0
    } else {
        assert(s.subrange(0, s.len() as int) =~= s);
        s.len() as int
    }
}

/// `s` cut at every occurrence of `sep`, as `str::split` with a character
/// cuts it: one piece more than there are separators.
pub open spec fn split_spec(s: Seq<char>, sep: char) -> Seq<Seq<char>>
    decreases s.len(),
{
    if s.len() == 0 {
        seq![Seq::<char>::empty()]
    } else {
        let pieces = split_spec(s.drop_last(), sep);
        if s.last() == sep {
            pieces.push(Seq::<char>::empty())
        } else {
            pieces.update(pieces.len() - 1, pieces.last().push(s.last()))
        }
    }
}

/// The pieces joined back with `sep` between them.
pub open spec fn join_with(pieces: Seq<Seq<char>>, sep: char) -> Seq<char>
    decreases pieces.len(),
{
    if pieces.len() == 0 {
        Seq::empty()
    } else if pieces.len() == 1 {
        pieces[0]
    } else {
        join_with(pieces.drop_last(), sep) + seq![sep] + pieces.last()
    }
}

/// Cutting at `sep` loses nothing and cuts at every `sep`: no piece holds
/// `sep`, and joining the pieces with `sep` gives the text back.
pub proof fn lemma_split_rejoins(s: Seq<char>, sep: char)
    ensures
        split_spec(s, sep).len() >= 1,
        join_with(split_spec(s, sep), sep) == s,
        forall|i: int| 0 <= i < split_spec(s, sep).len() ==> !(#[trigger] split_spec(s, sep)[i]).contains(sep),
    decreases s.len(),
{
    if s.len() == 0 {
        assert(join_with(seq![Seq::<char>::empty()], sep) == Seq::<char>::empty());
        assert(s =~= Seq::<char>::empty());
    } else {
        let s0 = s.drop_last();
        let c = s.last();
        lemma_split_rejoins(s0, sep);
        let p = split_spec(s0, sep);
        assert(s =~= s0.push(c));
        if c == sep {
            let q = p.push(Seq::<char>::empty());
            assert(q.drop_last() =~= p);
            assert(join_with(q, sep) =~= s0 + seq![sep] + Seq::<char>::empty());
            assert(s0 + seq![sep] + Seq::<char>::empty() =~= s);
            assert forall|i: int| 0 <= i < q.len() implies !(#[trigger] q[i]).contains(sep) by {
                if i < p.len() {
                    assert(q[i] == p[i]);
                }
            }
        } else {
            let q = p.update(p.len() - 1, p.last().push(c));
            assert forall|i: int| 0 <= i < q.len() implies !(#[trigger] q[i]).contains(sep) by {
                if i < p.len() - 1 {
                    assert(q[i] == p[i]);
                } else {
                    assert(!p[p.len() - 1].contains(sep));
                    if q[i].contains(sep) {
                        let k = choose|k: int| 0 <= k < q[i].len() && q[i][k] == sep;
                        assert(k < p.last().len());
                        assert(p.last()[k] == sep);
                    }
                }
            }
            if p.len() == 1 {
                assert(q =~= seq![p[0].push(c)]);
                assert(join_with(q, sep) == p[0].push(c));
                assert(join_with(p, sep) == p[0]);
            } else {
                assert(q.drop_last() =~= p.drop_last());
                assert(join_with(q, sep) == join_with(p.drop_last(), sep) + seq![sep] + p.last().push(c));
                assert(join_with(p.drop_last(), sep) + seq![sep] + p.last().push(c) =~= (join_with(
                    p.drop_last(),
                    sep,
                ) + seq![sep] + p.last()).push(c));
            }
        }
    }
}

/// A cut always gives at least one piece.
pub proof fn lemma_split_nonempty(s: Seq<char>, sep: char)
    ensures
        split_spec(s, sep).len() >= 1,
    decreases s.len(),
{
    if s.len() > 0 {
        lemma_split_nonempty(s.drop_last(), sep);
    }
}

/// The views of a sequence of string slices.
pub open spec fn views_of(v: Seq<&str>) -> Seq<Seq<char>> {
    v.map_values(|p: &str| p@)
}

/// `s` cut at every `sep`.
pub fn split<'a>(s: &'a str, sep: char) -> (r: Vec<&'a str>)
    ensures
        views_of(r@) == split_spec(s@, sep),
{
    let chars = chars_of(s);
    let n = chars.len();
    let mut pieces: Vec<&'a str> = Vec::new();
    let mut start: usize = 0;
    let mut i: usize = 0;
    assert(views_of(pieces@) =~= Seq::<Seq<char>>::empty());
    assert(s@.subrange(0, 0) =~= Seq::<char>::empty());
    while i < n
        invariant
            start <= i <= n,
            n == chars@.len(),
            chars@ == s@,
            split_spec(s@.subrange(0, i as int), sep) == views_of(pieces@).push(
                s@.subrange(start as int, i as int),
            ),
        decreases n - i,
    {
        let ghost prefix = s@.subrange(0, i + 1);
        assert(prefix.drop_last() =~= s@.subrange(0, i as int));
        assert(prefix.last() == chars@[i as int]);
        proof {
            lemma_split_nonempty(s@.subrange(0, i as int), sep);
        }
        if chars[i] == sep {
            let piece = s.substring_char(start, i);
            let ghost before = pieces@;
            pieces.push(piece);
            start = i + 1;
            assert(views_of(pieces@) =~= views_of(before).push(piece@));
            assert(s@.subrange(start as int, i + 1) =~= Seq::<char>::empty());
            assert(split_spec(prefix, sep) =~= views_of(pieces@).push(
                s@.subrange(start as int, i + 1),
            ));
        } else {
            let ghost prev = views_of(pieces@).push(s@.subrange(start as int, i as int));
            assert(s@.subrange(start as int, i + 1) =~= s@.subrange(start as int, i as int).push(
                chars@[i as int],
            ));
            assert(prev.update(prev.len() - 1, prev.last().push(chars@[i as int])) =~= views_of(
                pieces@,
            ).push(s@.subrange(start as int, i + 1)));
        }
        i = i + 1;
    }
    let last = s.substring_char(start, n);
    pieces.push(last);
    assert(s@.subrange(0, n as int) =~= s@);
    assert(views_of(pieces@) =~= views_of(pieces@.drop_last()).push(last@));
    pieces
}


/// `l` without one trailing carriage return.
pub open spec fn strip_cr(l: Seq<char>) -> Seq<char> {
    if l.len() > 0 && l.last() == '\r' {
        l.drop_last()
    } else {
        l
    }
}

/// The lines of `s` as `BufRead::lines` yields them: cut at each `'\n'`, a
/// `'\r'` just before the `'\n'` dropped, and no line after a final `'\n'`.
pub open spec fn lines_spec(s: Seq<char>) -> Seq<Seq<char>> {
    let pieces = split_spec(s, '\n');
    let ended = pieces.drop_last().map_values(|l: Seq<char>| strip_cr(l));
    if pieces.last().len() == 0 {
        ended
    } else {
        ended.push(pieces.last())
    }
}

/// `l` without one trailing carriage return.
fn strip_cr_exec<'a>(l: &'a str) -> (r: &'a str)
    ensures
        r@ == strip_cr(l@),
{
    let n = l.unicode_len();
    if n > 0 && l.get_char(n - 1) == '\r' {
        l.substring_char(0, n - 1)
    } else {
        l.substring_char(0, n)
    }
}

/// The lines of `s`.
pub fn lines<'a>(s: &'a str) -> (r: Vec<&'a str>)
    ensures
        views_of(r@) == lines_spec(s@),
{
    let pieces = split(s, '\n');
    proof {
        lemma_split_nonempty(s@, '\n');
    }
    let ghost ps = split_spec(s@, '\n');
    let ghost ended = ps.drop_last().map_values(|l: Seq<char>| strip_cr(l));
    let count = pieces.len() - 1;
    let mut out: Vec<&'a str> = Vec::new();
    let mut k: usize = 0;
    while k < count
        invariant
            k <= count,
            count + 1 == pieces@.len(),
            views_of(pieces@) == ps,
            ended == ps.drop_last().map_values(|l: Seq<char>| strip_cr(l)),
            views_of(out@) == ended.take(k as int),
        decreases count - k,
    {
        assert(views_of(pieces@)[k as int] == pieces@[k as int]@);
        let line = strip_cr_exec(pieces[k]);
        let ghost before = out@;
        out.push(line);
        assert(views_of(out@) =~= views_of(before).push(line@));
        assert(ended.take(k + 1) =~= ended.take(k as int).push(ended[k as int]));
        k = k + 1;
    }
    assert(ended.take(count as int) =~= ended);
    let last = pieces[count];
    assert(views_of(pieces@)[count as int] == last@);
    if last.unicode_len() == 0 {
        out
    } else {
        let ghost before = out@;
        out.push(last);
        assert(views_of(out@) =~= views_of(before).push(last@));
        out
    }
}

/// The digit character for a value below ten.
pub open spec fn digit_char(d: nat) -> char {
    (d + '0' as nat) as char
}

/// The decimal digits of `n`, most significant first, without leading zeros
/// (a single `0` for zero).
pub open spec fn decimal_digits(n: nat) -> Seq<nat>
    decreases n,
{
    if n < 10 {
        seq![n]
    } else {
        decimal_digits(n / 10).push(n % 10)
    }
}

/// `n` written in decimal, as `to_string` writes an unsigned integer.
pub open spec fn decimal(n: nat) -> Seq<char> {
    decimal_digits(n).map_values(|d: nat| digit_char(d))
}

/// Every decimal digit is below ten, and there is at least one.
pub proof fn lemma_decimal_digits(n: nat)
    ensures
        decimal_digits(n).len() >= 1,
        forall|i: int| 0 <= i < decimal_digits(n).len() ==> #[trigger] decimal_digits(n)[i] < 10,
    decreases n,
{
    if n >= 10 {
        lemma_decimal_digits(n / 10);
    }
}

/// A number below `10^k` has at most `k` digits.
pub proof fn lemma_decimal_digits_len(n: nat, k: nat)
    requires
        n < pow10(k),
        k >= 1,
    ensures
        decimal_digits(n).len() <= k,
    decreases n,
{
    if n >= 10 {
        assert(k >= 2) by {
            if k == 1 {
                reveal_with_fuel(pow10, 2);
            }
        }
        assert(n / 10 < pow10((k - 1) as nat)) by {
            assert(pow10(k) == 10 * pow10((k - 1) as nat));
        }
        lemma_decimal_digits_len(n / 10, (k - 1) as nat);
    }
}

/// Ten to the power `k`.
pub open spec fn pow10(k: nat) -> nat
    decreases k,
{
    if k == 0 {
        1
    } else {
        10 * pow10((k - 1) as nat)
    }
}

/// The one-character string for a decimal digit.
fn digit_str(d: u128) -> (r: &'static str)
    requires
        d < 10,
    ensures
        r@ == seq![digit_char(d as nat)],
{
    proof {
        reveal_strlit("0");
        reveal_strlit("1");
        reveal_strlit("2");
        reveal_strlit("3");
        reveal_strlit("4");
        reveal_strlit("5");
        reveal_strlit("6");
        reveal_strlit("7");
        reveal_strlit("8");
        reveal_strlit("9");
    }
    if d == 0 {
        "0"
    } else if d == 1 {
        "1"
    } else if d == 2 {
        "2"
    } else if d == 3 {
        "3"
    } else if d == 4 {
        "4"
    } else if d == 5 {
        "5"
    } else if d == 6 {
        "6"
    } else if d == 7 {
        "7"
    } else if d == 8 {
        "8"
    } else {
        "9"
    }
}

/// The decimal digits of `n`, most significant first.
pub fn digits_of(n: u128) -> (r: Vec<u128>)
    ensures
        r@.map_values(|d: u128| d as nat) == decimal_digits(n as nat),
{
    let mut rev: Vec<u128> = Vec::new();
    let mut m = n;
    // digits of n == digits of m followed by the reverse of rev
    let ghost mut tail: Seq<nat> = Seq::empty();
    while m >= 10
        invariant
            decimal_digits(n as nat) == decimal_digits(m as nat) + tail,
            rev@.len() == tail.len(),
            forall|i: int| 0 <= i < tail.len() ==> #[trigger] tail[i] == rev@[tail.len() - 1 - i] as nat,
        decreases m,
    {
        let d = m % 10;
        proof {
            assert(decimal_digits(m as nat) == decimal_digits((m / 10) as nat).push((m % 10) as nat));
            assert(decimal_digits((m / 10) as nat).push((m % 10) as nat) + tail =~= decimal_digits(
                (m / 10) as nat,
            ) + seq![(m % 10) as nat].add(tail));
            tail = seq![d as nat].add(tail);
        }
        rev.push(d);
        m = m / 10;
    }
    rev.push(m);
    proof {
        tail = seq![m as nat].add(tail);
        assert(decimal_digits(n as nat) =~= tail);
    }
    let mut out: Vec<u128> = Vec::new();
    let mut k = rev.len();
    while k > 0
        invariant
            k <= rev@.len(),
            rev@.len() == tail.len(),
            forall|i: int| 0 <= i < tail.len() ==> #[trigger] tail[i] == rev@[tail.len() - 1 - i] as nat,
            out@.len() + k == rev@.len(),
            forall|i: int| 0 <= i < out@.len() ==> #[trigger] out@[i] as nat == tail[i],
        decreases k,
    {
        k = k - 1;
        out.push(rev[k]);
    }
    assert(out@.map_values(|d: u128| d as nat) =~= tail);
    out
}

/// `n` written in decimal.
pub fn u128_to_string(n: u128) -> (r: String)
    ensures
        r@ == decimal(n as nat),
{
    let digits = digits_of(n);
    proof {
        lemma_decimal_digits(n as nat);
    }
    let mut out = String::new();
    let mut i: usize = 0;
    while i < digits.len()
        invariant
            i <= digits@.len(),
            digits@.map_values(|d: u128| d as nat) == decimal_digits(n as nat),
            forall|j: int| 0 <= j < decimal_digits(n as nat).len() ==> #[trigger] decimal_digits(
                n as nat,
            )[j] < 10,
            out@ == decimal(n as nat).take(i as int),
        decreases digits@.len() - i,
    {
        assert(digits@.map_values(|d: u128| d as nat)[i as int] == digits@[i as int] as nat);
        let piece = digit_str(digits[i]);
        out.append(piece);
        assert(decimal(n as nat).take(i + 1) =~= decimal(n as nat).take(i as int).push(
            digit_char(digits@[i as int] as nat),
        ));
        i = i + 1;
    }
    assert(decimal(n as nat).take(i as int) =~= decimal(n as nat));
    out
}


/// Whether two texts hold the same characters.
pub fn same_text(a: &str, b: &str) -> (r: bool)
    ensures
        r == (a@ == b@),
{
    let x = chars_of(a);
    let y = chars_of(b);
    if x.len() != y.len() {
        return false;
    }
    let mut i: usize = 0;
    while i < x.len()
        invariant
            i <= x@.len(),
            x@.len() == y@.len(),
            x@ == a@,
            y@ == b@,
            forall|j: int| 0 <= j < i ==> x@[j] == y@[j],
        decreases x@.len() - i,
    {
        if x[i] != y[i] {
            return false;
        }
        i = i + 1;
    }
    assert(a@ =~= b@);
    true
}

/// `a` comes no later than `b` in the order of `String`'s `Ord`: character by
/// character on code points, a proper prefix first. (UTF-8 keeps the order of
/// code points, so this is the byte order that `String` compares by.)
pub open spec fn text_le(a: Seq<char>, b: Seq<char>) -> bool
    decreases a.len(),
{
    if a.len() == 0 {
        true
    } else if b.len() == 0 {
        false
    } else if a[0] != b[0] {
        (a[0] as int) < (b[0] as int)
    } else {
        text_le(a.drop_first(), b.drop_first())
    }
}

/// `a` comes before `b` at position `k`: they agree before it and `a`'s
/// character there is the smaller.
pub open spec fn differs_first_at(a: Seq<char>, b: Seq<char>, k: int) -> bool {
    &&& 0 <= k < a.len()
    &&& k < b.len()
    &&& a.take(k) == b.take(k)
    &&& (a[k] as int) < (b[k] as int)
}

/// The order of texts is the lexicographic order on code points: `a` is no
/// later than `b` exactly when `a` is a prefix of `b`, or at the first
/// position where they differ `a` has the smaller character.
pub proof fn lemma_text_le_lexicographic(a: Seq<char>, b: Seq<char>)
    ensures
        text_le(a, b) <==> ((a.len() <= b.len() && a == b.take(a.len() as int)) || exists|k: int|
            differs_first_at(a, b, k)),
    decreases a.len(),
{
    if a.len() == 0 {
        assert(a =~= b.take(0));
    } else if b.len() == 0 {
        assert forall|k: int| !differs_first_at(a, b, k) by {}
    } else if a[0] != b[0] {
        assert(a.len() <= b.len() ==> a[0] != b.take(a.len() as int)[0]);
        assert forall|k: int| 0 < k && differs_first_at(a, b, k) implies false by {
            assert(a.take(k)[0] == b.take(k)[0]);
        }
        if (a[0] as int) < (b[0] as int) {
            assert(a.take(0) =~= b.take(0));
            assert(differs_first_at(a, b, 0));
        }
    } else {
        let a1 = a.drop_first();
        let b1 = b.drop_first();
        lemma_text_le_lexicographic(a1, b1);
        // prefixes
        if a.len() <= b.len() && a == b.take(a.len() as int) {
            assert(a1 =~= b1.take(a1.len() as int));
        }
        if a1.len() <= b1.len() && a1 == b1.take(a1.len() as int) {
            assert forall|i: int| 0 <= i < a.len() implies a[i] == b.take(a.len() as int)[i] by {
                if i > 0 {
                    assert(a[i] == a1[i - 1]);
                    assert(b1.take(a1.len() as int)[i - 1] == b[i]);
                }
            }
            assert(a =~= b.take(a.len() as int));
        }
        // first differences
        assert forall|k: int| differs_first_at(a, b, k) implies differs_first_at(a1, b1, k - 1) by {
            if k == 0 {
                assert(false);
            }
            assert(a1.take(k - 1) =~= a.take(k).drop_first());
            assert(b1.take(k - 1) =~= b.take(k).drop_first());
        }
        assert forall|k: int| differs_first_at(a1, b1, k) implies differs_first_at(a, b, k + 1) by {
            assert(a.take(k + 1) =~= seq![a[0]] + a1.take(k));
            assert(b.take(k + 1) =~= seq![b[0]] + b1.take(k));
        }
        if exists|k: int| differs_first_at(a, b, k) {
            let k = choose|k: int| differs_first_at(a, b, k);
            assert(differs_first_at(a1, b1, k - 1));
        }
        if exists|k: int| differs_first_at(a1, b1, k) {
            let k = choose|k: int| differs_first_at(a1, b1, k);
            assert(differs_first_at(a, b, k + 1));
        }
    }
}

/// The order of texts is total.
pub proof fn lemma_text_le_total(a: Seq<char>, b: Seq<char>)
    ensures
        text_le(a, b) || text_le(b, a),
    decreases a.len(),
{
    if a.len() > 0 && b.len() > 0 && a[0] == b[0] {
        lemma_text_le_total(a.drop_first(), b.drop_first());
    }
}

/// The order of texts is transitive.
pub proof fn lemma_text_le_transitive(a: Seq<char>, b: Seq<char>, c: Seq<char>)
    requires
        text_le(a, b),
        text_le(b, c),
    ensures
        text_le(a, c),
    decreases a.len(),
{
    if a.len() > 0 && b.len() > 0 && c.len() > 0 && a[0] == b[0] && b[0] == c[0] {
        lemma_text_le_transitive(a.drop_first(), b.drop_first(), c.drop_first());
    }
}

/// The order of texts is reflexive.
pub proof fn lemma_text_le_reflexive(a: Seq<char>)
    ensures
        text_le(a, a),
    decreases a.len(),
{
    if a.len() > 0 {
        lemma_text_le_reflexive(a.drop_first());
    }
}

/// Whether `a` comes no later than `b`.
pub fn text_le_exec(a: &str, b: &str) -> (r: bool)
    ensures
        r == text_le(a@, b@),
{
    let x = chars_of(a);
    let y = chars_of(b);
    let mut i: usize = 0;
    assert(a@.skip(0) =~= a@);
    assert(b@.skip(0) =~= b@);
    while i < x.len() && i < y.len()
        invariant
            i <= x@.len(),
            i <= y@.len(),
            x@ == a@,
            y@ == b@,
            text_le(a@, b@) == text_le(a@.skip(i as int), b@.skip(i as int)),
        decreases x@.len() - i,
    {
        assert(a@.skip(i as int)[0] == x@[i as int]);
        assert(b@.skip(i as int)[0] == y@[i as int]);
        if x[i] != y[i] {
            return x[i] < y[i];
        }
        assert(a@.skip(i as int).drop_first() =~= a@.skip(i + 1));
        assert(b@.skip(i as int).drop_first() =~= b@.skip(i + 1));
        i = i + 1;
    }
    i == x.len()
}


/// Cutting a joined text: the pieces of `x`, with its last piece joined to
/// the first piece of `y`, then the other pieces of `y`.
pub proof fn lemma_split_concat(x: Seq<char>, y: Seq<char>, sep: char)
    ensures
        split_spec(x + y, sep) == split_spec(x, sep).drop_last().push(
            split_spec(x, sep).last() + split_spec(y, sep)[0],
        ) + split_spec(y, sep).drop_first(),
    decreases y.len(),
{
    lemma_split_nonempty(x, sep);
    lemma_split_nonempty(y, sep);
    let px = split_spec(x, sep);
    if y.len() == 0 {
        assert(x + y =~= x);
        assert(px.last() + Seq::<char>::empty() =~= px.last());
        assert(px.drop_last().push(px.last()) =~= px);
        assert(split_spec(y, sep).drop_first() =~= Seq::<Seq<char>>::empty());
        assert(px.drop_last().push(px.last() + split_spec(y, sep)[0]) + split_spec(y, sep).drop_first() =~= px);
    } else {
        let y0 = y.drop_last();
        let c = y.last();
        lemma_split_concat(x, y0, sep);
        lemma_split_nonempty(y0, sep);
        assert((x + y).drop_last() =~= x + y0);
        assert((x + y).last() == c);
        let p0 = split_spec(y0, sep);
        let whole0 = split_spec(x + y0, sep);
        assert(whole0 == px.drop_last().push(px.last() + p0[0]) + p0.drop_first());
        if c == sep {
            assert(split_spec(y, sep) == p0.push(Seq::<char>::empty()));
            assert(split_spec(y, sep)[0] == p0[0]);
            assert(split_spec(y, sep).drop_first() =~= p0.drop_first().push(Seq::<char>::empty()));
            assert(split_spec(x + y, sep) =~= px.drop_last().push(px.last() + split_spec(y, sep)[0])
                + split_spec(y, sep).drop_first());
        } else {
            assert(split_spec(y, sep) == p0.update(p0.len() - 1, p0.last().push(c)));
            if p0.len() == 1 {
                assert(split_spec(y, sep)[0] == p0[0].push(c));
                assert(px.last() + p0[0].push(c) =~= (px.last() + p0[0]).push(c));
                assert(split_spec(y, sep).drop_first() =~= Seq::<Seq<char>>::empty());
                assert(p0.drop_first() =~= Seq::<Seq<char>>::empty());
                assert(split_spec(x + y, sep) =~= px.drop_last().push(px.last() + split_spec(y, sep)[0])
                    + split_spec(y, sep).drop_first());
            } else {
                assert(split_spec(y, sep)[0] == p0[0]);
                assert(split_spec(y, sep).drop_first() =~= p0.drop_first().update(
                    p0.len() - 2,
                    p0.last().push(c),
                ));
                assert(split_spec(x + y, sep) =~= px.drop_last().push(px.last() + split_spec(y, sep)[0])
                    + split_spec(y, sep).drop_first());
            }
        }
    }
}

/// A text without the separator is a single piece.
pub proof fn lemma_split_without_sep(x: Seq<char>, sep: char)
    requires
        !x.contains(sep),
    ensures
        split_spec(x, sep) == seq![x],
    decreases x.len(),
{
    if x.len() > 0 {
        assert(!x.drop_last().contains(sep)) by {
            if x.drop_last().contains(sep) {
                let k = choose|k: int| 0 <= k < x.drop_last().len() && x.drop_last()[k] == sep;
                assert(x[k] == sep);
            }
        }
        lemma_split_without_sep(x.drop_last(), sep);
        assert(x.last() != sep) by {
            assert(x[x.len() - 1] == x.last());
        }
        assert(x.drop_last().push(x.last()) =~= x);
        assert(seq![x.drop_last()].update(0, x.drop_last().push(x.last())) =~= seq![x]);
    } else {
        assert(x =~= Seq::<char>::empty());
    }
}

/// Reading one more character after a prefix: the prefix's outcome, then
/// one step on the character.
pub proof fn lemma_scan_digits_push(s: Seq<char>, c: char, acc: nat, max: nat)
    ensures
        scan_digits(s.push(c), acc, max) == match scan_digits(s, acc, max) {
            Ok(v) => if !is_digit(c) {
                Err(IntErrorKind::InvalidDigit)
            } else if v * 10 + digit_value(c) > max {
                Err(IntErrorKind::PosOverflow)
            } else {
                Ok(v * 10 + digit_value(c))
            },
            Err(e) => Err(e),
        },
    decreases s.len(),
{
    reveal_with_fuel(scan_digits, 2);
    if s.len() == 0 {
        assert(seq![c].drop_first() =~= Seq::<char>::empty());
        assert(s.push(c) =~= seq![c]);
    } else {
        assert(s.push(c)[0] == s[0]);
        assert(s.push(c).drop_first() =~= s.drop_first().push(c));
        if is_digit(s[0]) && acc * 10 + digit_value(s[0]) <= max {
            lemma_scan_digits_push(s.drop_first(), c, acc * 10 + digit_value(s[0]), max);
        }
    }
}

/// A digit character stands for its digit.
pub proof fn lemma_digit_char(d: nat)
    requires
        d < 10,
    ensures
        is_digit(digit_char(d)),
        digit_value(digit_char(d)) == d,
        digit_char(d) != '+',
        digit_char(d) != '-',
        digit_char(d) != ',',
        digit_char(d) != '\n',
        digit_char(d) != '\r',
{
}

/// The digits of a number are all digit characters, at least one.
pub proof fn lemma_decimal_chars(n: nat)
    ensures
        decimal(n).len() >= 1,
        forall|i: int| 0 <= i < decimal(n).len() ==> is_digit(#[trigger] decimal(n)[i]),
{
    lemma_decimal_digits(n);
    assert forall|i: int| 0 <= i < decimal(n).len() implies is_digit(#[trigger] decimal(n)[i]) by {
        lemma_digit_char(decimal_digits(n)[i]);
    }
}

/// A number written in decimal reads back as itself.
pub proof fn lemma_parse_decimal(n: nat, max: nat)
    requires
        n <= max,
    ensures
        parse_unsigned(decimal(n), max) == Ok::<nat, IntErrorKind>(n),
{
    lemma_scan_decimal(n, max);
    lemma_decimal_chars(n);
    lemma_decimal_digits(n);
    lemma_digit_char(decimal_digits(n)[0]);
    assert(decimal(n)[0] == digit_char(decimal_digits(n)[0]));
}

proof fn lemma_scan_decimal(n: nat, max: nat)
    requires
        n <= max,
    ensures
        scan_digits(decimal(n), 0, max) == Ok::<nat, IntErrorKind>(n),
    decreases n,
{
    reveal_with_fuel(scan_digits, 2);
    if n < 10 {
        lemma_digit_char(n);
        assert(decimal(n) =~= seq![digit_char(n)]);
        assert(seq![digit_char(n)].drop_first() =~= Seq::<char>::empty());
    } else {
        lemma_scan_decimal(n / 10, max);
        let d = (n % 10) as nat;
        lemma_digit_char(d);
        assert(decimal(n) =~= decimal(n / 10).push(digit_char(d)));
        lemma_scan_digits_push(decimal(n / 10), digit_char(d), 0, max);
        assert((n / 10) * 10 + d == n);
    }
}

} // verus!
