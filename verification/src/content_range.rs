//! HTTP range headers: `Range: bytes=start-end` and
//! `Content-Range: bytes start-end/length`, parsed strictly.

use vstd::prelude::*;

use core::str::FromStr;

use vstd::string::StringExecFns;
use vstd::string::StringSliceAdditionalSpecFns;

verus! {

#[derive(PartialEq, Debug)]
pub struct ContentRange {
    pub start: u64,
    pub end: u64,
    pub length: Option<u64>,
}

#[derive(PartialEq, Debug)]
pub struct Range {
    pub start: u64,
    pub end: u64,
}

// ---------------------------------------------------------------------
// Byte-level grammar.
// ---------------------------------------------------------------------

/// ASCII whitespace, as header tokens are separated by.
pub open spec fn ws(b: u8) -> bool {
    b == 32 || b == 9 || b == 10 || b == 13 || b == 11 || b == 12
}

pub open spec fn digit(b: u8) -> bool {
    48 <= b <= 57
}

/// The number a string of decimal digits denotes.
pub open spec fn dec_val(s: Seq<u8>) -> int
    decreases s.len(),
{
    if s.len() == 0 {
        0
    } else {
        dec_val(s.drop_last()) * 10 + (s.last() - 48)
    }
}

pub open spec fn all_digits(s: Seq<u8>) -> bool {
    forall|i: int| 0 <= i < s.len() ==> digit(#[trigger] s[i])
}

/// What `str::parse::<u64>` accepts: an optional leading plus sign, then
/// one or more digits denoting a value that fits in 64 bits.
pub open spec fn spec_parse_u64(s: Seq<u8>) -> Option<u64> {
    let body = if s.len() > 0 && s[0] == 43 {
        s.drop_first()
    } else {
        s
    };
    if body.len() > 0 && all_digits(body) && dec_val(body) <= u64::MAX {
        Some(dec_val(body) as u64)
    } else {
        None
    }
}

/// The first non-whitespace position at or after `from` (the length when
/// only whitespace remains).
pub open spec fn first_nonws(s: Seq<u8>, from: int) -> int
    decreases s.len() - from,
{
    if from < 0 || from >= s.len() {
        s.len() as int
    } else if !ws(s[from]) {
        from
    } else {
        first_nonws(s, from + 1)
    }
}

/// The end of the token starting at `from`: the first whitespace position
/// at or after it (the length when the token runs to the end).
pub open spec fn token_end(s: Seq<u8>, from: int) -> int
    decreases s.len() - from,
{
    if from < 0 || from >= s.len() {
        s.len() as int
    } else if ws(s[from]) {
        from
    } else {
        token_end(s, from + 1)
    }
}

/// The first occurrence of a byte at or after `from`, if any.
pub open spec fn first_byte(s: Seq<u8>, from: int, b: u8) -> Option<int>
    decreases s.len() - from,
{
    if from < 0 || from >= s.len() {
        None
    } else if s[from] == b {
        Some(from)
    } else {
        first_byte(s, from + 1, b)
    }
}

/// The bytes of `bytes=`.
pub open spec fn range_prefix() -> Seq<u8> {
    seq![98u8, 121, 116, 101, 115, 61]
}

/// The bytes of `bytes`.
pub open spec fn bytes_word() -> Seq<u8> {
    seq![98u8, 121, 116, 101, 115]
}

/// What a `start-end` pair denotes: exactly one dash, both sides numbers.
pub open spec fn spec_parse_pair(s: Seq<u8>) -> Option<(u64, u64)> {
    match first_byte(s, 0, 45) {
        None => None,
        Some(d) => {
            if first_byte(s, d + 1, 45) is Some {
                None
            } else {
                match (spec_parse_u64(s.take(d)), spec_parse_u64(s.skip(d + 1))) {
                    (Some(a), Some(b)) => Some((a, b)),
                    _ => None,
                }
            }
        },
    }
}

/// What a `Range` header denotes: the prefix `bytes=`, then a start-end
/// pair.
pub open spec fn spec_parse_range(s: Seq<u8>) -> Option<(u64, u64)> {
    if s.len() < 6 || s.subrange(0, 6) != range_prefix() {
        None
    } else {
        spec_parse_pair(s.skip(6))
    }
}

/// What the size slot of a `Content-Range` denotes: `*` for unknown, else
/// a number.
pub open spec fn spec_parse_size(s: Seq<u8>) -> Option<Option<u64>> {
    if s == seq![42u8] {
        Some(None)
    } else {
        match spec_parse_u64(s) {
            Some(v) => Some(Some(v)),
            None => None,
        }
    }
}

/// What a `Content-Range` header denotes: exactly two whitespace-separated
/// tokens, the first being `bytes`, the second `start-end/size` with
/// exactly one slash.
pub open spec fn spec_parse_content_range(s: Seq<u8>) -> Option<(u64, u64, Option<u64>)> {
    let a = first_nonws(s, 0);
    let b = token_end(s, a);
    let c = first_nonws(s, b);
    let d = token_end(s, c);
    let e = first_nonws(s, d);
    if s.subrange(a, b) != bytes_word() || c >= s.len() || e != s.len() {
        None
    } else {
        let tok = s.subrange(c, d);
        match first_byte(tok, 0, 47) {
            None => None,
            Some(sl) => {
                if first_byte(tok, sl + 1, 47) is Some {
                    None
                } else {
                    match (spec_parse_pair(tok.take(sl)), spec_parse_size(tok.skip(sl + 1))) {
                        (Some(p), Some(size)) => Some((p.0, p.1, size)),
                        _ => None,
                    }
                }
            },
        }
    }
}

// ---------------------------------------------------------------------
// Executable parsing.
// ---------------------------------------------------------------------

proof fn lemma_dec_val_nonneg(s: Seq<u8>)
    requires
        all_digits(s),
    ensures
        dec_val(s) >= 0,
    decreases s.len(),
{
    if s.len() > 0 {
        assert(all_digits(s.drop_last())) by {
            assert(forall|i: int|
                0 <= i < s.drop_last().len() ==> #[trigger] s.drop_last()[i] == s[i]);
        }
        lemma_dec_val_nonneg(s.drop_last());
    }
}

proof fn lemma_dec_val_take_le(s: Seq<u8>, i: int)
    requires
        all_digits(s),
        0 <= i <= s.len(),
    ensures
        dec_val(s.take(i)) <= dec_val(s),
    decreases s.len() - i,
{
    if i == s.len() {
        assert(s.take(i) =~= s);
    } else {
        assert(s.take(i + 1).drop_last() =~= s.take(i));
        assert(all_digits(s.take(i))) by {
            assert(forall|t: int| 0 <= t < i ==> #[trigger] s.take(i)[t] == s[t]);
        }
        lemma_dec_val_nonneg(s.take(i));
        assert(digit(s[i]));
        assert(dec_val(s.take(i + 1)) == dec_val(s.take(i)) * 10 + (s[i] - 48));
        assert(dec_val(s.take(i)) <= dec_val(s.take(i)) * 10) by (nonlinear_arith)
            requires
                dec_val(s.take(i)) >= 0,
        ;
        lemma_dec_val_take_le(s, i + 1);
    }
}

/// Parses a decimal number the way `str::parse::<u64>` would.
fn parse_u64(s: &[u8]) -> (r: Option<u64>)
    ensures
        r == spec_parse_u64(s@),
{
    let n = s.len();
    let start: usize = if n > 0 && s[0] == 43 {
        1
    } else {
        0
    };
    let ghost body = if s@.len() > 0 && s@[0] == 43 {
        s@.drop_first()
    } else {
        s@
    };
    proof {
        assert(body =~= s@.subrange(start as int, n as int));
    }
    if start == n {
        return None;
    }
    let mut acc: u64 = 0;
    let mut i: usize = start;
    proof {
        assert(body.take(0) =~= Seq::<u8>::empty());
    }
    while i < n
        invariant
            n == s@.len(),
            start <= i <= n,
            start < n,
            body == s@.subrange(start as int, n as int),
            body == (if s@.len() > 0 && s@[0] == 43 {
                s@.drop_first()
            } else {
                s@
            }),
            all_digits(body.take(i - start)),
            acc == dec_val(body.take(i - start)),
        decreases n - i,
    {
        let b = s[i];
        if b < 48 || b > 57 {
            proof {
                assert(body[i - start] == b);
                assert(!digit(body[i - start]));
                assert(!all_digits(body));
            }
            return None;
        }
        let d: u64 = (b - 48) as u64;
        if acc > (u64::MAX - d) / 10 {
            proof {
                assert(body.take(i - start + 1).drop_last() =~= body.take(i - start));
                assert(body[i - start] == b);
                assert(all_digits(body.take(i - start + 1))) by {
                    assert(forall|t: int|
                        0 <= t < i - start + 1 ==> #[trigger] body.take(i - start + 1)[t]
                            == body[t]);
                }
                assert(dec_val(body.take(i - start + 1)) == acc * 10 + d);
                assert(acc * 10 + d > u64::MAX) by (nonlinear_arith)
                    requires
                        acc > (u64::MAX - d) / 10,
                        0 <= d <= 9,
                        0 <= acc,
                ;
                assert(spec_parse_u64(s@) is None) by {
                    if all_digits(body) {
                        lemma_dec_val_take_le(body, i - start + 1);
                        assert(dec_val(body) > u64::MAX);
                    }
                }
            }
            return None;
        }
        proof {
            assert(acc * 10 + d <= u64::MAX) by (nonlinear_arith)
                requires
                    acc <= (u64::MAX - d) / 10,
                    0 <= d <= 9,
                    0 <= acc,
            ;
            assert(body.take(i - start + 1).drop_last() =~= body.take(i - start));
            assert(body[i - start] == b);
            assert(all_digits(body.take(i - start + 1))) by {
                assert(forall|t: int|
                    0 <= t < i - start + 1 ==> #[trigger] body.take(i - start + 1)[t] == body[t]);
            }
        }
        acc = acc * 10 + d;
        i = i + 1;
    }
    proof {
        assert(body.take(n - start) =~= body);
    }
    Some(acc)
}

/// The first occurrence of a byte at or after `from`.
fn find_byte(s: &[u8], from: usize, b: u8) -> (r: Option<usize>)
    requires
        from <= s@.len(),
    ensures
        match r {
            Some(i) => first_byte(s@, from as int, b) == Some(i as int) && from <= i < s@.len(),
            None => first_byte(s@, from as int, b) is None,
        },
{
    let n = s.len();
    let mut i: usize = from;
    while i < n
        invariant
            n == s@.len(),
            from <= i <= n,
            first_byte(s@, from as int, b) == first_byte(s@, i as int, b),
        decreases n - i,
    {
        if s[i] == b {
            return Some(i);
        }
        i = i + 1;
    }
    None
}

/// The first non-whitespace position at or after `from`.
fn scan_nonws(s: &[u8], from: usize) -> (r: usize)
    requires
        from <= s@.len(),
    ensures
        r == first_nonws(s@, from as int),
        from <= r <= s@.len(),
{
    let n = s.len();
    let mut i: usize = from;
    while i < n
        invariant
            n == s@.len(),
            from <= i <= n,
            first_nonws(s@, from as int) == first_nonws(s@, i as int),
        decreases n - i,
    {
        let b = s[i];
        if !(b == 32 || b == 9 || b == 10 || b == 13 || b == 11 || b == 12) {
            return i;
        }
        i = i + 1;
    }
    n
}

/// The end of the token starting at `from`.
fn scan_token_end(s: &[u8], from: usize) -> (r: usize)
    requires
        from <= s@.len(),
    ensures
        r == token_end(s@, from as int),
        from <= r <= s@.len(),
{
    let n = s.len();
    let mut i: usize = from;
    while i < n
        invariant
            n == s@.len(),
            from <= i <= n,
            token_end(s@, from as int) == token_end(s@, i as int),
        decreases n - i,
    {
        let b = s[i];
        if b == 32 || b == 9 || b == 10 || b == 13 || b == 11 || b == 12 {
            return i;
        }
        i = i + 1;
    }
    n
}

/// Copies a byte range out of a slice.
fn copy_range(s: &[u8], from: usize, to: usize) -> (r: Vec<u8>)
    requires
        from <= to <= s@.len(),
    ensures
        r@ == s@.subrange(from as int, to as int),
{
    let mut r: Vec<u8> = Vec::new();
    let mut i: usize = from;
    while i < to
        invariant
            from <= i <= to <= s@.len(),
            r@.len() == i - from,
            forall|t: int| 0 <= t < r@.len() ==> r@[t] == s@[from + t],
        decreases to - i,
    {
        r.push(s[i]);
        i = i + 1;
    }
    proof {
        assert(r@ =~= s@.subrange(from as int, to as int));
    }
    r
}

/// Parses a `start-end` pair: exactly one dash, numbers on both sides.
fn parse_pair(s: &[u8]) -> (r: Option<(u64, u64)>)
    ensures
        r == spec_parse_pair(s@),
{
    let n = s.len();
    let d = match find_byte(s, 0, 45) {
        Some(d) => d,
        None => {
            return None;
        },
    };
    proof {
        assert(d < n);
    }
    if find_byte(s, d + 1, 45).is_some() {
        return None;
    }
    let left = copy_range(s, 0, d);
    let right = copy_range(s, d + 1, s.len());
    proof {
        assert(left@ =~= s@.take(d as int));
        assert(right@ =~= s@.skip(d + 1));
    }
    let a = match parse_u64(left.as_slice()) {
        Some(a) => a,
        None => {
            return None;
        },
    };
    let b = match parse_u64(right.as_slice()) {
        Some(b) => b,
        None => {
            return None;
        },
    };
    Some((a, b))
}

/// Parses a `Range` header value.
pub fn parse_range(s: &str) -> (r: Option<Range>)
    ensures
        match r {
            Some(rg) => spec_parse_range(s.spec_bytes()) == Some((rg.start, rg.end)),
            None => spec_parse_range(s.spec_bytes()) is None,
        },
{
    let bytes = s.as_bytes();
    if bytes.len() < 6 {
        return None;
    }
    let prefix: [u8; 6] = [98u8, 121, 116, 101, 115, 61];
    proof {
        assert(prefix@ =~= range_prefix());
    }
    let mut k: usize = 0;
    while k < 6
        invariant
            k <= 6,
            bytes@.len() >= 6,
            prefix@ == range_prefix(),
            bytes@ == s.spec_bytes(),
            forall|t: int| 0 <= t < k ==> bytes@[t] == range_prefix()[t],
        decreases 6 - k,
    {
        if bytes[k] != prefix[k] {
            proof {
                assert(bytes@.subrange(0, 6)[k as int] == bytes@[k as int]);
            }
            return None;
        }
        k = k + 1;
    }
    proof {
        assert(bytes@.subrange(0, 6) =~= range_prefix());
    }
    let rest = copy_range(bytes, 6, bytes.len());
    proof {
        assert(rest@ =~= bytes@.skip(6));
    }
    match parse_pair(rest.as_slice()) {
        Some((a, b)) => Some(Range { start: a, end: b }),
        None => None,
    }
}

/// Parses a `Content-Range` header value.
pub fn parse_content_range(s: &str) -> (r: Option<ContentRange>)
    ensures
        match r {
            Some(cr) => spec_parse_content_range(s.spec_bytes()) == Some(
                (cr.start, cr.end, cr.length),
            ),
            None => spec_parse_content_range(s.spec_bytes()) is None,
        },
{
    let bytes = s.as_bytes();
    let a = scan_nonws(bytes, 0);
    let b = scan_token_end(bytes, a);
    let c = scan_nonws(bytes, b);
    let d = scan_token_end(bytes, c);
    let e = scan_nonws(bytes, d);
    let n = bytes.len();
    // first token must be exactly `bytes`
    let word: [u8; 5] = [98u8, 121, 116, 101, 115];
    proof {
        assert(word@ =~= bytes_word());
    }
    if b - a != 5 {
        proof {
            assert(bytes@.subrange(a as int, b as int).len() != bytes_word().len());
        }
        return None;
    }
    let mut k: usize = 0;
    while k < 5
        invariant
            k <= 5,
            a + 5 == b,
            b <= bytes@.len(),
            word@ == bytes_word(),
            bytes@ == s.spec_bytes(),
            a == first_nonws(bytes@, 0),
            b == token_end(bytes@, a as int),
            forall|t: int| 0 <= t < k ==> bytes@[a + t] == bytes_word()[t],
        decreases 5 - k,
    {
        if bytes[a + k] != word[k] {
            proof {
                assert(bytes@.subrange(a as int, b as int)[k as int] == bytes@[a + k]);
            }
            return None;
        }
        k = k + 1;
    }
    proof {
        assert(bytes@.subrange(a as int, b as int) =~= bytes_word());
    }
    if c >= n {
        return None;
    }
    if e != n {
        return None;
    }
    let tok = copy_range(bytes, c, d);
    proof {
        assert(tok@ =~= bytes@.subrange(c as int, d as int));
    }
    let sl = match find_byte(tok.as_slice(), 0, 47) {
        Some(sl) => sl,
        None => {
            return None;
        },
    };
    if find_byte(tok.as_slice(), sl + 1, 47).is_some() {
        return None;
    }
    let left = copy_range(tok.as_slice(), 0, sl);
    let size_part = copy_range(tok.as_slice(), sl + 1, tok.len());
    proof {
        assert(left@ =~= tok@.take(sl as int));
        assert(size_part@ =~= tok@.skip(sl + 1));
    }
    let pair = match parse_pair(left.as_slice()) {
        Some(p) => p,
        None => {
            return None;
        },
    };
    let length: Option<u64> = if size_part.len() == 1 && size_part[0] == 42 {
        proof {
            assert(size_part@ =~= seq![42u8]);
        }
        None
    } else {
        proof {
            assert(size_part@ != seq![42u8]) by {
                if size_part@ =~= seq![42u8] {
                    assert(size_part@.len() == 1 && size_part@[0] == 42);
                }
            }
        }
        match parse_u64(size_part.as_slice()) {
            Some(v) => Some(v),
            None => {
                return None;
            },
        }
    };
    Some(ContentRange { start: pair.0, end: pair.1, length })
}

impl FromStr for Range {
    type Err = ();

    fn from_str(s: &str) -> Result<Self, Self::Err> {
        match parse_range(s) {
            Some(r) => Ok(r),
            None => Err(()),
        }
    }
}

impl FromStr for ContentRange {
    type Err = ();

    fn from_str(s: &str) -> Result<Self, Self::Err> {
        match parse_content_range(s) {
            Some(r) => Ok(r),
            None => Err(()),
        }
    }
}

/// The character of one decimal digit.
pub open spec fn digit_char(d: int) -> char {
    if d == 0 {
        '0'
    } else if d == 1 {
        '1'
    } else if d == 2 {
        '2'
    } else if d == 3 {
        '3'
    } else if d == 4 {
        '4'
    } else if d == 5 {
        '5'
    } else if d == 6 {
        '6'
    } else if d == 7 {
        '7'
    } else if d == 8 {
        '8'
    } else {
        '9'
    }
}

/// The decimal digits of a number, least significant first.
pub open spec fn dec_digits_low(v: nat) -> Seq<u64>
    decreases v,
{
    if v < 10 {
        seq![v as u64]
    } else {
        seq![(v % 10) as u64] + dec_digits_low(v / 10)
    }
}

/// The characters of a digit list read most significant first.
pub open spec fn chars_of_rev(digs: Seq<u64>) -> Seq<char>
    decreases digs.len(),
{
    if digs.len() == 0 {
        Seq::empty()
    } else {
        chars_of_rev(digs.drop_first()) + seq![digit_char(digs[0] as int)]
    }
}

/// The shortest decimal text of a number.
pub open spec fn dec_chars(v: nat) -> Seq<char> {
    chars_of_rev(dec_digits_low(v))
}

/// The header text of a content range: `bytes start-end/length`, with `*`
/// for an unknown length.
pub fn format_content_range(cr: &ContentRange) -> (out: String)
    ensures
        out@ == "bytes "@ + dec_chars(cr.start as nat) + "-"@ + dec_chars(cr.end as nat) + (
        match cr.length {
            Some(l) => "/"@ + dec_chars(l as nat),
            None => "/*"@,
        }),
{
    let mut out = <String as StringExecFns>::from_str("bytes ");
    out.append(u64_to_dec(cr.start).as_str());
    out.append("-");
    out.append(u64_to_dec(cr.end).as_str());
    match &cr.length {
        Some(l) => {
            out.append("/");
            let text = u64_to_dec(*l);
            out.append(text.as_str());
        },
        None => {
            out.append("/*");
        },
    }
    out
}

/// The text of one decimal digit value.
fn digit_text(d: u64) -> (r: &'static str)
    requires
        d < 10,
    ensures
        r@ == seq![digit_char(d as int)],
{
    if d == 0 {
        proof {
            reveal_strlit("0");
            assert("0"@ =~= seq![digit_char(0)]);
        }
        "0"
    } else if d == 1 {
        proof {
            reveal_strlit("1");
            assert("1"@ =~= seq![digit_char(1)]);
        }
        "1"
    } else if d == 2 {
        proof {
            reveal_strlit("2");
            assert("2"@ =~= seq![digit_char(2)]);
        }
        "2"
    } else if d == 3 {
        proof {
            reveal_strlit("3");
            assert("3"@ =~= seq![digit_char(3)]);
        }
        "3"
    } else if d == 4 {
        proof {
            reveal_strlit("4");
            assert("4"@ =~= seq![digit_char(4)]);
        }
        "4"
    } else if d == 5 {
        proof {
            reveal_strlit("5");
            assert("5"@ =~= seq![digit_char(5)]);
        }
        "5"
    } else if d == 6 {
        proof {
            reveal_strlit("6");
            assert("6"@ =~= seq![digit_char(6)]);
        }
        "6"
    } else if d == 7 {
        proof {
            reveal_strlit("7");
            assert("7"@ =~= seq![digit_char(7)]);
        }
        "7"
    } else if d == 8 {
        proof {
            reveal_strlit("8");
            assert("8"@ =~= seq![digit_char(8)]);
        }
        "8"
    } else {
        proof {
            reveal_strlit("9");
            assert("9"@ =~= seq![digit_char(9)]);
        }
        "9"
    }
}

/// The shortest decimal text of a number.
fn u64_to_dec(v: u64) -> (r: String)
    ensures
        r@ == dec_chars(v as nat),
{
    let mut digits: Vec<u64> = Vec::new();
    let mut rest = v;
    digits.push(rest % 10);
    proof {
        if v < 10 {
            assert(digits@ =~= dec_digits_low(v as nat));
        } else {
            assert(dec_digits_low(v as nat) =~= digits@ + dec_digits_low((v / 10) as nat));
        }
    }
    rest = rest / 10;
    while rest > 0
        invariant
            digits@.len() >= 1,
            forall|t: int| 0 <= t < digits@.len() ==> digits@[t] < 10,
            if rest == 0 {
                digits@ == dec_digits_low(v as nat)
            } else {
                dec_digits_low(v as nat) == digits@ + dec_digits_low(rest as nat)
            },
        decreases rest,
    {
        let ghost pre = digits@;
        digits.push(rest % 10);
        proof {
            if rest < 10 {
                assert(dec_digits_low(rest as nat) =~= seq![rest % 10]);
                assert(digits@ =~= pre + dec_digits_low(rest as nat));
                assert(digits@ =~= dec_digits_low(v as nat));
            } else {
                assert(dec_digits_low(rest as nat) =~= seq![rest % 10] + dec_digits_low(
                    (rest / 10) as nat,
                ));
                assert(dec_digits_low(v as nat) =~= digits@ + dec_digits_low((rest / 10) as nat));
            }
        }
        rest = rest / 10;
    }
    let mut out = String::new();
    let mut i: usize = digits.len();
    proof {
        assert(digits@.skip(i as int) =~= Seq::<u64>::empty());
    }
    while i > 0
        invariant
            i <= digits@.len(),
            forall|t: int| 0 <= t < digits@.len() ==> digits@[t] < 10,
            out@ == chars_of_rev(digits@.skip(i as int)),
        decreases i,
    {
        i = i - 1;
        let ghost pre_out = out@;
        out.append(digit_text(digits[i]));
        proof {
            assert(digits@.skip(i as int).drop_first() =~= digits@.skip(i + 1));
            assert(digits@.skip(i as int)[0] == digits@[i as int]);
            assert(out@ =~= chars_of_rev(digits@.skip(i as int)));
        }
    }
    proof {
        assert(digits@.skip(0) =~= digits@);
    }
    out
}

} // verus!
