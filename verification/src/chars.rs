//! Character-level text utilities shared by the configuration, EXIF and
//! template helpers: conversions between `str` and character vectors, Unicode
//! whitespace, trimming, ASCII case folding, line splitting and decimal
//! integers.
use vstd::prelude::*;

verus! {

/// `String::push` from std: appends one character.
#[verifier::external_body]
pub(crate) fn push_char(s: &mut String, c: char)
    ensures
        final(s)@ == old(s)@.push(c),
{
    s.push(c);
}

/// The characters of a string slice, in order.
pub fn to_chars(s: &str) -> (r: Vec<char>)
    ensures
        r@ == s@,
{
    let mut r: Vec<char> = Vec::new();
    for c in it: s.chars()
        invariant
            it.seq() == s@,
            r@ == it.seq().take(it.index() as int),
    {
        r.push(c);
    }
    proof {
        assert(r@ =~= s@);
    }
    r
}

/// A string holding exactly the given characters.
pub fn from_chars(v: &[char]) -> (r: String)
    ensures
        r@ == v@,
{
    let mut r = String::new();
    let mut i: usize = 0;
    while i < v.len()
        invariant
            i <= v.len(),
            r@ == v@.take(i as int),
        decreases v.len() - i,
    {
        push_char(&mut r, v[i]);
        i = i + 1;
        proof {
            assert(r@ =~= v@.take(i as int));
        }
    }
    proof {
        assert(v@.take(v.len() as int) =~= v@);
    }
    r
}

/// Unicode `White_Space`, the property that `char::is_whitespace` tests.
pub open spec fn spec_is_whitespace(c: char) -> bool {
    let u = c as u32;
    ||| 0x09 <= u <= 0x0d
    ||| u == 0x20
    ||| u == 0x85
    ||| u == 0xa0
    ||| u == 0x1680
    ||| 0x2000 <= u <= 0x200a
    ||| u == 0x2028
    ||| u == 0x2029
    ||| u == 0x202f
    ||| u == 0x205f
    ||| u == 0x3000
}

/// Whether `c` is Unicode whitespace.
pub fn is_whitespace(c: char) -> (r: bool)
    ensures
        r == spec_is_whitespace(c),
{
    let u = c as u32;
    (0x09 <= u && u <= 0x0d) || u == 0x20 || u == 0x85 || u == 0xa0 || u == 0x1680 || (0x2000
        <= u && u <= 0x200a) || u == 0x2028 || u == 0x2029 || u == 0x202f || u == 0x205f || u
        == 0x3000
}

/// Whether `c` is in the ASCII range.
pub open spec fn spec_is_ascii(c: char) -> bool {
    (c as u32) < 128
}

/// ASCII lowercase of one character; other characters are unchanged.
pub open spec fn spec_ascii_lower(c: char) -> char {
    if 'A' <= c <= 'Z' {
        ((c as u32) + 32) as char
    } else {
        c
    }
}

/// ASCII lowercase of a character sequence.
pub open spec fn spec_ascii_lower_seq(s: Seq<char>) -> Seq<char> {
    s.map_values(|c: char| spec_ascii_lower(c))
}

pub fn ascii_lower_char(c: char) -> (r: char)
    ensures
        r == spec_ascii_lower(c),
{
    if 'A' <= c && c <= 'Z' {
        let u = (c as u32) + 32;
        proof {
            assert(0x61 <= u <= 0x7a);
        }
        char_from_ascii(u)
    } else {
        c
    }
}

/// The character with the given code in the ASCII range.
fn char_from_ascii(u: u32) -> (r: char)
    requires
        u < 128,
    ensures
        r == u as char,
{
    let b = u as u8;
    b as char
}

/// ASCII lowercase of every character.
pub fn ascii_lower(s: &[char]) -> (r: Vec<char>)
    ensures
        r@ == spec_ascii_lower_seq(s@),
{
    let mut r: Vec<char> = Vec::new();
    let mut i: usize = 0;
    while i < s.len()
        invariant
            i <= s.len(),
            r@ == spec_ascii_lower_seq(s@.take(i as int)),
        decreases s.len() - i,
    {
        let c = ascii_lower_char(s[i]);
        r.push(c);
        i = i + 1;
        proof {
            assert(r@ =~= spec_ascii_lower_seq(s@.take(i as int)));
        }
    }
    proof {
        assert(s@.take(s.len() as int) =~= s@);
    }
    r
}

/// Equality of two character vectors.
pub fn chars_eq(a: &[char], b: &[char]) -> (r: bool)
    ensures
        r == (a@ == b@),
{
    if a.len() != b.len() {
        return false;
    }
    let mut i: usize = 0;
    while i < a.len()
        invariant
            i <= a.len(),
            a.len() == b.len(),
            forall|k: int| 0 <= k < i ==> a@[k] == b@[k],
        decreases a.len() - i,
    {
        if a[i] != b[i] {
            return false;
        }
        i = i + 1;
    }
    proof {
        assert(a@ =~= b@);
    }
    true
}

/// Equality of a character vector and a string slice.
pub fn chars_eq_str(a: &[char], b: &str) -> (r: bool)
    ensures
        r == (a@ == b@),
{
    let bv = to_chars(b);
    chars_eq(a, bv.as_slice())
}

/// The leading whitespace of `s` removed.
pub open spec fn spec_trim_start(s: Seq<char>) -> Seq<char>
    decreases s.len(),
{
    if s.len() > 0 && spec_is_whitespace(s[0]) {
        spec_trim_start(s.drop_first())
    } else {
        s
    }
}

/// The trailing whitespace of `s` removed.
pub open spec fn spec_trim_end(s: Seq<char>) -> Seq<char>
    decreases s.len(),
{
    if s.len() > 0 && spec_is_whitespace(s.last()) {
        spec_trim_end(s.drop_last())
    } else {
        s
    }
}

/// Leading and trailing whitespace removed, as `str::trim` does.
pub open spec fn spec_trim(s: Seq<char>) -> Seq<char> {
    spec_trim_end(spec_trim_start(s))
}

proof fn lemma_trim_start_skip(s: Seq<char>, i: int)
    requires
        0 <= i <= s.len(),
        forall|k: int| 0 <= k < i ==> spec_is_whitespace(#[trigger] s[k]),
    ensures
        spec_trim_start(s) == spec_trim_start(s.skip(i)),
    decreases i,
{
    if i > 0 {
        assert(s.skip(1) =~= s.drop_first());
        lemma_trim_start_skip(s.drop_first(), i - 1);
        assert(s.drop_first().skip(i - 1) =~= s.skip(i));
    } else {
        assert(s.skip(0) =~= s);
    }
}

proof fn lemma_trim_end_take(s: Seq<char>, j: int)
    requires
        0 <= j <= s.len(),
        forall|k: int| j <= k < s.len() ==> spec_is_whitespace(#[trigger] s[k]),
    ensures
        spec_trim_end(s) == spec_trim_end(s.take(j)),
    decreases s.len() - j,
{
    if j < s.len() {
        assert(s.take(s.len() - 1) =~= s.drop_last());
        lemma_trim_end_take(s.drop_last(), j);
        assert(s.drop_last().take(j) =~= s.take(j));
    } else {
        assert(s.take(j) =~= s);
    }
}

/// `s` with leading and trailing whitespace removed.
pub fn trim(s: &[char]) -> (r: Vec<char>)
    ensures
        r@ == spec_trim(s@),
{
    let mut i: usize = 0;
    while i < s.len() && is_whitespace(s[i])
        invariant
            i <= s.len(),
            forall|k: int| 0 <= k < i ==> spec_is_whitespace(#[trigger] s@[k]),
        decreases s.len() - i,
    {
        i = i + 1;
    }
    proof {
        lemma_trim_start_skip(s@, i as int);
        if i < s.len() {
            assert(spec_trim_start(s@.skip(i as int)) == s@.skip(i as int));
        } else {
            assert(s@.skip(i as int).len() == 0);
        }
    }
    let mut j: usize = s.len();
    while j > i && is_whitespace(s[j - 1])
        invariant
            i <= j <= s.len(),
            forall|k: int| j <= k < s.len() ==> spec_is_whitespace(#[trigger] s@[k]),
        decreases j,
    {
        j = j - 1;
    }
    let ghost t = s@.skip(i as int);
    proof {
        lemma_trim_end_take(t, j - i);
        assert(t.take(j - i) =~= s@.subrange(i as int, j as int));
        if j > i {
            assert(spec_trim_end(t.take(j - i)) == t.take(j - i));
        } else {
            assert(t.take(j - i).len() == 0);
        }
    }
    let mut r: Vec<char> = Vec::new();
    let mut k: usize = i;
    while k < j
        invariant
            i <= k <= j <= s.len(),
            r@ == s@.subrange(i as int, k as int),
        decreases j - k,
    {
        r.push(s[k]);
        k = k + 1;
        proof {
            assert(r@ =~= s@.subrange(i as int, k as int));
        }
    }
    r
}

/// Index of the first occurrence of `c` in `s`, if any.
pub open spec fn spec_find(s: Seq<char>, c: char) -> Option<int>
    decreases s.len(),
{
    if s.len() == 0 {
        None
    } else if s[0] == c {
        Some(0)
    } else {
        match spec_find(s.drop_first(), c) {
            Some(i) => Some(i + 1),
            None => None,
        }
    }
}

pub proof fn lemma_find_props(s: Seq<char>, c: char)
    ensures
        match spec_find(s, c) {
            Some(i) => 0 <= i < s.len() && s[i] == c && forall|k: int|
                0 <= k < i ==> s[k] != c,
            None => forall|k: int| 0 <= k < s.len() ==> s[k] != c,
        },
    decreases s.len(),
{
    if s.len() > 0 && s[0] != c {
        lemma_find_props(s.drop_first(), c);
        match spec_find(s.drop_first(), c) {
            Some(i) => {
                assert forall|k: int| 0 <= k < i + 1 implies s[k] != c by {
                    if k > 0 {
                        assert(s[k] == s.drop_first()[k - 1]);
                    }
                }
            },
            None => {
                assert forall|k: int| 0 <= k < s.len() implies s[k] != c by {
                    if k > 0 {
                        assert(s[k] == s.drop_first()[k - 1]);
                    }
                }
            },
        }
    }
}

pub proof fn lemma_find_unique(s: Seq<char>, c: char, i: int)
    requires
        0 <= i < s.len(),
        s[i] == c,
        forall|k: int| 0 <= k < i ==> s[k] != c,
    ensures
        spec_find(s, c) == Some(i),
{
    lemma_find_props(s, c);
    match spec_find(s, c) {
        Some(j) => {
            if j < i {
                assert(s[j] != c);
            }
            if j > i {
                assert(s[i] != c);
            }
        },
        None => {
            assert(s[i] != c);
        },
    }
}

/// Position of the first `c` in `s`.
pub fn find_char(s: &[char], c: char) -> (r: Option<usize>)
    ensures
        match r {
            Some(i) => spec_find(s@, c) == Some(i as int),
            None => spec_find(s@, c) == None::<int>,
        },
{
    let mut i: usize = 0;
    while i < s.len()
        invariant
            i <= s.len(),
            forall|k: int| 0 <= k < i ==> s@[k] != c,
        decreases s.len() - i,
    {
        if s[i] == c {
            proof {
                lemma_find_unique(s@, c, i as int);
            }
            return Some(i);
        }
        i = i + 1;
    }
    proof {
        lemma_find_props(s@, c);
        match spec_find(s@, c) {
            Some(j) => {
                assert(s@[j] != c);
            },
            None => {},
        }
    }
    None
}

/// The two sides of the first `sep` in `s`, as `str::split_once` gives them.
pub open spec fn spec_split_once(s: Seq<char>, sep: char) -> Option<(Seq<char>, Seq<char>)> {
    match spec_find(s, sep) {
        Some(i) => Some((s.take(i), s.skip(i + 1))),
        None => None,
    }
}

/// Splits `s` at the first `sep`.
pub fn split_once(s: &[char], sep: char) -> (r: Option<(Vec<char>, Vec<char>)>)
    ensures
        match r {
            Some((a, b)) => spec_split_once(s@, sep) == Some((a@, b@)),
            None => spec_split_once(s@, sep) is None,
        },
{
    match find_char(s, sep) {
        Some(i) => {
            proof {
                lemma_find_props(s@, sep);
                assert(i < s.len());
            }
            let a = slice_range(s, 0, i);
            let b = slice_range(s, i + 1, s.len());
            proof {
                assert(a@ =~= s@.take(i as int));
                assert(b@ =~= s@.skip(i + 1));
            }
            Some((a, b))
        },
        None => None,
    }
}

/// The characters `s[from..to]`.
pub fn slice_range(s: &[char], from: usize, to: usize) -> (r: Vec<char>)
    requires
        from <= to <= s.len(),
    ensures
        r@ == s@.subrange(from as int, to as int),
{
    let mut r: Vec<char> = Vec::new();
    let mut k: usize = from;
    while k < to
        invariant
            from <= k <= to <= s.len(),
            r@ == s@.subrange(from as int, k as int),
        decreases to - k,
    {
        r.push(s[k]);
        k = k + 1;
        proof {
            assert(r@ =~= s@.subrange(from as int, k as int));
        }
    }
    r
}

/// A line with its line ending removed: the final `'\r'` goes only where a
/// `'\n'` followed it.
pub open spec fn spec_strip_cr(line: Seq<char>) -> Seq<char> {
    if line.len() > 0 && line.last() == '\r' {
        line.drop_last()
    } else {
        line
    }
}

/// The lines of a text as `str::lines` yields them: split at `'\n'`, a
/// `'\r'` before the `'\n'` removed, and no empty line after a final `'\n'`.
pub open spec fn spec_lines(s: Seq<char>) -> Seq<Seq<char>>
    decreases s.len(),
{
    if s.len() == 0 {
        Seq::empty()
    } else {
        match spec_find(s, '\n') {
            Some(i) => {
                proof {
                    lemma_find_props(s, '\n');
                }
                seq![spec_strip_cr(s.take(i))] + spec_lines(s.skip(i + 1))
            },
            None => seq![s],
        }
    }
}

/// The views of a vector of character vectors.
pub open spec fn seq_views(v: Seq<Vec<char>>) -> Seq<Seq<char>> {
    v.map_values(|x: Vec<char>| x@)
}

/// The lines of `s`.
pub fn lines(s: &[char]) -> (r: Vec<Vec<char>>)
    ensures
        seq_views(r@) == spec_lines(s@),
{
    let mut r: Vec<Vec<char>> = Vec::new();
    let mut start: usize = 0;
    proof {
        assert(s@.skip(0) =~= s@);
        assert(seq_views(r@) =~= Seq::<Seq<char>>::empty());
        assert(Seq::<Seq<char>>::empty() + spec_lines(s@) =~= spec_lines(s@));
    }
    while start < s.len()
        invariant
            start <= s.len(),
            seq_views(r@) + spec_lines(s@.skip(start as int)) == spec_lines(s@),
        decreases s.len() - start,
    {
        let rest = slice_range(s, start, s.len());
        proof {
            assert(rest@ =~= s@.skip(start as int));
        }
        match find_char(rest.as_slice(), '\n') {
            Some(i) => {
                proof {
                    lemma_find_props(rest@, '\n');
                }
                let mut line = slice_range(rest.as_slice(), 0, i);
                if i > 0 && line[i - 1] == '\r' {
                    line.pop();
                }
                proof {
                    assert(line@ =~= spec_strip_cr(rest@.take(i as int)));
                    assert(rest@.skip(i + 1) =~= s@.skip(start + i + 1));
                    assert(seq_views(r@.push(line)) =~= seq_views(r@) + seq![line@]);
                    assert(spec_lines(rest@) == seq![line@] + spec_lines(s@.skip(start + i + 1)));
                }
                r.push(line);
                start = start + i + 1;
            },
            None => {
                proof {
                    assert(seq_views(r@.push(rest)) =~= seq_views(r@) + seq![rest@]);
                    assert(s@.skip(s.len() as int).len() == 0);
                }
                r.push(rest);
                start = s.len();
                proof {
                    assert(spec_lines(s@.skip(start as int)) =~= Seq::<Seq<char>>::empty());
                }
            },
        }
    }
    proof {
        assert(s@.skip(start as int).len() == 0);
        assert(spec_lines(s@.skip(start as int)) =~= Seq::<Seq<char>>::empty());
        assert(seq_views(r@) + Seq::<Seq<char>>::empty() =~= seq_views(r@));
    }
    r
}

/// Whether `c` is an ASCII decimal digit.
pub open spec fn spec_is_digit(c: char) -> bool {
    '0' <= c <= '9'
}

/// The value of an ASCII decimal digit.
pub open spec fn spec_digit(c: char) -> int {
    (c as u32) - ('0' as u32)
}

/// Why a decimal integer was refused, as `core::num::IntErrorKind` names it.
#[derive(PartialEq, Eq, Clone, Copy, Debug, Structural)]
pub enum IntErrorKind {
    Empty,
    InvalidDigit,
    PosOverflow,
    NegOverflow,
}

/// The digits of `d`, read left to right onto `acc` (subtracted when
/// `neg`), stopping at the first character that is not a digit or at the
/// first value outside `i64`.
pub open spec fn spec_parse_digits(d: Seq<char>, acc: int, neg: bool) -> Result<int, IntErrorKind>
    decreases d.len(),
{
    if d.len() == 0 {
        Ok(acc)
    } else if !spec_is_digit(d[0]) {
        Err(IntErrorKind::InvalidDigit)
    } else {
        let next = if neg {
            acc * 10 - spec_digit(d[0])
        } else {
            acc * 10 + spec_digit(d[0])
        };
        if next > i64::MAX {
            Err(IntErrorKind::PosOverflow)
        } else if next < i64::MIN {
            Err(IntErrorKind::NegOverflow)
        } else {
            spec_parse_digits(d.drop_first(), next, neg)
        }
    }
}

/// A decimal `i64` as `str::parse::<i64>` reads it: an optional `+` or `-`
/// followed by at least one ASCII digit, nothing else.
pub open spec fn spec_parse_i64(s: Seq<char>) -> Result<int, IntErrorKind> {
    if s.len() == 0 {
        Err(IntErrorKind::Empty)
    } else if (s[0] == '+' || s[0] == '-') && s.len() == 1 {
        Err(IntErrorKind::InvalidDigit)
    } else if s[0] == '+' {
        spec_parse_digits(s.drop_first(), 0, false)
    } else if s[0] == '-' {
        spec_parse_digits(s.drop_first(), 0, true)
    } else {
        spec_parse_digits(s, 0, false)
    }
}

proof fn lemma_parse_digits_range(d: Seq<char>, acc: int, neg: bool)
    ensures
        spec_parse_digits(d, acc, neg) matches Ok(v) ==> (d.len() == 0 && v == acc) || (i64::MIN
            <= v <= i64::MAX),
    decreases d.len(),
{
    if d.len() > 0 && spec_is_digit(d[0]) {
        let next = if neg {
            acc * 10 - spec_digit(d[0])
        } else {
            acc * 10 + spec_digit(d[0])
        };
        if i64::MIN <= next <= i64::MAX {
            lemma_parse_digits_range(d.drop_first(), next, neg);
        }
    }
}

/// Reads the digits `s[from..]` onto `acc`.
fn parse_digits(s: &[char], from: usize, neg: bool) -> (r: Result<i64, IntErrorKind>)
    requires
        from <= s.len(),
    ensures
        match r {
            Ok(v) => spec_parse_digits(s@.skip(from as int), 0, neg) == Ok::<int, IntErrorKind>(
                v as int,
            ),
            Err(e) => spec_parse_digits(s@.skip(from as int), 0, neg) == Err::<int, IntErrorKind>(
                e,
            ),
        },
{
    let mut acc: i64 = 0;
    let mut i: usize = from;
    while i < s.len()
        invariant
            from <= i <= s.len(),
            neg ==> acc <= 0,
            !neg ==> acc >= 0,
            spec_parse_digits(s@.skip(from as int), 0, neg) == spec_parse_digits(
                s@.skip(i as int),
                acc as int,
                neg,
            ),
        decreases s.len() - i,
    {
        let c = s[i];
        proof {
            assert(s@.skip(i as int)[0] == c);
            assert(s@.skip(i as int).drop_first() =~= s@.skip(i + 1));
        }
        if !('0' <= c && c <= '9') {
            return Err(IntErrorKind::InvalidDigit);
        }
        let digit = (c as u32 - '0' as u32) as i64;
        if neg {
            match acc.checked_mul(10) {
                Some(m) => {
                    match m.checked_sub(digit) {
                        Some(n) => {
                            acc = n;
                        },
                        None => {
                            return Err(IntErrorKind::NegOverflow);
                        },
                    }
                },
                None => {
                    return Err(IntErrorKind::NegOverflow);
                },
            }
        } else {
            match acc.checked_mul(10) {
                Some(m) => {
                    match m.checked_add(digit) {
                        Some(n) => {
                            acc = n;
                        },
                        None => {
                            return Err(IntErrorKind::PosOverflow);
                        },
                    }
                },
                None => {
                    return Err(IntErrorKind::PosOverflow);
                },
            }
        }
        i = i + 1;
    }
    proof {
        assert(s@.skip(i as int).len() == 0);
    }
    Ok(acc)
}

/// Parses a decimal `i64`.
pub fn parse_i64(s: &[char]) -> (r: Result<i64, IntErrorKind>)
    ensures
        match r {
            Ok(v) => spec_parse_i64(s@) == Ok::<int, IntErrorKind>(v as int),
            Err(e) => spec_parse_i64(s@) == Err::<int, IntErrorKind>(e),
        },
{
    if s.len() == 0 {
        return Err(IntErrorKind::Empty);
    }
    if (s[0] == '+' || s[0] == '-') && s.len() == 1 {
        return Err(IntErrorKind::InvalidDigit);
    }
    proof {
        assert(s@.skip(1) =~= s@.drop_first());
        assert(s@.skip(0) =~= s@);
    }
    if s[0] == '+' {
        parse_digits(s, 1, false)
    } else if s[0] == '-' {
        parse_digits(s, 1, true)
    } else {
        parse_digits(s, 0, false)
    }
}

/// The message that `core::num::ParseIntError` displays for each kind.
pub open spec fn spec_int_error_message(e: IntErrorKind) -> Seq<char> {
    match e {
        IntErrorKind::Empty => "cannot parse integer from empty string"@,
        IntErrorKind::InvalidDigit => "invalid digit found in string"@,
        IntErrorKind::PosOverflow => "number too large to fit in target type"@,
        IntErrorKind::NegOverflow => "number too small to fit in target type"@,
    }
}

/// The message for a refused decimal integer.
pub fn int_error_message(e: IntErrorKind) -> (r: String)
    ensures
        r@ == spec_int_error_message(e),
{
    match e {
        IntErrorKind::Empty => "cannot parse integer from empty string".to_owned(),
        IntErrorKind::InvalidDigit => "invalid digit found in string".to_owned(),
        IntErrorKind::PosOverflow => "number too large to fit in target type".to_owned(),
        IntErrorKind::NegOverflow => "number too small to fit in target type".to_owned(),
    }
}

/// The decimal digit character for `d < 10`.
pub open spec fn spec_digit_char(d: int) -> char {
    (d + 48) as char
}

/// The decimal representation of `n`, without leading zeros.
pub open spec fn spec_decimal(n: nat) -> Seq<char>
    decreases n,
{
    if n < 10 {
        seq![spec_digit_char(n as int)]
    } else {
        spec_decimal(n / 10).push(spec_digit_char((n % 10) as int))
    }
}

/// The decimal digits of `n`, as `u64::to_string` writes them.
pub fn u64_to_decimal(n: u64) -> (r: String)
    ensures
        r@ == spec_decimal(n as nat),
{
    let mut digits: Vec<char> = Vec::new();
    let mut m: u64 = n;
    while m >= 10
        invariant
            spec_decimal(n as nat) == spec_decimal(m as nat) + digits@.reverse(),
        decreases m,
    {
        let d = (m % 10) as u32;
        let ghost old_digits = digits@;
        digits.push(char_from_ascii(48 + d));
        proof {
            assert(spec_decimal(m as nat) == spec_decimal((m / 10) as nat).push(
                spec_digit_char(d as int),
            ));
            assert(digits@.reverse() =~= seq![spec_digit_char(d as int)] + old_digits.reverse());
            assert(spec_decimal((m / 10) as nat).push(spec_digit_char(d as int))
                + old_digits.reverse() =~= spec_decimal((m / 10) as nat) + digits@.reverse());
        }
        m = m / 10;
    }
    let ghost old_digits = digits@;
    let last = m as u32;
    digits.push(char_from_ascii(48 + last));
    proof {
        assert(spec_decimal(m as nat) =~= seq![spec_digit_char(m as int)]);
        assert(digits@.reverse() =~= seq![spec_digit_char(m as int)] + old_digits.reverse());
    }
    let mut r = String::new();
    let mut k: usize = digits.len();
    while k > 0
        invariant
            k <= digits.len(),
            r@ == digits@.skip(k as int).reverse(),
        decreases k,
    {
        k = k - 1;
        push_char(&mut r, digits[k]);
        proof {
            assert(digits@.skip(k as int).reverse() =~= digits@.skip(k + 1).reverse().push(digits@[k as int]));
        }
    }
    proof {
        assert(digits@.skip(0) =~= digits@);
    }
    r
}

/// The decimal digits of `n`, as `u32::to_string` writes them.
pub fn u32_to_decimal(n: u32) -> (r: String)
    ensures
        r@ == spec_decimal(n as nat),
{
    u64_to_decimal(n as u64)
}

/// The decimal digits of `n`, as `usize::to_string` writes them.
pub fn usize_to_decimal(n: usize) -> (r: String)
    ensures
        r@ == spec_decimal(n as nat),
{
    u64_to_decimal(n as u64)
}

/// A decimal `u32` as `str::parse::<u32>` reads it: an optional `+`
/// followed by at least one ASCII digit, with a value that fits.
pub open spec fn spec_parse_u32(s: Seq<char>) -> Option<int> {
    if s.len() > 0 && s[0] == '-' {
        None
    } else {
        match spec_parse_i64(s) {
            Ok(v) => if 0 <= v <= u32::MAX { Some(v) } else { None },
            Err(_) => None,
        }
    }
}

/// Parses a decimal `u32`; `None` where `str::parse::<u32>` fails.
pub fn parse_u32(s: &[char]) -> (r: Option<u32>)
    ensures
        match r {
            Some(v) => spec_parse_u32(s@) == Some(v as int),
            None => spec_parse_u32(s@) is None,
        },
{
    if s.len() > 0 && s[0] == '-' {
        return None;
    }
    match parse_i64(s) {
        Ok(v) => if 0 <= v && v <= 0xffff_ffff {
            Some(v as u32)
        } else {
            None
        },
        Err(_) => None,
    }
}

/// Appends the characters of `s` to `v`.
pub fn append_str(v: &mut Vec<char>, s: &str)
    ensures
        final(v)@ == old(v)@ + s@,
{
    let t = to_chars(s);
    let mut i: usize = 0;
    while i < t.len()
        invariant
            i <= t.len(),
            t@ == s@,
            v@ == old(v)@ + t@.take(i as int),
        decreases t.len() - i,
    {
        v.push(t[i]);
        i = i + 1;
        proof {
            assert(v@ =~= old(v)@ + t@.take(i as int));
        }
    }
    proof {
        assert(t@.take(t.len() as int) =~= t@);
    }
}

/// The pieces of `s` between the occurrences of `sep`, as `str::split`
/// with a character yields them; there is always at least one.
pub open spec fn spec_split(s: Seq<char>, sep: char) -> Seq<Seq<char>>
    decreases s.len(),
{
    match spec_find(s, sep) {
        Some(i) => {
            proof {
                lemma_find_props(s, sep);
            }
            seq![s.take(i)] + spec_split(s.skip(i + 1), sep)
        },
        None => seq![s],
    }
}

/// The pieces of `s` between the occurrences of `sep`.
pub fn split_char(s: &[char], sep: char) -> (r: Vec<Vec<char>>)
    ensures
        seq_views(r@) == spec_split(s@, sep),
{
    let mut r: Vec<Vec<char>> = Vec::new();
    let mut rest: Vec<char> = slice_range(s, 0, s.len());
    let mut done = false;
    proof {
        assert(rest@ =~= s@);
        assert(seq_views(r@) + spec_split(rest@, sep) =~= spec_split(s@, sep));
    }
    while !done
        invariant
            !done ==> seq_views(r@) + spec_split(rest@, sep) == spec_split(s@, sep),
            done ==> seq_views(r@) == spec_split(s@, sep),
        decreases rest.len() + (if done { 0int } else { 1int }),
    {
        let ghost before = seq_views(r@);
        match find_char(rest.as_slice(), sep) {
            Some(i) => {
                proof {
                    lemma_find_props(rest@, sep);
                }
                let head = slice_range(rest.as_slice(), 0, i);
                let tail = slice_range(rest.as_slice(), i + 1, rest.len());
                proof {
                    assert(head@ =~= rest@.take(i as int));
                    assert(tail@ =~= rest@.skip(i + 1));
                    assert(spec_split(rest@, sep) == seq![head@] + spec_split(tail@, sep));
                }
                r.push(head);
                proof {
                    assert(seq_views(r@) =~= before.push(head@));
                    assert(before + (seq![head@] + spec_split(tail@, sep)) =~= before.push(head@)
                        + spec_split(tail@, sep));
                }
                rest = tail;
            },
            None => {
                proof {
                    assert(spec_split(rest@, sep) == seq![rest@]);
                }
                let last = slice_range(rest.as_slice(), 0, rest.len());
                proof {
                    assert(last@ =~= rest@);
                }
                r.push(last);
                proof {
                    assert(seq_views(r@) =~= before + seq![rest@]);
                }
                done = true;
            },
        }
    }
    r
}

} // verus!
