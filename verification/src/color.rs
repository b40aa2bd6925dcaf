//! Colours as templates write them: channel arrays, `(r, g, b[, a])`
//! lists, `#rrggbb[aa]` hex codes and a few names.
use vstd::prelude::*;
use crate::image::Rgba;
use crate::json::{Json, spec_as_u64, as_u64};
use crate::chars::{to_chars, trim, spec_trim, find_char, spec_find, lemma_find_props, slice_range, parse_i64, spec_parse_i64, ascii_lower, spec_ascii_lower_seq, chars_eq_str, spec_split, spec_trim_start, spec_ascii_lower};

verus! {

/// The channel `i` of a colour array: the item read as an unsigned integer
/// and cut to 8 bits, 0 where it is missing or not one.
pub open spec fn array_channel(items: Seq<Json>, i: int) -> u8 {
    if i < items.len() {
        match spec_as_u64(items[i]) {
            Some(n) => n as u8,
            None => 0u8,
        }
    } else {
        0u8
    }
}

/// The colour of a channel array: up to four channels, fully opaque when
/// exactly three are given.
pub open spec fn array_color(items: Seq<Json>) -> Rgba {
    [
        array_channel(items, 0),
        array_channel(items, 1),
        array_channel(items, 2),
        if items.len() == 3 { 255u8 } else { array_channel(items, 3) },
    ]
}

/// Whether `c` is a parenthesis.
pub open spec fn is_paren(c: char) -> bool {
    c == '(' || c == ')'
}

/// Leading parentheses removed.
pub open spec fn strip_parens_start(s: Seq<char>) -> Seq<char>
    decreases s.len(),
{
    if s.len() > 0 && is_paren(s[0]) {
        strip_parens_start(s.drop_first())
    } else {
        s
    }
}

/// Trailing parentheses removed.
pub open spec fn strip_parens_end(s: Seq<char>) -> Seq<char>
    decreases s.len(),
{
    if s.len() > 0 && is_paren(s.last()) {
        strip_parens_end(s.drop_last())
    } else {
        s
    }
}

/// A decimal `u8` as `str::parse::<u8>` reads it: an optional `+` and
/// digits, with a value up to 255.
pub open spec fn spec_parse_u8(s: Seq<char>) -> Option<u8> {
    if s.len() > 0 && s[0] == '-' {
        None
    } else {
        match spec_parse_i64(s) {
            Ok(n) => if 0 <= n <= 255 {
                Some(n as u8)
            } else {
                None
            },
            Err(_) => None,
        }
    }
}

/// The values of the pieces that read as `u8` once trimmed, in order.
pub open spec fn parsed_bytes(parts: Seq<Seq<char>>) -> Seq<u8>
    decreases parts.len(),
{
    if parts.len() == 0 {
        Seq::empty()
    } else {
        let prev = parsed_bytes(parts.drop_last());
        match spec_parse_u8(spec_trim(parts.last())) {
            Some(b) => prev.push(b),
            None => prev,
        }
    }
}

/// The colour of a comma list such as `(255, 0, 0)`: three or four
/// channels that read as `u8`; nothing otherwise.
pub open spec fn list_color(text: Seq<char>) -> Option<Rgba> {
    let inner = strip_parens_end(strip_parens_start(spec_trim(text)));
    if spec_find(inner, ',') is Some {
        let parts = spec_split(inner, ',');
        let vals = parsed_bytes(parts);
        if vals.len() == 3 {
            Some([vals[0], vals[1], vals[2], 255u8])
        } else if vals.len() == 4 {
            Some([vals[0], vals[1], vals[2], vals[3]])
        } else {
            None
        }
    } else {
        None
    }
}

/// The value of an ASCII hexadecimal digit, if `c` is one.
pub open spec fn hex_value(c: char) -> Option<int> {
    if '0' <= c <= '9' {
        Some(c as int - '0' as int)
    } else if 'a' <= c <= 'f' {
        Some(c as int - 'a' as int + 10)
    } else if 'A' <= c <= 'F' {
        Some(c as int - 'A' as int + 10)
    } else {
        None
    }
}

/// The byte written by the two hex digits at `i`.
pub open spec fn hex_byte(h: Seq<char>, i: int) -> u8 {
    (hex_value(h[i]).unwrap() * 16 + hex_value(h[i + 1]).unwrap()) as u8
}

/// The colour of a `#rrggbb` or `#rrggbbaa` code; nothing otherwise.
pub open spec fn hex_color(text: Seq<char>) -> Option<Rgba> {
    if text.len() > 0 && text[0] == '#' {
        let h = text.drop_first();
        if (h.len() == 6 || h.len() == 8) && forall|i: int| 0 <= i < h.len() ==> hex_value(#[trigger] h[i]) is Some {
            Some([hex_byte(h, 0), hex_byte(h, 2), hex_byte(h, 4), if h.len() == 8 { hex_byte(h, 6) } else { 255u8 }])
        } else {
            None
        }
    } else {
        None
    }
}

/// The colour of a name, in any ASCII case.
pub open spec fn named_color(text: Seq<char>) -> Option<Rgba> {
    let n = spec_ascii_lower_seq(text);
    if n == "black"@ {
        Some([0u8, 0u8, 0u8, 255u8])
    } else if n == "white"@ {
        Some([255u8, 255u8, 255u8, 255u8])
    } else if n == "red"@ {
        Some([255u8, 0u8, 0u8, 255u8])
    } else if n == "blue"@ {
        Some([0u8, 0u8, 255u8, 255u8])
    } else if n == "green"@ {
        Some([0u8, 128u8, 0u8, 255u8])
    } else if n == "transparent"@ {
        Some([0u8, 0u8, 0u8, 0u8])
    } else {
        None
    }
}

/// The colour a template value describes: a channel array; or, for a
/// string, a comma list, a hex code or a name, tried in that order; and
/// `default` for anything else.
pub open spec fn spec_parse_color(value: Json, default: Rgba) -> Rgba {
    match value {
        Json::Array(items) => array_color(items@),
        Json::Str { text, .. } => match list_color(text@) {
            Some(c) => c,
            None => match hex_color(text@) {
                Some(c) => c,
                None => match named_color(text@) {
                    Some(c) => c,
                    None => default,
                },
            },
        },
        _ => default,
    }
}

/// Every character is an ASCII letter.
pub open spec fn all_letters(s: Seq<char>) -> bool {
    forall|i: int| 0 <= i < s.len() ==> ('a' <= #[trigger] s[i] <= 'z' || 'A' <= s[i] <= 'Z')
}

proof fn lemma_lower_letters(s: Seq<char>, n: Seq<char>)
    requires
        spec_ascii_lower_seq(s) == n,
        forall|i: int| 0 <= i < n.len() ==> 'a' <= #[trigger] n[i] <= 'z',
    ensures
        all_letters(s),
{
    assert forall|i: int| 0 <= i < s.len() implies ('a' <= #[trigger] s[i] <= 'z' || 'A' <= s[i] <= 'Z') by {
        assert(spec_ascii_lower_seq(s).len() == s.len());
        assert(spec_ascii_lower_seq(s)[i] == spec_ascii_lower(s[i]));
        assert('a' <= n[i] <= 'z');
        if !('A' <= s[i] <= 'Z') {
            assert(spec_ascii_lower(s[i]) == s[i]);
        }
    }
}

proof fn lemma_strip_start_letters(s: Seq<char>)
    requires
        all_letters(s),
    ensures
        strip_parens_start(s) == s,
{
    if s.len() > 0 {
        assert('a' <= s[0] <= 'z' || 'A' <= s[0] <= 'Z');
    }
}

proof fn lemma_strip_end_letters(s: Seq<char>)
    requires
        all_letters(s),
    ensures
        strip_parens_end(s) == s,
{
    if s.len() > 0 {
        assert('a' <= s[s.len() - 1] <= 'z' || 'A' <= s[s.len() - 1] <= 'Z');
    }
}

proof fn lemma_trim_letters(s: Seq<char>)
    requires
        all_letters(s),
    ensures
        spec_trim(s) == s,
{
    if s.len() > 0 {
        assert('a' <= s[0] <= 'z' || 'A' <= s[0] <= 'Z');
        assert('a' <= s[s.len() - 1] <= 'z' || 'A' <= s[s.len() - 1] <= 'Z');
    }
    assert(spec_trim_start(s) == s);
}

/// A word of letters is read by its name alone: it is no comma list and no
/// hex code.
proof fn lemma_word_is_named(text: Seq<char>, d: Rgba, as_array: Option<Vec<Json>>)
    requires
        all_letters(text),
    ensures
        forall|t: String| t@ == text ==> spec_parse_color(Json::Str { text: t, as_array }, d) == match named_color(text) {
            Some(c) => c,
            None => d,
        },
{
    lemma_trim_letters(text);
    lemma_strip_start_letters(text);
    lemma_strip_end_letters(text);
    lemma_find_props(text, ',');
    if spec_find(text, ',') is Some {
        let i = spec_find(text, ',').unwrap();
        assert('a' <= text[i] <= 'z' || 'A' <= text[i] <= 'Z');
    }
    if text.len() > 0 {
        assert('a' <= text[0] <= 'z' || 'A' <= text[0] <= 'Z');
    }
}

/// The colour names read as their colours, in any ASCII case, whatever the
/// default: black, white, red, blue, green (`#008000`) and transparent.
pub proof fn law_color_names(value: Json, d: Rgba)
    ensures
        match value {
            Json::Str { text, .. } => {
                let n = spec_ascii_lower_seq(text@);
                &&& n == "black"@ ==> spec_parse_color(value, d) == [0u8, 0u8, 0u8, 255u8]
                &&& n == "white"@ ==> spec_parse_color(value, d) == [255u8, 255u8, 255u8, 255u8]
                &&& n == "red"@ ==> spec_parse_color(value, d) == [255u8, 0u8, 0u8, 255u8]
                &&& n == "blue"@ ==> spec_parse_color(value, d) == [0u8, 0u8, 255u8, 255u8]
                &&& n == "green"@ ==> spec_parse_color(value, d) == [0u8, 128u8, 0u8, 255u8]
                &&& n == "transparent"@ ==> spec_parse_color(value, d) == [0u8, 0u8, 0u8, 0u8]
            },
            _ => true,
        },
{
    match value {
        Json::Str { text, as_array } => {
            let n = spec_ascii_lower_seq(text@);
            reveal_strlit("black");
            reveal_strlit("white");
            reveal_strlit("red");
            reveal_strlit("blue");
            reveal_strlit("green");
            reveal_strlit("transparent");
            assert("black"@[0] != "white"@[0] && "black"@[0] != "red"@[0] && "black"@[2] != "blue"@[2]
                && "black"@[0] != "green"@[0] && "black"@[0] != "transparent"@[0]);
            assert("white"@[0] != "red"@[0] && "white"@[0] != "blue"@[0] && "white"@[0] != "green"@[0]
                && "white"@[0] != "transparent"@[0]);
            assert("red"@[0] != "blue"@[0] && "red"@[0] != "green"@[0] && "red"@[0] != "transparent"@[0]);
            assert("blue"@[0] != "green"@[0] && "blue"@[0] != "transparent"@[0]);
            assert("green"@[0] != "transparent"@[0]);
            if n == "black"@ || n == "white"@ || n == "red"@ || n == "blue"@ || n == "green"@ || n == "transparent"@ {
                assert forall|i: int| 0 <= i < n.len() implies 'a' <= #[trigger] n[i] <= 'z' by {
                    if n == "black"@ {
                        assert(n =~= seq!['b', 'l', 'a', 'c', 'k']);
                    } else if n == "white"@ {
                        assert(n =~= seq!['w', 'h', 'i', 't', 'e']);
                    } else if n == "red"@ {
                        assert(n =~= seq!['r', 'e', 'd']);
                    } else if n == "blue"@ {
                        assert(n =~= seq!['b', 'l', 'u', 'e']);
                    } else if n == "green"@ {
                        assert(n =~= seq!['g', 'r', 'e', 'e', 'n']);
                    } else {
                        assert(n =~= seq!['t', 'r', 'a', 'n', 's', 'p', 'a', 'r', 'e', 'n', 't']);
                    }
                }
                lemma_lower_letters(text@, n);
                lemma_word_is_named(text@, d, as_array);
                assert(spec_parse_color(value, d) == match named_color(text@) {
                    Some(c) => c,
                    None => d,
                });
            }
        },
        _ => {},
    }
}

/// A decimal `u8`: see `spec_parse_u8`.
fn parse_u8(s: &[char]) -> (r: Option<u8>)
    ensures
        r == spec_parse_u8(s@),
{
    if s.len() > 0 && s[0] == '-' {
        return None;
    }
    match parse_i64(s) {
        Ok(n) => if 0 <= n && n <= 255 {
            Some(n as u8)
        } else {
            None
        },
        Err(_) => None,
    }
}

/// `s` without leading and trailing parentheses.
fn strip_parens(s: &[char]) -> (r: Vec<char>)
    ensures
        r@ == strip_parens_end(strip_parens_start(s@)),
{
    let mut i: usize = 0;
    proof {
        assert(s@.skip(0) =~= s@);
    }
    while i < s.len() && (s[i] == '(' || s[i] == ')')
        invariant
            i <= s.len(),
            strip_parens_start(s@) == strip_parens_start(s@.skip(i as int)),
        decreases s.len() - i,
    {
        proof {
            assert(s@.skip(i as int).drop_first() =~= s@.skip(i + 1));
        }
        i = i + 1;
    }
    let ghost t = s@.skip(i as int);
    proof {
        assert(strip_parens_start(t) == t);
    }
    let mut j: usize = s.len();
    proof {
        assert(t.take(t.len() as int) =~= t);
    }
    while j > i && (s[j - 1] == '(' || s[j - 1] == ')')
        invariant
            i <= j <= s.len(),
            t == s@.skip(i as int),
            strip_parens_end(t) == strip_parens_end(t.take(j - i)),
        decreases j,
    {
        proof {
            assert(t.take(j - i).drop_last() =~= t.take(j - i - 1));
        }
        j = j - 1;
    }
    let r = slice_range(s, i, j);
    proof {
        assert(r@ =~= t.take(j - i));
    }
    r
}

/// The bytes of the comma-separated pieces of `s` that read as `u8`.
fn parse_byte_list(s: &[char]) -> (r: Vec<u8>)
    ensures
        r@ == parsed_bytes(spec_split(s@, ',')),
{
    let mut out: Vec<u8> = Vec::new();
    let mut start: usize = 0;
    let ghost mut done: Seq<Seq<char>> = Seq::empty();
    proof {
        assert(s@.skip(0) =~= s@);
        assert(done + spec_split(s@.skip(0), ',') =~= spec_split(s@, ','));
    }
    loop
        invariant
            start <= s.len(),
            done + spec_split(s@.skip(start as int), ',') == spec_split(s@, ','),
            out@ == parsed_bytes(done),
        decreases s.len() - start,
    {
        let rest = slice_range(s, start, s.len());
        proof {
            assert(rest@ =~= s@.skip(start as int));
        }
        match find_char(rest.as_slice(), ',') {
            Some(i) => {
                proof {
                    lemma_find_props(rest@, ',');
                }
                let piece = slice_range(rest.as_slice(), 0, i);
                let t = trim(piece.as_slice());
                let ghost before = out@;
                match parse_u8(t.as_slice()) {
                    Some(b) => {
                        out.push(b);
                    },
                    None => {},
                }
                proof {
                    let nd = done.push(piece@);
                    assert(piece@ =~= rest@.take(i as int));
                    assert(nd.drop_last() =~= done);
                    assert(out@ == parsed_bytes(nd));
                    assert(rest@.skip(i + 1) =~= s@.skip(start + i + 1));
                    assert(spec_split(rest@, ',') == seq![rest@.take(i as int)] + spec_split(rest@.skip(i + 1), ','));
                    assert(nd + spec_split(s@.skip(start + i + 1), ',') =~= done + spec_split(s@.skip(start as int), ','));
                    done = nd;
                }
                start = start + i + 1;
            },
            None => {
                let t = trim(rest.as_slice());
                match parse_u8(t.as_slice()) {
                    Some(b) => {
                        out.push(b);
                    },
                    None => {},
                }
                proof {
                    let nd = done.push(rest@);
                    assert(nd.drop_last() =~= done);
                    assert(spec_split(rest@, ',') == seq![rest@]);
                    assert(nd =~= done + spec_split(s@.skip(start as int), ','));
                }
                return out;
            },
        }
    }
}

/// The value of a hex digit.
fn hex_digit(c: char) -> (r: Option<u8>)
    ensures
        match r {
            Some(v) => hex_value(c) == Some(v as int),
            None => hex_value(c) is None,
        },
{
    if '0' <= c && c <= '9' {
        Some((c as u32 - '0' as u32) as u8)
    } else if 'a' <= c && c <= 'f' {
        Some((c as u32 - 'a' as u32 + 10) as u8)
    } else if 'A' <= c && c <= 'F' {
        Some((c as u32 - 'A' as u32 + 10) as u8)
    } else {
        None
    }
}

/// The colour of a hex code: see `hex_color`.
fn parse_hex(t: &[char]) -> (r: Option<Rgba>)
    ensures
        r == hex_color(t@),
{
    if t.len() == 0 || t[0] != '#' {
        return None;
    }
    let n = t.len() - 1;
    if n != 6 && n != 8 {
        return None;
    }
    let ghost h = t@.drop_first();
    let mut digits: Vec<u8> = Vec::new();
    let mut i: usize = 0;
    while i < n
        invariant
            i <= n,
            n == t.len() - 1,
            h == t@.drop_first(),
            digits@.len() == i,
            forall|k: int| 0 <= k < i ==> hex_value(#[trigger] h[k]) == Some(digits@[k] as int),
        decreases n - i,
    {
        match hex_digit(t[i + 1]) {
            Some(v) => {
                digits.push(v);
            },
            None => {
                proof {
                    assert(hex_value(h[i as int]) is None);
                }
                return None;
            },
        }
        i = i + 1;
    }
    proof {
        assert forall|k: int| 0 <= k < h.len() implies hex_value(#[trigger] h[k]) is Some by {
            assert(hex_value(h[k]) == Some(digits@[k] as int));
        }
    }
    let r = digits[0] * 16 + digits[1];
    let g = digits[2] * 16 + digits[3];
    let b = digits[4] * 16 + digits[5];
    let a = if n == 8 { digits[6] * 16 + digits[7] } else { 255 };
    proof {
        assert(hex_value(h[0]) == Some(digits@[0] as int));
        assert(hex_value(h[1]) == Some(digits@[1] as int));
        assert(hex_value(h[2]) == Some(digits@[2] as int));
        assert(hex_value(h[3]) == Some(digits@[3] as int));
        assert(hex_value(h[4]) == Some(digits@[4] as int));
        assert(hex_value(h[5]) == Some(digits@[5] as int));
        if n == 8 {
            assert(hex_value(h[6]) == Some(digits@[6] as int));
            assert(hex_value(h[7]) == Some(digits@[7] as int));
        }
    }
    Some([r, g, b, a])
}

/// The colour a template value describes: see `spec_parse_color`.
pub fn parse_color(value: &Json, default: Rgba) -> (r: Rgba)
    ensures
        r == spec_parse_color(*value, default),
{
    match value {
        Json::Array(items) => {
            let mut channels: [u8; 4] = [0u8, 0u8, 0u8, 0u8];
            let mut i: usize = 0;
            while i < 4 && i < items.len()
                invariant
                    i <= 4,
                    i <= items.len(),
                    forall|k: int| 0 <= k < i ==> channels[k] == array_channel(items@, k),
                    forall|k: int| i <= k < 4 ==> channels[k] == 0u8,
                decreases 4 - i,
            {
                let c = match as_u64(&items[i]) {
                    Some(n) => n as u8,
                    None => 0u8,
                };
                channels[i] = c;
                i = i + 1;
            }
            if items.len() == 3 {
                channels[3] = 255u8;
            }
            proof {
                assert(channels =~= array_color(items@));
            }
            channels
        },
        Json::Str { text, .. } => {
            let t = to_chars(text.as_str());
            let trimmed = trim(t.as_slice());
            let inner = strip_parens(trimmed.as_slice());
            if find_char(inner.as_slice(), ',').is_some() {
                let vals = parse_byte_list(inner.as_slice());
                if vals.len() == 3 {
                    return [vals[0], vals[1], vals[2], 255u8];
                } else if vals.len() == 4 {
                    return [vals[0], vals[1], vals[2], vals[3]];
                }
            }
            match parse_hex(t.as_slice()) {
                Some(c) => c,
                None => {
                    let lower = ascii_lower(t.as_slice());
                    let l = lower.as_slice();
                    if chars_eq_str(l, "black") {
                        [0u8, 0u8, 0u8, 255u8]
                    } else if chars_eq_str(l, "white") {
                        [255u8, 255u8, 255u8, 255u8]
                    } else if chars_eq_str(l, "red") {
                        [255u8, 0u8, 0u8, 255u8]
                    } else if chars_eq_str(l, "blue") {
                        [0u8, 0u8, 255u8, 255u8]
                    } else if chars_eq_str(l, "green") {
                        [0u8, 128u8, 0u8, 255u8]
                    } else if chars_eq_str(l, "transparent") {
                        [0u8, 0u8, 0u8, 0u8]
                    } else {
                        default
                    }
                },
            }
        },
        _ => default,
    }
}

} // verus!
