//! The helpers that watermark templates call: splitting text at a
//! separator, reading EXIF numbers, choosing a brand logo by the camera
//! make, and writing paths with forward slashes.
use vstd::prelude::*;
use crate::chars::{to_chars, from_chars, slice_range, parse_i64, spec_parse_i64, chars_eq_str};
use crate::exif::ExifMap;
use crate::ini::lookup_entry;
use crate::listing::{lowercased, to_lowercase};

verus! {

/// Whether `sep` occurs in `s` at `i`.
pub open spec fn occurs_at(s: Seq<char>, sep: Seq<char>, i: int) -> bool {
    0 <= i && i + sep.len() <= s.len() && s.subrange(i, i + sep.len()) == sep
}

/// The first position of `sep` in `s`, as `str::find` gives it.
pub open spec fn first_occurrence(s: Seq<char>, sep: Seq<char>) -> Option<int> {
    if exists|i: int| #[trigger] occurs_at(s, sep, i) {
        Some(choose|i: int| #[trigger] occurs_at(s, sep, i) && forall|j: int| 0 <= j < i ==> !occurs_at(s, sep, j))
    } else {
        None
    }
}

/// Whether `sep` occurs in `s`, as `str::contains` tests it.
pub open spec fn contains_text(s: Seq<char>, sep: Seq<char>) -> bool {
    exists|i: int| #[trigger] occurs_at(s, sep, i)
}

/// The first position of `sep` in `s`.
pub fn find_text(s: &[char], sep: &[char]) -> (r: Option<usize>)
    ensures
        match r {
            Some(i) => occurs_at(s@, sep@, i as int) && forall|j: int| 0 <= j < i ==> !occurs_at(s@, sep@, j),
            None => forall|i: int| !occurs_at(s@, sep@, i),
        },
        r matches Some(i) ==> first_occurrence(s@, sep@) == Some(i as int),
        r is None ==> first_occurrence(s@, sep@) is None,
{
    if sep.len() > s.len() {
        return None;
    }
    if sep.len() == 0 {
        proof {
            assert(s@.subrange(0, 0) =~= sep@);
            assert(occurs_at(s@, sep@, 0));
            let f = choose|t: int| #[trigger] occurs_at(s@, sep@, t) && forall|j: int| 0 <= j < t ==> !occurs_at(s@, sep@, j);
            assert(occurs_at(s@, sep@, f) && forall|j: int| 0 <= j < f ==> !occurs_at(s@, sep@, j));
            assert(f == 0);
        }
        return Some(0);
    }
    let last = s.len() - sep.len();
    let mut i: usize = 0;
    while i <= last
        invariant
            sep.len() <= s.len(),
            sep.len() > 0,
            last == s.len() - sep.len(),
            i <= last + 1,
            forall|j: int| 0 <= j < i ==> !occurs_at(s@, sep@, j),
        decreases s.len() - i,
    {
        let mut k: usize = 0;
        while k < sep.len() && s[i + k] == sep[k]
            invariant
                i + sep.len() <= s.len(),
                k <= sep.len(),
                forall|t: int| 0 <= t < k ==> s@[i + t] == sep@[t],
            decreases sep.len() - k,
        {
            k = k + 1;
        }
        if k == sep.len() {
            proof {
                assert(s@.subrange(i as int, i + sep.len()) =~= sep@);
                assert(occurs_at(s@, sep@, i as int));
                let f = choose|t: int| #[trigger] occurs_at(s@, sep@, t) && forall|j: int| 0 <= j < t ==> !occurs_at(s@, sep@, j);
                assert(occurs_at(s@, sep@, f) && forall|j: int| 0 <= j < f ==> !occurs_at(s@, sep@, j));
                assert(f == i);
            }
            return Some(i);
        }
        proof {
            assert(s@.subrange(i as int, i + sep.len())[k as int] != sep@[k as int]);
        }
        i = i + 1;
    }
    proof {
        assert forall|j: int| !occurs_at(s@, sep@, j) by {
            if 0 <= j && j + sep.len() <= s.len() {
                assert(j < i);
            }
        }
    }
    None
}

/// The three parts of Python's `str.partition`: before the first `sep`,
/// `sep`, after it; or the whole text and two empty parts.
pub open spec fn spec_partition(s: Seq<char>, sep: Seq<char>) -> (Seq<char>, Seq<char>, Seq<char>) {
    match first_occurrence(s, sep) {
        Some(i) => (s.take(i), sep, s.skip(i + sep.len())),
        None => (s, Seq::empty(), Seq::empty()),
    }
}

/// Where `sep` occurs at `i`, there is a first place where it occurs.
proof fn lemma_first_occurrence_found(s: Seq<char>, sep: Seq<char>, i: int)
    requires
        occurs_at(s, sep, i),
    ensures
        exists|m: int| #[trigger] occurs_at(s, sep, m) && forall|j: int| 0 <= j < m ==> !occurs_at(s, sep, j),
    decreases i,
{
    if exists|j: int| 0 <= j < i && #[trigger] occurs_at(s, sep, j) {
        let j = choose|j: int| 0 <= j < i && #[trigger] occurs_at(s, sep, j);
        lemma_first_occurrence_found(s, sep, j);
    } else {
        assert(occurs_at(s, sep, i) && forall|j: int| 0 <= j < i ==> !occurs_at(s, sep, j));
    }
}

/// The three parts of a partition, joined again, give back the text.
pub proof fn law_partition_rejoins(s: Seq<char>, sep: Seq<char>)
    ensures
        ({
            let (a, b, c) = spec_partition(s, sep);
            a + b + c == s
        }),
{
    if exists|i: int| #[trigger] occurs_at(s, sep, i) {
        let i0 = choose|i: int| #[trigger] occurs_at(s, sep, i);
        lemma_first_occurrence_found(s, sep, i0);
        let i = first_occurrence(s, sep)->0;
        assert(occurs_at(s, sep, i));
        assert(s.take(i) + sep + s.skip(i + sep.len()) =~= s);
    } else {
        assert(s + Seq::<char>::empty() + Seq::<char>::empty() =~= s);
    }
}

/// `text` split at the first `separator`: see `spec_partition`.
pub fn partition(text: &str, separator: &str) -> (r: (String, String, String))
    ensures
        (r.0@, r.1@, r.2@) == spec_partition(text@, separator@),
{
    let s = to_chars(text);
    let sep = to_chars(separator);
    let n = s.len();
    let m = sep.len();
    match find_text(s.as_slice(), sep.as_slice()) {
        Some(i) => {
            proof {
                assert(occurs_at(s@, sep@, i as int));
                assert(i + m <= n);
            }
            let left = slice_range(s.as_slice(), 0, i);
            let right = slice_range(s.as_slice(), i + m, n);
            proof {
                assert(left@ =~= s@.take(i as int));
                assert(right@ =~= s@.skip(i + sep.len()));
            }
            (from_chars(left.as_slice()), separator.to_owned(), from_chars(right.as_slice()))
        },
        None => (text.to_owned(), String::new(), String::new()),
    }
}

/// The template method `text.partition(sep)`: refused with `empty
/// separator` for an empty `sep`, as Python refuses it; otherwise the three
/// parts of `partition`.
pub fn partition_method(text: &str, separator: &str) -> (r: Result<(String, String, String), String>)
    ensures
        separator@.len() == 0 ==> (r matches Err(m) && m@ == "empty separator"@),
        separator@.len() > 0 ==> (r matches Ok(p) && (p.0@, p.1@, p.2@) == spec_partition(text@, separator@)),
{
    if to_chars(separator).len() == 0 {
        Err("empty separator".to_owned())
    } else {
        Ok(partition(text, separator))
    }
}

/// An EXIF field read as a whole number for template arithmetic: its
/// decimal value, 0 where it is missing or not a decimal `i64`.
pub open spec fn spec_exif_number(e: Seq<(Seq<char>, Seq<char>)>, key: Seq<char>) -> i64 {
    match lookup_entry(e, key) {
        Some(v) => match spec_parse_i64(v) {
            Ok(n) => n as i64,
            Err(_) => 0,
        },
        None => 0,
    }
}

/// The field `key` read as a whole number: see `spec_exif_number`.
pub fn exif_number(exif: &ExifMap, key: &str) -> (r: i64)
    ensures
        r == spec_exif_number(exif@, key@),
{
    match exif.get(key) {
        Some(v) => match parse_i64(to_chars(v.as_str()).as_slice()) {
            Ok(n) => n,
            Err(_) => 0,
        },
        None => 0,
    }
}

/// A logo file as found in the logos directory: its stem and extension in
/// lower case, and its path.
pub struct LogoFile {
    pub stem: String,
    pub extension: String,
    pub path: String,
}

/// Whether a logo suits a camera make: an image file whose stem the
/// lower-case make contains.
pub open spec fn logo_fits(make: Seq<char>, logo: LogoFile) -> bool {
    let ext = logo.extension@;
    &&& (ext == "png"@ || ext == "jpg"@ || ext == "jpeg"@)
    &&& contains_text(lowercased(make), logo.stem@)
}

/// A path with every `\` written as `/`.
pub open spec fn forward(p: Seq<char>) -> Seq<char> {
    p.map_values(|c: char| if c == '\\' { '/' } else { c })
}

/// `p` with forward slashes.
pub fn forward_slashes(p: &str) -> (r: String)
    ensures
        r@ == forward(p@),
{
    let s = to_chars(p);
    let mut out: Vec<char> = Vec::new();
    let mut i: usize = 0;
    while i < s.len()
        invariant
            i <= s.len(),
            out@ == forward(s@.take(i as int)),
        decreases s.len() - i,
    {
        out.push(if s[i] == '\\' { '/' } else { s[i] });
        i = i + 1;
        proof {
            assert(out@ =~= forward(s@.take(i as int)));
        }
    }
    proof {
        assert(s@.take(s.len() as int) =~= s@);
    }
    from_chars(out.as_slice())
}

/// The logo for a camera make: the path, with forward slashes, of the
/// first logo that suits it, or nothing.
pub fn logo_for(make: &str, logos: &Vec<LogoFile>) -> (r: String)
    ensures
        (exists|i: int| 0 <= i < logos.len() && logo_fits(make@, #[trigger] logos@[i])) ==> exists|i: int|
            0 <= i < logos.len() && logo_fits(make@, #[trigger] logos@[i]) && r@ == forward(logos@[i].path@)
                && forall|j: int| 0 <= j < i ==> !logo_fits(make@, #[trigger] logos@[j]),
        (forall|i: int| 0 <= i < logos.len() ==> !logo_fits(make@, #[trigger] logos@[i])) ==> r@.len() == 0,
{
    let lower = to_lowercase(make);
    let m = to_chars(lower.as_str());
    let mut i: usize = 0;
    while i < logos.len()
        invariant
            i <= logos.len(),
            m@ == lowercased(make@),
            forall|j: int| 0 <= j < i ==> !logo_fits(make@, #[trigger] logos@[j]),
        decreases logos.len() - i,
    {
        let logo = &logos[i];
        let ext = to_chars(logo.extension.as_str());
        let image_file = chars_eq_str(ext.as_slice(), "png") || chars_eq_str(ext.as_slice(), "jpg")
            || chars_eq_str(ext.as_slice(), "jpeg");
        if image_file {
            let stem = to_chars(logo.stem.as_str());
            match find_text(m.as_slice(), stem.as_slice()) {
                Some(_) => {
                    let r = forward_slashes(logo.path.as_str());
                    proof {
                        assert(logo_fits(make@, logos@[i as int]));
                    }
                    return r;
                },
                None => {
                    proof {
                        assert(!logo_fits(make@, logos@[i as int]));
                    }
                },
            }
        }
        i = i + 1;
    }
    String::new()
}

} // verus!
