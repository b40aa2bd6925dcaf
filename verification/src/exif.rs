//! EXIF fields as ExifTool prints them: `Name : value` lines read into a
//! map from compacted names to ASCII values, and the image size written
//! back in the coordinates of the decoded pixels.
use vstd::prelude::*;
use crate::chars::{
    to_chars, trim, spec_trim, lines, spec_lines, seq_views, split_once, spec_split_once,
    is_whitespace, spec_is_whitespace, spec_is_ascii, from_chars, u32_to_decimal, spec_decimal,
};
use crate::ini::{Entries, entry_names, entries_view, lookup_entry, assign, law_assign, lemma_index_of_unique};
use crate::image::Image;

verus! {

/// A field name without whitespace and without `/`: `Camera Model Name`
/// becomes `CameraModelName`.
pub open spec fn exif_name(k: Seq<char>) -> Seq<char>
    decreases k.len(),
{
    if k.len() == 0 {
        Seq::empty()
    } else {
        let rest = exif_name(k.drop_last());
        let c = k.last();
        if !spec_is_whitespace(c) && c != '/' {
            rest.push(c)
        } else {
            rest
        }
    }
}

/// The ASCII characters of a sequence, in order.
pub open spec fn ascii_only(v: Seq<char>) -> Seq<char>
    decreases v.len(),
{
    if v.len() == 0 {
        Seq::empty()
    } else {
        let rest = ascii_only(v.drop_last());
        let c = v.last();
        if spec_is_ascii(c) {
            rest.push(c)
        } else {
            rest
        }
    }
}

/// A field value: trimmed, then only its ASCII characters.
pub open spec fn exif_value(v: Seq<char>) -> Seq<char> {
    ascii_only(spec_trim(v))
}

/// The fields of the first `n` lines: each line with a `:` sets the
/// compacted name before it to the cleaned value after it; a later line
/// overwrites an earlier one with the same name.
pub open spec fn exif_fields(ls: Seq<Seq<char>>, n: int) -> Entries
    decreases n,
{
    if n <= 0 {
        Seq::empty()
    } else {
        let prev = exif_fields(ls, n - 1);
        match spec_split_once(ls[n - 1], ':') {
            Some((k, v)) => assign(prev, exif_name(k), exif_value(v)),
            None => prev,
        }
    }
}

/// The fields of an ExifTool listing.
pub open spec fn spec_parse_exif(text: Seq<char>) -> Entries {
    exif_fields(spec_lines(text), spec_lines(text).len() as int)
}

/// EXIF fields by name; no name occurs twice.
pub struct ExifMap {
    entries: Vec<(String, String)>,
}

impl View for ExifMap {
    type V = Entries;

    closed spec fn view(&self) -> Entries {
        entries_view(self.entries@)
    }
}

impl ExifMap {
    #[verifier::type_invariant]
    closed spec fn inv(self) -> bool {
        entry_names(entries_view(self.entries@)).no_duplicates()
    }

    /// A map with no fields.
    pub fn new() -> (r: ExifMap)
        ensures
            r@ == Seq::<(Seq<char>, Seq<char>)>::empty(),
    {
        let r = ExifMap { entries: Vec::new() };
        proof {
            assert(entries_view(r.entries@) =~= Seq::<(Seq<char>, Seq<char>)>::empty());
            assert(entry_names(entries_view(r.entries@)) =~= Seq::<Seq<char>>::empty());
        }
        r
    }

    /// The number of fields.
    pub fn len(&self) -> (r: usize)
        ensures
            r == self@.len(),
    {
        self.entries.len()
    }

    /// The value of the field `key`, if there is one.
    pub fn get(&self, key: &str) -> (r: Option<String>)
        ensures
            match r {
                Some(v) => lookup_entry(self@, key@) == Some(v@),
                None => lookup_entry(self@, key@) is None,
            },
    {
        proof {
            use_type_invariant(self);
        }
        match find_field(&self.entries, &key.to_owned()) {
            Some(i) => {
                proof {
                    assert(entries_view(self.entries@)[i as int].1 == self.entries@[i as int].1@);
                }
                Some(self.entries[i].1.clone())
            },
            None => None,
        }
    }

    /// The field names, in the order they were first set.
    pub fn names(&self) -> (r: Vec<String>)
        ensures
            r@.map_values(|s: String| s@) == entry_names(self@),
    {
        let mut out: Vec<String> = Vec::new();
        let mut i: usize = 0;
        while i < self.entries.len()
            invariant
                i <= self.entries.len(),
                out@.map_values(|s: String| s@) == entry_names(entries_view(self.entries@)).take(i as int),
            decreases self.entries.len() - i,
        {
            let ghost before = out@;
            out.push(self.entries[i].0.clone());
            proof {
                assert(out@.map_values(|s: String| s@) =~= before.map_values(|s: String| s@).push(self.entries@[i as int].0@));
                assert(entry_names(entries_view(self.entries@)).take(i + 1) =~= entry_names(entries_view(self.entries@)).take(i as int).push(self.entries@[i as int].0@));
            }
            i = i + 1;
        }
        proof {
            assert(entry_names(entries_view(self.entries@)).take(i as int) =~= entry_names(entries_view(self.entries@)));
        }
        out
    }

    /// Whether the field `key` is there.
    pub fn contains_key(&self, key: &str) -> (r: bool)
        ensures
            r == (lookup_entry(self@, key@) is Some),
    {
        self.get(key).is_some()
    }

    /// Sets the field `key` to `value`, replacing an earlier value in place.
    pub fn insert(&mut self, key: &str, value: &str)
        ensures
            final(self)@ == assign(old(self)@, key@, value@),
    {
        proof {
            use_type_invariant(&*self);
        }
        let ghost e0 = self@;
        let k = key.to_owned();
        let v = value.to_owned();
        let mut entries: Vec<(String, String)> = Vec::new();
        std::mem::swap(&mut entries, &mut self.entries);
        match find_field(&entries, &k) {
            Some(j) => {
                entries.set(j, (k, v));
                proof {
                    assert(entries_view(entries@) =~= e0.update(j as int, (key@, value@)));
                }
            },
            None => {
                entries.push((k, v));
                proof {
                    assert(entries_view(entries@) =~= e0.push((key@, value@)));
                }
            },
        }
        proof {
            law_assign(e0, key@, value@);
        }
        self.entries = entries;
    }
}

/// The position of the field `key`.
fn find_field(entries: &Vec<(String, String)>, key: &String) -> (r: Option<usize>)
    requires
        entry_names(entries_view(entries@)).no_duplicates(),
    ensures
        match r {
            Some(i) => i < entries.len() && entry_names(entries_view(entries@)).contains(key@)
                && entry_names(entries_view(entries@)).index_of(key@) == i,
            None => !entry_names(entries_view(entries@)).contains(key@),
        },
{
    let ghost names = entry_names(entries_view(entries@));
    let mut i: usize = 0;
    while i < entries.len()
        invariant
            i <= entries.len(),
            names == entry_names(entries_view(entries@)),
            names.no_duplicates(),
            forall|j: int| 0 <= j < i ==> names[j] != key@,
        decreases entries.len() - i,
    {
        if entries[i].0 == *key {
            proof {
                assert(names[i as int] == key@);
                lemma_index_of_unique(names, i as int);
            }
            return Some(i);
        }
        proof {
            assert(names[i as int] == entries@[i as int].0@);
        }
        i = i + 1;
    }
    None
}

/// The compacted field name of `k`.
fn clean_name(k: &[char]) -> (r: String)
    ensures
        r@ == exif_name(k@),
{
    let mut out: Vec<char> = Vec::new();
    let mut i: usize = 0;
    while i < k.len()
        invariant
            i <= k.len(),
            out@ == exif_name(k@.take(i as int)),
        decreases k.len() - i,
    {
        let c = k[i];
        proof {
            assert(k@.take(i + 1).drop_last() =~= k@.take(i as int));
        }
        if !is_whitespace(c) && c != '/' {
            out.push(c);
        }
        i = i + 1;
    }
    proof {
        assert(k@.take(k.len() as int) =~= k@);
    }
    from_chars(out.as_slice())
}

/// The cleaned field value of `v`.
fn clean_value(v: &[char]) -> (r: String)
    ensures
        r@ == exif_value(v@),
{
    let t = trim(v);
    let mut out: Vec<char> = Vec::new();
    let mut i: usize = 0;
    while i < t.len()
        invariant
            i <= t.len(),
            out@ == ascii_only(t@.take(i as int)),
        decreases t.len() - i,
    {
        let c = t[i];
        proof {
            assert(t@.take(i + 1).drop_last() =~= t@.take(i as int));
        }
        if (c as u32) < 128 {
            out.push(c);
        }
        i = i + 1;
    }
    proof {
        assert(t@.take(t.len() as int) =~= t@);
    }
    from_chars(out.as_slice())
}

/// The fields of an ExifTool listing: see `spec_parse_exif`.
pub fn parse_exif(text: &str) -> (r: ExifMap)
    ensures
        r@ == spec_parse_exif(text@),
{
    let chars = to_chars(text);
    let ls = lines(chars.as_slice());
    let ghost lv = seq_views(ls@);
    let mut result = ExifMap::new();
    let mut i: usize = 0;
    while i < ls.len()
        invariant
            i <= ls.len(),
            lv == seq_views(ls@),
            lv == spec_lines(text@),
            result@ == exif_fields(lv, i as int),
        decreases ls.len() - i,
    {
        proof {
            assert(lv[i as int] == ls@[i as int]@);
        }
        match split_once(ls[i].as_slice(), ':') {
            Some((k, v)) => {
                let name = clean_name(k.as_slice());
                let value = clean_value(v.as_slice());
                result.insert(name.as_str(), value.as_str());
            },
            None => {},
        }
        i = i + 1;
    }
    result
}

/// Writes the image's own width and height as the `ImageWidth` and
/// `ImageHeight` fields, so that template sizes follow the decoded
/// (oriented) pixels.
pub fn normalize_exif_dimensions(exif: &mut ExifMap, image: &Image)
    ensures
        final(exif)@ == assign(
            assign(old(exif)@, "ImageWidth"@, spec_decimal(image.width as nat)),
            "ImageHeight"@,
            spec_decimal(image.height as nat),
        ),
{
    let w = u32_to_decimal(image.width);
    let h = u32_to_decimal(image.height);
    exif.insert("ImageWidth", w.as_str());
    exif.insert("ImageHeight", h.as_str());
}

/// Whether some line of `ls` names the field `k`: it has a `:` and the
/// text before it compacts to `k`.
pub open spec fn named_by_line(ls: Seq<Seq<char>>, n: int, k: Seq<char>) -> bool {
    exists|i: int| 0 <= i < n && #[trigger] line_names(ls[i], k)
}

/// Whether a line has a `:` with text before it that compacts to `k`.
pub open spec fn line_names(line: Seq<char>, k: Seq<char>) -> bool {
    match spec_split_once(line, ':') {
        Some((a, b)) => exif_name(a) == k,
        None => false,
    }
}

proof fn lemma_fields_from_lines(ls: Seq<Seq<char>>, n: int)
    requires
        0 <= n <= ls.len(),
    ensures
        entry_names(exif_fields(ls, n)).no_duplicates(),
        forall|k: Seq<char>| #[trigger] lookup_entry(exif_fields(ls, n), k) is Some ==> named_by_line(ls, n, k),
    decreases n,
{
    if n > 0 {
        lemma_fields_from_lines(ls, n - 1);
        let prev = exif_fields(ls, n - 1);
        match spec_split_once(ls[n - 1], ':') {
            Some((a, b)) => {
                law_assign(prev, exif_name(a), exif_value(b));
                assert forall|k: Seq<char>| #[trigger] lookup_entry(exif_fields(ls, n), k) is Some implies named_by_line(ls, n, k) by {
                    if k != exif_name(a) {
                        assert(named_by_line(ls, n - 1, k));
                        let i = choose|i: int| 0 <= i < n - 1 && #[trigger] line_names(ls[i], k);
                        assert(0 <= i < n);
                    } else {
                        assert(line_names(ls[n - 1], k));
                    }
                }
            },
            None => {
                assert forall|k: Seq<char>| #[trigger] lookup_entry(exif_fields(ls, n), k) is Some implies named_by_line(ls, n, k) by {
                    assert(named_by_line(ls, n - 1, k));
                    let i = choose|i: int| 0 <= i < n - 1 && #[trigger] line_names(ls[i], k);
                    assert(0 <= i < n);
                }
            },
        }
    } else {
        assert(entry_names(Seq::<(Seq<char>, Seq<char>)>::empty()) =~= Seq::<Seq<char>>::empty());
    }
}

/// Reading fields invents none: every field that comes out is named by a
/// line of the text, so a missing field stays missing.
pub proof fn law_exif_fields_from_text(text: Seq<char>, k: Seq<char>)
    ensures
        lookup_entry(spec_parse_exif(text), k) is Some ==> named_by_line(spec_lines(text), spec_lines(text).len() as int, k),
{
    lemma_fields_from_lines(spec_lines(text), spec_lines(text).len() as int);
}

/// After normalising, the width and height fields hold the image's own
/// size in decimal, and every other field is as it was.
pub proof fn law_normalized_dimensions(e: Entries, width: u32, height: u32, k: Seq<char>)
    requires
        entry_names(e).no_duplicates(),
    ensures
        ({
            let r = assign(assign(e, "ImageWidth"@, spec_decimal(width as nat)), "ImageHeight"@, spec_decimal(height as nat));
            &&& lookup_entry(r, "ImageHeight"@) == Some(spec_decimal(height as nat))
            &&& lookup_entry(r, "ImageWidth"@) == Some(spec_decimal(width as nat))
            &&& (k != "ImageWidth"@ && k != "ImageHeight"@) ==> lookup_entry(r, k) == lookup_entry(e, k)
        }),
{
    reveal_strlit("ImageWidth");
    reveal_strlit("ImageHeight");
    assert("ImageWidth"@.len() != "ImageHeight"@.len());
    let e1 = assign(e, "ImageWidth"@, spec_decimal(width as nat));
    law_assign(e, "ImageWidth"@, spec_decimal(width as nat));
    law_assign(e1, "ImageHeight"@, spec_decimal(height as nat));
    let r = assign(e1, "ImageHeight"@, spec_decimal(height as nat));
    assert(lookup_entry(r, "ImageHeight"@) == Some(spec_decimal(height as nat)));
    assert(lookup_entry(r, "ImageWidth"@) == if "ImageWidth"@ == "ImageHeight"@ { Some(spec_decimal(height as nat)) } else { lookup_entry(e1, "ImageWidth"@) });
    assert(lookup_entry(r, k) == if k == "ImageHeight"@ { Some(spec_decimal(height as nat)) } else { lookup_entry(e1, k) });
    assert(lookup_entry(e1, k) == if k == "ImageWidth"@ { Some(spec_decimal(width as nat)) } else { lookup_entry(e, k) });
}

} // verus!
