//! The application's INI configuration: named sections of `key = value`
//! entries, read from text, queried as strings, booleans and integers,
//! updated, and written back with a fixed key order.
use vstd::prelude::*;
use crate::chars::{
    to_chars, trim, spec_trim, lines, spec_lines, seq_views, split_once, spec_split_once,
    ascii_lower, spec_ascii_lower_seq, chars_eq_str, parse_i64, spec_parse_i64,
    int_error_message, spec_int_error_message, IntErrorKind, from_chars, slice_range,
};

verus! {

/// The entries of one section: keys with their values, in insertion order.
pub type Entries = Seq<(Seq<char>, Seq<char>)>;

/// The sections of a configuration, in the order they were created.
pub type Sections = Seq<(Seq<char>, Entries)>;

/// The keys of a section, in order.
pub open spec fn entry_names(e: Entries) -> Seq<Seq<char>> {
    e.map_values(|p: (Seq<char>, Seq<char>)| p.0)
}

/// The names of the sections, in order.
pub open spec fn section_names(s: Sections) -> Seq<Seq<char>> {
    s.map_values(|p: (Seq<char>, Entries)| p.0)
}

/// No section name occurs twice, and no key occurs twice in a section.
pub open spec fn ini_wf(s: Sections) -> bool {
    &&& section_names(s).no_duplicates()
    &&& forall|i: int| 0 <= i < s.len() ==> entry_names(#[trigger] s[i].1).no_duplicates()
}

/// The value of `key` in a section, if it is there.
pub open spec fn lookup_entry(e: Entries, key: Seq<char>) -> Option<Seq<char>> {
    if entry_names(e).contains(key) {
        Some(e[entry_names(e).index_of(key)].1)
    } else {
        None
    }
}

/// The entries of the section named `name`, if there is one.
pub open spec fn section_entries(s: Sections, name: Seq<char>) -> Option<Entries> {
    if section_names(s).contains(name) {
        Some(s[section_names(s).index_of(name)].1)
    } else {
        None
    }
}

/// The value stored under `section.key`, if any.
pub open spec fn lookup(s: Sections, section: Seq<char>, key: Seq<char>) -> Option<Seq<char>> {
    match section_entries(s, section) {
        Some(e) => lookup_entry(e, key),
        None => None,
    }
}

/// `key` set to `value` in a section: replaced in place where the key is
/// there, appended otherwise.
pub open spec fn assign(e: Entries, key: Seq<char>, value: Seq<char>) -> Entries {
    if entry_names(e).contains(key) {
        e.update(entry_names(e).index_of(key), (key, value))
    } else {
        e.push((key, value))
    }
}

/// `section.key` set to `value`; a missing section is created after the
/// others.
pub open spec fn spec_set(s: Sections, section: Seq<char>, key: Seq<char>, value: Seq<char>) -> Sections {
    if section_names(s).contains(section) {
        let i = section_names(s).index_of(section);
        s.update(i, (section, assign(s[i].1, key, value)))
    } else {
        s.push((section, seq![(key, value)]))
    }
}

pub proof fn lemma_index_of_unique(names: Seq<Seq<char>>, i: int)
    requires
        names.no_duplicates(),
        0 <= i < names.len(),
    ensures
        names.contains(names[i]),
        names.index_of(names[i]) == i,
{
    assert(names[i] == names[i]);
    let j = names.index_of(names[i]);
    assert(0 <= j < names.len() && names[j] == names[i]);
}

/// Setting a key in a list of entries keeps keys distinct, makes the key
/// read back as the value and leaves the other keys as they were.
pub proof fn law_assign(e: Entries, key: Seq<char>, value: Seq<char>)
    requires
        entry_names(e).no_duplicates(),
    ensures
        entry_names(assign(e, key, value)).no_duplicates(),
        forall|k: Seq<char>| #[trigger] lookup_entry(assign(e, key, value), k) == if k == key {
            Some(value)
        } else {
            lookup_entry(e, k)
        },
{
    let r = assign(e, key, value);
    let n = entry_names(e);
    let m = entry_names(r);
    if n.contains(key) {
        let i = n.index_of(key);
        assert(m =~= n);
        assert forall|k: Seq<char>| #[trigger] lookup_entry(r, k) == if k == key {
            Some(value)
        } else {
            lookup_entry(e, k)
        } by {
            if m.contains(k) {
                let j = m.index_of(k);
                lemma_index_of_unique(m, j);
                lemma_index_of_unique(n, j);
            }
            lemma_index_of_unique(m, i);
        }
    } else {
        assert(m =~= n.push(key));
        assert forall|a: int, b: int| 0 <= a < m.len() && 0 <= b < m.len() && a != b implies m[a]
            != m[b] by {
            if a == n.len() as int {
                assert(n[b] == m[b]);
            } else if b == n.len() as int {
                assert(n[a] == m[a]);
            }
        }
        assert forall|k: Seq<char>| #[trigger] lookup_entry(r, k) == if k == key {
            Some(value)
        } else {
            lookup_entry(e, k)
        } by {
            lemma_index_of_unique(m, n.len() as int);
            if m.contains(k) && k != key {
                let j = m.index_of(k);
                assert(j != n.len() as int);
                assert(n[j] == k);
                lemma_index_of_unique(n, j);
                lemma_index_of_unique(m, j);
            }
            if n.contains(k) {
                let j = n.index_of(k);
                assert(m[j] == k);
            }
        }
    }
}

/// Setting a value keeps the configuration well formed, makes `section.key`
/// read back as `value`, and leaves every other value as it was.
pub proof fn law_get_after_set(s: Sections, section: Seq<char>, key: Seq<char>, value: Seq<char>)
    requires
        ini_wf(s),
    ensures
        ini_wf(spec_set(s, section, key, value)),
        forall|sec: Seq<char>, k: Seq<char>| #[trigger]
            lookup(spec_set(s, section, key, value), sec, k) == if sec == section && k == key {
                Some(value)
            } else {
                lookup(s, sec, k)
            },
{
    let r = spec_set(s, section, key, value);
    let n = section_names(s);
    let m = section_names(r);
    if n.contains(section) {
        let i = n.index_of(section);
        law_assign(s[i].1, key, value);
        assert(m =~= n);
        assert forall|j: int| 0 <= j < r.len() implies entry_names(#[trigger] r[j].1).no_duplicates() by {
            if j != i {
                assert(r[j] == s[j]);
            }
        }
        assert forall|sec: Seq<char>, k: Seq<char>| #[trigger]
            lookup(r, sec, k) == if sec == section && k == key {
                Some(value)
            } else {
                lookup(s, sec, k)
            } by {
            lemma_index_of_unique(m, i);
            if m.contains(sec) {
                let j = m.index_of(sec);
                lemma_index_of_unique(m, j);
                lemma_index_of_unique(n, j);
            }
        }
    } else {
        let last = n.len() as int;
        assert(m =~= n.push(section));
        assert forall|a: int, b: int| 0 <= a < m.len() && 0 <= b < m.len() && a != b implies m[a]
            != m[b] by {
            if a == last {
                assert(n[b] == m[b]);
            } else if b == last {
                assert(n[a] == m[a]);
            }
        }
        let fresh: Entries = seq![(key, value)];
        assert(entry_names(fresh) =~= seq![key]);
        assert forall|j: int| 0 <= j < r.len() implies entry_names(#[trigger] r[j].1).no_duplicates() by {
            if j != last {
                assert(r[j] == s[j]);
            }
        }
        assert forall|sec: Seq<char>, k: Seq<char>| #[trigger]
            lookup(r, sec, k) == if sec == section && k == key {
                Some(value)
            } else {
                lookup(s, sec, k)
            } by {
            lemma_index_of_unique(m, last);
            lemma_index_of_unique(entry_names(fresh), 0);
            if m.contains(sec) && sec != section {
                let j = m.index_of(sec);
                assert(j != last);
                assert(n[j] == sec);
                lemma_index_of_unique(n, j);
                lemma_index_of_unique(m, j);
            }
            if n.contains(sec) {
                let j = n.index_of(sec);
                assert(m[j] == sec);
            }
            if sec == section && entry_names(fresh).contains(k) {
                assert(entry_names(fresh)[0] == k);
            }
        }
    }
}

/// Setting the same value twice is the same as setting it once.
pub proof fn law_set_idempotent(s: Sections, section: Seq<char>, key: Seq<char>, value: Seq<char>)
    requires
        ini_wf(s),
    ensures
        spec_set(spec_set(s, section, key, value), section, key, value) == spec_set(s, section, key, value),
{
    let r = spec_set(s, section, key, value);
    law_get_after_set(s, section, key, value);
    let m = section_names(r);
    assert(m.contains(section)) by {
        if section_names(s).contains(section) {
            let i = section_names(s).index_of(section);
            assert(m[i] == section);
        } else {
            assert(m[s.len() as int] == section);
        }
    }
    let i = m.index_of(section);
    let e = r[i].1;
    let en = entry_names(e);
    assert(en.contains(key)) by {
        if section_names(s).contains(section) {
            let i0 = section_names(s).index_of(section);
            lemma_index_of_unique(m, i0);
            let e0 = s[i0].1;
            if entry_names(e0).contains(key) {
                assert(en[entry_names(e0).index_of(key)] == key);
            } else {
                assert(en[e0.len() as int] == key);
            }
        } else {
            lemma_index_of_unique(m, s.len() as int);
            assert(en[0] == key);
        }
    }
    let j = en.index_of(key);
    assert(lookup(r, section, key) == Some(value));
    assert(e[j] == (key, value));
    assert(e.update(j, (key, value)) =~= e);
    assert(r.update(i, (section, e)) =~= r);
}

/// The entries of a section held as strings, by their views.
pub open spec fn entries_view(e: Seq<(String, String)>) -> Entries {
    e.map_values(|p: (String, String)| (p.0@, p.1@))
}

/// The sections held as strings, by their views.
pub open spec fn sections_view(s: Seq<(String, Vec<(String, String)>)>) -> Sections {
    s.map_values(|p: (String, Vec<(String, String)>)| (p.0@, entries_view(p.1@)))
}

/// The message of a missing configuration value.
pub open spec fn missing_message(section: Seq<char>, key: Seq<char>) -> Seq<char> {
    "配置项不存在: "@ + section + "."@ + key
}

/// The spellings `get_bool` reads as true, compared after ASCII
/// lower-casing.
pub open spec fn is_truthy(s: Seq<char>) -> bool {
    s == "true"@ || s == "1"@ || s == "yes"@ || s == "on"@
}

/// How `get_bool` reads a stored value `v` into its flag `b` (its result
/// is `Ok(b)` with `b == is_truthy(spec_ascii_lower_seq(v))`): the
/// spellings of yes, in any ASCII case, read as true, and those of no, an
/// empty value, and anything else not spelling yes, as false. So a stored
/// `false` or `False` is never read as true.
pub proof fn law_get_bool_spellings(v: Seq<char>, b: bool)
    requires
        b == is_truthy(spec_ascii_lower_seq(v)),
    ensures
        spec_ascii_lower_seq(v) == "true"@ ==> b,
        spec_ascii_lower_seq(v) == "1"@ ==> b,
        spec_ascii_lower_seq(v) == "yes"@ ==> b,
        spec_ascii_lower_seq(v) == "on"@ ==> b,
        spec_ascii_lower_seq(v) == "false"@ ==> !b,
        spec_ascii_lower_seq(v) == "0"@ ==> !b,
        spec_ascii_lower_seq(v) == "no"@ ==> !b,
        spec_ascii_lower_seq(v) == "off"@ ==> !b,
        v.len() == 0 ==> !b,
        b ==> v.len() == 1 || v.len() == 2 || v.len() == 3 || v.len() == 4,
{
    reveal_strlit("true");
    reveal_strlit("1");
    reveal_strlit("yes");
    reveal_strlit("on");
    reveal_strlit("false");
    reveal_strlit("0");
    reveal_strlit("no");
    reveal_strlit("off");
    let l = spec_ascii_lower_seq(v);
    assert(l.len() == v.len());
    if l == "false"@ {
        assert(l != "true"@ && l != "1"@ && l != "yes"@ && l != "on"@);
    }
    if l == "0"@ {
        assert(l[0] != "1"@[0]);
    }
    if l == "no"@ {
        assert(l[0] != "on"@[0]);
    }
    if l == "off"@ {
        assert(l[0] != "yes"@[0]);
    }
}

/// An INI configuration: sections of `key = value` entries. Sections and
/// keys keep the order in which they first appeared.
pub struct IniConfig {
    sections: Vec<(String, Vec<(String, String)>)>,
}

impl View for IniConfig {
    type V = Sections;

    closed spec fn view(&self) -> Sections {
        sections_view(self.sections@)
    }
}

impl IniConfig {
    #[verifier::type_invariant]
    closed spec fn inv(self) -> bool {
        ini_wf(sections_view(self.sections@))
    }

    /// A configuration with no sections.
    pub fn new() -> (r: IniConfig)
        ensures
            r@ == Seq::<(Seq<char>, Entries)>::empty(),
            ini_wf(r@),
    {
        let r = IniConfig { sections: Vec::new() };
        proof {
            assert(sections_view(r.sections@) =~= Seq::<(Seq<char>, Entries)>::empty());
        }
        r
    }

    /// The value stored under `section.key`, or the message that it is
    /// missing.
    pub fn get(&self, section: &str, key: &str) -> (r: Result<String, String>)
        ensures
            ini_wf(self@),
            match r {
                Ok(v) => lookup(self@, section@, key@) == Some(v@),
                Err(e) => lookup(self@, section@, key@) is None && e@ == missing_message(section@, key@),
            },
    {
        proof {
            use_type_invariant(self);
        }
        let sec = section.to_owned();
        let k = key.to_owned();
        match find_section(&self.sections, &sec) {
            Some(i) => {
                let entries = &self.sections[i].1;
                proof {
                    assert(sections_view(self.sections@)[i as int].1 == entries_view(entries@));
                }
                match find_entry(entries, &k) {
                    Some(j) => {
                        let v = entries[j].1.clone();
                        proof {
                            assert(entries_view(entries@)[j as int].1 == entries@[j as int].1@);
                        }
                        return Ok(v);
                    },
                    None => {},
                }
            },
            None => {},
        }
        let mut message = String::from_str("配置项不存在: ");
        message.append(section);
        message.append(".");
        message.append(key);
        Err(message)
    }

    /// Whether the value under `section.key` reads as true: `true`, `1`,
    /// `yes` or `on` in any ASCII case.
    pub fn get_bool(&self, section: &str, key: &str) -> (r: Result<bool, String>)
        ensures
            match r {
                Ok(b) => exists|v: Seq<char>| lookup(self@, section@, key@) == Some(v) && b == is_truthy(spec_ascii_lower_seq(v)),
                Err(e) => lookup(self@, section@, key@) is None && e@ == missing_message(section@, key@),
            },
    {
        let v = self.get(section, key)?;
        let lower = ascii_lower(to_chars(v.as_str()).as_slice());
        let l = lower.as_slice();
        let b = chars_eq_str(l, "true") || chars_eq_str(l, "1") || chars_eq_str(l, "yes")
            || chars_eq_str(l, "on");
        Ok(b)
    }

    /// The value under `section.key` read as a decimal `i64`, or the
    /// message of what is missing or malformed.
    pub fn get_i64(&self, section: &str, key: &str) -> (r: Result<i64, String>)
        ensures
            match r {
                Ok(n) => exists|v: Seq<char>| lookup(self@, section@, key@) == Some(v) && spec_parse_i64(v) == Ok::<int, IntErrorKind>(n as int),
                Err(e) => (lookup(self@, section@, key@) is None && e@ == missing_message(section@, key@))
                    || exists|v: Seq<char>, k: IntErrorKind| lookup(self@, section@, key@) == Some(v) && spec_parse_i64(v) == Err::<int, IntErrorKind>(k) && e@ == spec_int_error_message(k),
            },
    {
        let v = self.get(section, key)?;
        match parse_i64(to_chars(v.as_str()).as_slice()) {
            Ok(n) => Ok(n),
            Err(k) => Err(int_error_message(k)),
        }
    }

    /// Sets `section.key` to `value`, creating the section after the others
    /// when it is new and appending the key when it is new.
    pub fn set(&mut self, section: &str, key: &str, value: &str)
        ensures
            ini_wf(old(self)@),
            final(self)@ == spec_set(old(self)@, section@, key@, value@),
    {
        proof {
            use_type_invariant(&*self);
        }
        let ghost s0 = self@;
        let sec = section.to_owned();
        let k = key.to_owned();
        let v = value.to_owned();
        let mut secs: Vec<(String, Vec<(String, String)>)> = Vec::new();
        std::mem::swap(&mut secs, &mut self.sections);
        proof {
            assert(sections_view(secs@) == s0);
        }
        match find_section(&secs, &sec) {
            Some(i) => {
                let (name, mut entries) = secs.remove(i);
                let ghost e0 = entries_view(entries@);
                proof {
                    assert(s0[i as int] == (name@, e0));
                    assert(entry_names(s0[i as int].1).no_duplicates());
                }
                match find_entry(&entries, &k) {
                    Some(j) => {
                        entries.set(j, (k, v));
                        proof {
                            assert(entries_view(entries@) =~= e0.update(j as int, (key@, value@)));
                        }
                    },
                    None => {
                        entries.push((k, v));
                        proof {
                            assert(entries_view(entries@) =~= e0.push((key@, value@)));
                        }
                    },
                }
                proof {
                    assert(entries_view(entries@) == assign(e0, key@, value@));
                }
                secs.insert(i, (name, entries));
                proof {
                    assert(sections_view(secs@) =~= s0.update(i as int, (section@, assign(e0, key@, value@))));
                }
            },
            None => {
                let mut entries: Vec<(String, String)> = Vec::new();
                entries.push((k, v));
                proof {
                    assert(entries_view(entries@) =~= seq![(key@, value@)]);
                }
                secs.push((sec, entries));
                proof {
                    assert(sections_view(secs@) =~= s0.push((section@, seq![(key@, value@)])));
                }
            },
        }
        proof {
            law_get_after_set(s0, section@, key@, value@);
        }
        self.sections = secs;
    }
}

/// The position of the section named `name`.
fn find_section(secs: &Vec<(String, Vec<(String, String)>)>, name: &String) -> (r: Option<usize>)
    requires
        section_names(sections_view(secs@)).no_duplicates(),
    ensures
        match r {
            Some(i) => i < secs.len() && section_names(sections_view(secs@)).contains(name@)
                && section_names(sections_view(secs@)).index_of(name@) == i,
            None => !section_names(sections_view(secs@)).contains(name@),
        },
{
    let ghost names = section_names(sections_view(secs@));
    let mut i: usize = 0;
    while i < secs.len()
        invariant
            i <= secs.len(),
            names == section_names(sections_view(secs@)),
            names.no_duplicates(),
            forall|j: int| 0 <= j < i ==> names[j] != name@,
        decreases secs.len() - i,
    {
        if secs[i].0 == *name {
            proof {
                assert(names[i as int] == name@);
                lemma_index_of_unique(names, i as int);
            }
            return Some(i);
        }
        proof {
            assert(names[i as int] == secs@[i as int].0@);
        }
        i = i + 1;
    }
    None
}

/// The position of the entry with key `key`.
fn find_entry(entries: &Vec<(String, String)>, key: &String) -> (r: Option<usize>)
    requires
        entry_names(entries_view(entries@)).no_duplicates(),
    ensures
        match r {
            Some(i) => i < entries.len() && entry_names(entries_view(entries@)).contains(key@)
                && entry_names(entries_view(entries@)).index_of(key@) == i,
            None => !entry_names(entries_view(entries@)).contains(key@),
        },
{
    let ghost names = entry_names(entries_view(entries@));
    let mut i: usize = 0;
    while i < entries.len()
        invariant
            i <= entries.len(),
            names == entry_names(entries_view(entries@)),
            names.no_duplicates(),
            forall|j: int| 0 <= j < i ==> names[j] != key@,
        decreases entries.len() - i,
    {
        if entries[i].0 == *key {
            proof {
                assert(names[i as int] == key@);
                lemma_index_of_unique(names, i as int);
            }
            return Some(i);
        }
        proof {
            assert(names[i as int] == entries@[i as int].0@);
        }
        i = i + 1;
    }
    None
}

/// What one line does to the reading state, the current section and the
/// sections so far: blank lines and lines starting with `#` or `;` are
/// skipped, `[name]` switches the section, and `key = value` sets a value
/// with both sides trimmed; other lines are skipped.
pub open spec fn parse_line(state: (Seq<char>, Sections), raw: Seq<char>) -> (Seq<char>, Sections) {
    let line = spec_trim(raw);
    if line.len() == 0 || line[0] == '#' || line[0] == ';' {
        state
    } else if line[0] == '[' && line.last() == ']' {
        (line.subrange(1, line.len() - 1), state.1)
    } else {
        match spec_split_once(line, '=') {
            Some((k, v)) => (state.0, spec_set(state.1, state.0, spec_trim(k), spec_trim(v))),
            None => state,
        }
    }
}

/// The reading state after the first `n` lines, starting in `DEFAULT`.
pub open spec fn parse_lines(ls: Seq<Seq<char>>, n: int) -> (Seq<char>, Sections)
    decreases n,
{
    if n <= 0 {
        ("DEFAULT"@, Seq::empty())
    } else {
        parse_line(parse_lines(ls, n - 1), ls[n - 1])
    }
}

/// The configuration that a text describes.
pub open spec fn spec_parse(text: Seq<char>) -> Sections {
    parse_lines(spec_lines(text), spec_lines(text).len() as int).1
}

proof fn lemma_parse_wf(ls: Seq<Seq<char>>, n: int)
    requires
        0 <= n <= ls.len(),
    ensures
        ini_wf(parse_lines(ls, n).1),
    decreases n,
{
    if n > 0 {
        lemma_parse_wf(ls, n - 1);
        let st = parse_lines(ls, n - 1);
        let line = spec_trim(ls[n - 1]);
        match spec_split_once(line, '=') {
            Some((k, v)) => {
                law_get_after_set(st.1, st.0, spec_trim(k), spec_trim(v));
            },
            None => {},
        }
    } else {
        assert(section_names(Seq::<(Seq<char>, Entries)>::empty()) =~= Seq::<Seq<char>>::empty());
    }
}

/// One `key = value` line with its line ending.
pub open spec fn render_entry(k: Seq<char>, v: Seq<char>) -> Seq<char> {
    k + " = "@ + v + "\n"@
}

/// The keys of `order` that the section holds, in that order, each with
/// its value; the first `n` keys of `order` are taken.
pub open spec fn render_ordered(e: Entries, order: Seq<Seq<char>>, n: int) -> Seq<char>
    decreases n,
{
    if n <= 0 {
        Seq::empty()
    } else {
        render_ordered(e, order, n - 1) + match lookup_entry(e, order[n - 1]) {
            Some(v) => render_entry(order[n - 1], v),
            None => Seq::empty(),
        }
    }
}

/// The entries among the first `n` of the section whose keys `order` does
/// not list, in the section's order.
pub open spec fn render_rest(e: Entries, order: Seq<Seq<char>>, n: int) -> Seq<char>
    decreases n,
{
    if n <= 0 {
        Seq::empty()
    } else {
        render_rest(e, order, n - 1) + if order.contains(e[n - 1].0) {
            Seq::empty()
        } else {
            render_entry(e[n - 1].0, e[n - 1].1)
        }
    }
}

/// The keys of the `DEFAULT` section that come first, in this order.
pub open spec fn default_order() -> Seq<Seq<char>> {
    seq![
        "host"@,
        "port"@,
        "debug"@,
        "input_folder"@,
        "output_folder"@,
        "override_existed"@,
        "supported_file_suffixes"@,
        "quality"@,
        "subsampling"@,
    ]
}

/// The keys of the `render` section that come first.
pub open spec fn render_order() -> Seq<Seq<char>> {
    seq!["template_name"@]
}

/// A written section: its header, its listed keys in order, its other keys
/// in its own order, and a blank line; nothing where there is no such
/// section.
pub open spec fn render_section(s: Sections, name: Seq<char>, order: Seq<Seq<char>>) -> Seq<char> {
    match section_entries(s, name) {
        Some(e) => "["@ + name + "]\n"@ + render_ordered(e, order, order.len() as int) + render_rest(
            e,
            order,
            e.len() as int,
        ) + "\n"@,
        None => Seq::empty(),
    }
}

/// The written configuration: the `DEFAULT` and `render` sections, in that
/// order; other sections are not written.
pub open spec fn spec_serialize(s: Sections) -> Seq<char> {
    render_section(s, "DEFAULT"@, default_order()) + render_section(s, "render"@, render_order())
}

/// The views of a vector of string slices.
pub open spec fn str_views(v: Seq<&str>) -> Seq<Seq<char>> {
    v.map_values(|x: &str| x@)
}

impl IniConfig {
    /// The configuration that `content` describes, read line by line.
    pub fn parse(content: &str) -> (r: IniConfig)
        ensures
            r@ == spec_parse(content@),
            ini_wf(r@),
    {
        let text = to_chars(content);
        let ls = lines(text.as_slice());
        let ghost lv = seq_views(ls@);
        let mut cfg = IniConfig::new();
        let mut section: Vec<char> = to_chars("DEFAULT");
        let mut i: usize = 0;
        while i < ls.len()
            invariant
                i <= ls.len(),
                lv == seq_views(ls@),
                lv == spec_lines(content@),
                (section@, cfg@) == parse_lines(lv, i as int),
            decreases ls.len() - i,
        {
            let line = trim(ls[i].as_slice());
            proof {
                assert(lv[i as int] == ls@[i as int]@);
            }
            let n = line.len();
            if n == 0 || line[0] == '#' || line[0] == ';' {
            } else if line[0] == '[' && line[n - 1] == ']' {
                section = slice_range(line.as_slice(), 1, n - 1);
            } else {
                match split_once(line.as_slice(), '=') {
                    Some((k, v)) => {
                        let kt = trim(k.as_slice());
                        let vt = trim(v.as_slice());
                        let sec = from_chars(section.as_slice());
                        let key = from_chars(kt.as_slice());
                        let value = from_chars(vt.as_slice());
                        cfg.set(sec.as_str(), key.as_str(), value.as_str());
                    },
                    None => {},
                }
            }
            i = i + 1;
        }
        proof {
            lemma_parse_wf(lv, lv.len() as int);
        }
        cfg
    }

    /// The configuration as text: see `spec_serialize`.
    pub fn serialize(&self) -> (r: String)
        ensures
            r@ == spec_serialize(self@),
    {
        proof {
            use_type_invariant(self);
        }
        let default_keys: Vec<&str> = vec![
            "host",
            "port",
            "debug",
            "input_folder",
            "output_folder",
            "override_existed",
            "supported_file_suffixes",
            "quality",
            "subsampling",
        ];
        let render_keys: Vec<&str> = vec!["template_name"];
        proof {
            assert(str_views(default_keys@) =~= default_order());
            assert(str_views(render_keys@) =~= render_order());
        }
        let mut out = String::new();
        write_section(&mut out, &self.sections, "DEFAULT", &default_keys);
        write_section(&mut out, &self.sections, "render", &render_keys);
        proof {
            assert(out@ =~= spec_serialize(self@));
        }
        out
    }
}

/// Whether `key` is one of `order`.
fn listed(order: &Vec<&str>, key: &String) -> (r: bool)
    ensures
        r == str_views(order@).contains(key@),
{
    let mut j: usize = 0;
    while j < order.len()
        invariant
            j <= order.len(),
            forall|t: int| 0 <= t < j ==> str_views(order@)[t] != key@,
        decreases order.len() - j,
    {
        if chars_eq_str(to_chars(key.as_str()).as_slice(), order[j]) {
            proof {
                assert(str_views(order@)[j as int] == key@);
            }
            return true;
        }
        j = j + 1;
    }
    false
}

/// Appends one `key = value` line.
fn write_entry(out: &mut String, key: &str, value: &str)
    ensures
        final(out)@ == old(out)@ + render_entry(key@, value@),
{
    out.append(key);
    out.append(" = ");
    out.append(value);
    out.append("\n");
    proof {
        assert(final(out)@ =~= old(out)@ + render_entry(key@, value@));
    }
}

/// Appends the section `name` as `render_section` writes it.
fn write_section(out: &mut String, secs: &Vec<(String, Vec<(String, String)>)>, name: &str, order: &Vec<&str>)
    requires
        ini_wf(sections_view(secs@)),
    ensures
        final(out)@ == old(out)@ + render_section(sections_view(secs@), name@, str_views(order@)),
{
    let ghost s = sections_view(secs@);
    let ghost ord = str_views(order@);
    let ghost start = out@;
    match find_section(secs, &name.to_owned()) {
        None => {
            proof {
                assert(out@ =~= start + render_section(s, name@, ord));
            }
        },
        Some(i) => {
            let entries = &secs[i].1;
            let ghost e = entries_view(entries@);
            proof {
                assert(s[i as int].1 == e);
                assert(entry_names(s[i as int].1).no_duplicates());
            }
            out.append("[");
            out.append(name);
            out.append("]\n");
            let ghost head = out@;
            let mut j: usize = 0;
            while j < order.len()
                invariant
                    j <= order.len(),
                    ord == str_views(order@),
                    e == entries_view(entries@),
                    entry_names(e).no_duplicates(),
                    out@ == head + render_ordered(e, ord, j as int),
                decreases order.len() - j,
            {
                let key = order[j];
                proof {
                    assert(ord[j as int] == key@);
                }
                match find_entry(entries, &key.to_owned()) {
                    Some(t) => {
                        proof {
                            assert(e[t as int].1 == entries@[t as int].1@);
                        }
                        write_entry(out, key, entries[t].1.as_str());
                        proof {
                            assert(out@ =~= head + render_ordered(e, ord, j + 1));
                        }
                    },
                    None => {
                        proof {
                            assert(out@ =~= head + render_ordered(e, ord, j + 1));
                        }
                    },
                }
                j = j + 1;
            }
            let ghost mid = out@;
            let mut t: usize = 0;
            while t < entries.len()
                invariant
                    t <= entries.len(),
                    ord == str_views(order@),
                    e == entries_view(entries@),
                    out@ == mid + render_rest(e, ord, t as int),
                decreases entries.len() - t,
            {
                proof {
                    assert(e[t as int] == (entries@[t as int].0@, entries@[t as int].1@));
                }
                if !listed(order, &entries[t].0) {
                    write_entry(out, entries[t].0.as_str(), entries[t].1.as_str());
                }
                proof {
                    assert(out@ =~= mid + render_rest(e, ord, t + 1));
                }
                t = t + 1;
            }
            out.append("\n");
            proof {
                assert(out@ =~= start + render_section(s, name@, ord));
            }
        },
    }
}

} // verus!
