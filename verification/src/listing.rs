//! Directory listings for the file browser: which entries show, in what
//! order, with which suffixes, and one page at a time; and the names of the
//! bundled templates.
use vstd::prelude::*;
use crate::chars::{to_chars, from_chars, ascii_lower, spec_ascii_lower_seq, chars_eq_str, slice_range};
use crate::sort::{sort_by_keys, stable_sort, keyed_view, map_payload, lemma_sort_map_payload};

verus! {

/// The lower-case form of a string, as `str::to_lowercase` gives it.
pub uninterp spec fn lowercased(s: Seq<char>) -> Seq<char>;

/// `str::to_lowercase` from std: the full Unicode lower-case mapping, a
/// function of the text alone; the contract names its result
/// `lowercased` and states nothing more of it.
#[verifier::external_body]
pub(crate) fn to_lowercase(s: &str) -> (r: String)
    ensures
        r@ == lowercased(s@),
{
    s.to_lowercase()
}

/// One node of the file browser's tree. Directories carry no `is_file`;
/// `children` is filled only by callers that nest levels.
#[derive(Debug)]
pub struct FileNode {
    pub label: String,
    pub value: String,
    pub is_file: Option<bool>,
    pub children: Option<Vec<FileNode>>,
}

/// What a directory entry is, as the listing sees it.
#[derive(PartialEq, Eq, Clone, Copy, Debug, Structural)]
pub enum EntryKind {
    /// A directory that is not a symbolic link.
    Directory,
    /// A regular file that is not a symbolic link.
    File,
    /// A symbolic link or anything else; never listed.
    Other,
}

/// One entry read from a directory: its name, its full path, its kind and
/// its modification time as seconds and nanoseconds since the Unix epoch,
/// where the platform gave one.
#[derive(Debug)]
pub struct DirEntry {
    pub name: String,
    pub path: String,
    pub kind: EntryKind,
    pub modified: Option<(i64, u32)>,
}

/// Whether an entry shows at all: hidden names (starting with `.`) and
/// entries that are neither plain directories nor plain files do not.
pub open spec fn shown(e: DirEntry) -> bool {
    !(e.name@.len() > 0 && e.name@[0] == '.') && e.kind != EntryKind::Other
}

/// The code points of a text, which order texts as `str`'s `Ord` does.
pub open spec fn char_codes(s: Seq<char>) -> Seq<i64> {
    s.map_values(|c: char| c as u32 as i64)
}

/// The sort key of a modification time: a missing time comes before every
/// present one.
pub open spec fn time_key(m: Option<(i64, u32)>) -> Seq<i64> {
    match m {
        Some((s, n)) => seq![1i64, s, n as i64],
        None => seq![0i64, 0i64, 0i64],
    }
}

/// The directories among the first `n` entries, keyed by lower-case name.
pub open spec fn keyed_dirs(es: Seq<DirEntry>, n: int) -> Seq<(Seq<i64>, DirEntry)>
    decreases n,
{
    if n <= 0 {
        Seq::empty()
    } else {
        let prev = keyed_dirs(es, n - 1);
        let e = es[n - 1];
        if shown(e) && e.kind == EntryKind::Directory {
            prev.push((char_codes(lowercased(e.name@)), e))
        } else {
            prev
        }
    }
}

/// The files among the first `n` entries, keyed by modification time and
/// then by lower-case name.
pub open spec fn keyed_files(es: Seq<DirEntry>, n: int) -> Seq<(Seq<i64>, DirEntry)>
    decreases n,
{
    if n <= 0 {
        Seq::empty()
    } else {
        let prev = keyed_files(es, n - 1);
        let e = es[n - 1];
        if shown(e) && e.kind == EntryKind::File {
            prev.push((time_key(e.modified) + char_codes(lowercased(e.name@)), e))
        } else {
            prev
        }
    }
}

/// The index of the last `.` in a name.
pub open spec fn last_dot(name: Seq<char>) -> Option<int>
    decreases name.len(),
{
    if name.len() == 0 {
        None
    } else if name.last() == '.' {
        Some(name.len() - 1)
    } else {
        last_dot(name.drop_last())
    }
}

/// The extension of a file name, as `Path::extension` finds it: what
/// follows the last `.`, unless that `.` is the first character or the
/// name is `..`.
pub open spec fn extension(name: Seq<char>) -> Option<Seq<char>> {
    if name == ".."@ {
        None
    } else {
        match last_dot(name) {
            Some(i) => if i > 0 {
                Some(name.skip(i + 1))
            } else {
                None
            },
            None => None,
        }
    }
}

/// The stem of a file name, as `Path::file_stem` finds it: what precedes
/// the extension's `.`, or the whole name where there is no extension.
pub open spec fn stem(name: Seq<char>) -> Seq<char> {
    if name == ".."@ {
        name
    } else {
        match last_dot(name) {
            Some(i) => if i > 0 {
                name.take(i)
            } else {
                name
            },
            None => name,
        }
    }
}

/// The suffix a file is filtered by: `.` and the lower-case extension, or
/// nothing where there is no extension.
pub open spec fn suffix_of(name: Seq<char>) -> Seq<char> {
    match extension(name) {
        Some(x) => "."@ + spec_ascii_lower_seq(x),
        None => Seq::empty(),
    }
}

/// The sorted directories, newest name first: by lower-case name,
/// descending.
pub open spec fn sorted_dirs(es: Seq<DirEntry>) -> Seq<(Seq<i64>, DirEntry)> {
    stable_sort(keyed_dirs(es, es.len() as int), true)
}

/// The sorted files: by modification time, then lower-case name, both
/// descending.
pub open spec fn sorted_files(es: Seq<DirEntry>) -> Seq<(Seq<i64>, DirEntry)> {
    stable_sort(keyed_files(es, es.len() as int), true)
}

/// The files among the first `n` sorted ones whose suffix is listed, as
/// (name, path) pairs.
pub open spec fn accepted_files(fs: Seq<(Seq<i64>, DirEntry)>, suffixes: Seq<Seq<char>>, n: int) -> Seq<(Seq<char>, Seq<char>, bool)>
    decreases n,
{
    if n <= 0 {
        Seq::empty()
    } else {
        let prev = accepted_files(fs, suffixes, n - 1);
        let e = fs[n - 1].1;
        if suffixes.contains(suffix_of(e.name@)) {
            prev.push((e.name@, e.path@, true))
        } else {
            prev
        }
    }
}

/// Every listed item, as (label, path, is a file): the directories, then
/// the files with a listed suffix.
pub open spec fn spec_listing(es: Seq<DirEntry>, suffixes: Seq<Seq<char>>) -> Seq<(Seq<char>, Seq<char>, bool)> {
    let ds = sorted_dirs(es);
    let fs = sorted_files(es);
    ds.map_values(|p: (Seq<i64>, DirEntry)| (p.1.name@, p.1.path@, false)) + accepted_files(
        fs,
        suffixes,
        fs.len() as int,
    )
}

/// The page of `items` that starts at `offset` and holds at most `limit`
/// items.
pub open spec fn page_of<A>(items: Seq<A>, offset: int, limit: int) -> Seq<A> {
    let start = if offset < items.len() { offset } else { items.len() as int };
    let end = if start + limit < items.len() { start + limit } else { items.len() as int };
    items.subrange(start, end)
}

/// The views of a vector of strings.
pub open spec fn string_views(v: Seq<String>) -> Seq<Seq<char>> {
    v.map_values(|s: String| s@)
}

/// Whether a node shows the item `it`: label, path, file flag, and no
/// children.
pub open spec fn node_shows(n: FileNode, it: (Seq<char>, Seq<char>, bool)) -> bool {
    &&& n.label@ == it.0
    &&& n.value@ == it.1
    &&& n.is_file == (if it.2 { Some(true) } else { None::<bool> })
    &&& n.children is None
}

/// The code points of `s`.
fn codes(s: &[char]) -> (r: Vec<i64>)
    ensures
        r@ == char_codes(s@),
{
    let mut r: Vec<i64> = Vec::new();
    let mut i: usize = 0;
    while i < s.len()
        invariant
            i <= s.len(),
            r@ == char_codes(s@.take(i as int)),
        decreases s.len() - i,
    {
        r.push((s[i] as u32) as i64);
        i = i + 1;
        proof {
            assert(r@ =~= char_codes(s@.take(i as int)));
        }
    }
    proof {
        assert(s@.take(s.len() as int) =~= s@);
    }
    r
}

/// The index of the last `.` in `s`.
fn find_last_dot(s: &[char]) -> (r: Option<usize>)
    ensures
        match r {
            Some(i) => last_dot(s@) == Some(i as int) && i < s.len(),
            None => last_dot(s@) is None,
        },
{
    let mut j: usize = s.len();
    proof {
        assert(s@.take(s.len() as int) =~= s@);
    }
    while j > 0
        invariant
            j <= s.len(),
            last_dot(s@) == last_dot(s@.take(j as int)),
        decreases j,
    {
        proof {
            assert(s@.take(j as int).drop_last() =~= s@.take(j - 1));
        }
        if s[j - 1] == '.' {
            return Some(j - 1);
        }
        j = j - 1;
    }
    proof {
        assert(s@.take(0).len() == 0);
    }
    None
}

/// The extension of a file name: see `extension`.
fn name_extension(name: &[char]) -> (r: Option<Vec<char>>)
    ensures
        match r {
            Some(x) => extension(name@) == Some(x@),
            None => extension(name@) is None,
        },
{
    if chars_eq_str(name, "..") {
        return None;
    }
    match find_last_dot(name) {
        Some(i) => {
            if i > 0 {
                let x = slice_range(name, i + 1, name.len());
                proof {
                    assert(x@ =~= name@.skip(i + 1));
                }
                Some(x)
            } else {
                None
            }
        },
        None => None,
    }
}

/// The stem of a file name: see `stem`.
fn name_stem(name: &[char]) -> (r: Vec<char>)
    ensures
        r@ == stem(name@),
{
    let whole = slice_range(name, 0, name.len());
    proof {
        assert(whole@ =~= name@);
    }
    if chars_eq_str(name, "..") {
        return whole;
    }
    match find_last_dot(name) {
        Some(i) => {
            if i > 0 {
                let x = slice_range(name, 0, i);
                proof {
                    assert(x@ =~= name@.take(i as int));
                }
                x
            } else {
                whole
            }
        },
        None => whole,
    }
}

/// The filter suffix of a file name: see `suffix_of`.
fn name_suffix(name: &[char]) -> (r: Vec<char>)
    ensures
        r@ == suffix_of(name@),
{
    match name_extension(name) {
        Some(x) => {
            let lower = ascii_lower(x.as_slice());
            let mut r: Vec<char> = Vec::new();
            r.push('.');
            let mut i: usize = 0;
            while i < lower.len()
                invariant
                    i <= lower.len(),
                    r@ == seq!['.'] + lower@.take(i as int),
                decreases lower.len() - i,
            {
                r.push(lower[i]);
                i = i + 1;
                proof {
                    assert(r@ =~= seq!['.'] + lower@.take(i as int));
                }
            }
            proof {
                assert(lower@.take(lower.len() as int) =~= lower@);
                reveal_strlit(".");
                assert(r@ =~= "."@ + spec_ascii_lower_seq(x@));
            }
            r
        },
        None => Vec::new(),
    }
}

/// Whether `s` is one of `list`.
fn listed_in(list: &Vec<String>, s: &[char]) -> (r: bool)
    ensures
        r == string_views(list@).contains(s@),
{
    let mut j: usize = 0;
    while j < list.len()
        invariant
            j <= list.len(),
            forall|t: int| 0 <= t < j ==> string_views(list@)[t] != s@,
        decreases list.len() - j,
    {
        if chars_eq_str(s, list[j].as_str()) {
            proof {
                assert(string_views(list@)[j as int] == s@);
            }
            return true;
        }
        proof {
            assert(string_views(list@)[j as int] == list@[j as int]@);
        }
        j = j + 1;
    }
    false
}

/// One page of a directory listing and whether more items follow it:
/// shown directories first, by lower-case name descending; then shown
/// files whose suffix is listed, by modification time and lower-case name,
/// both descending. Directories come without children, so deeper levels
/// are read only when asked for.
pub fn list_page(entries: Vec<DirEntry>, suffixes: &Vec<String>, offset: usize, limit: usize) -> (r: (
    Vec<FileNode>,
    bool,
))
    ensures
        ({
            let items = spec_listing(entries@, string_views(suffixes@));
            let page = page_of(items, offset as int, limit as int);
            &&& r.0.len() == page.len()
            &&& forall|i: int| 0 <= i < page.len() ==> node_shows(#[trigger] r.0@[i], page[i])
            &&& r.1 == (offset + page.len() < items.len())
        }),
{
    let ghost es = entries@;
    let mut dirs: Vec<(Vec<i64>, DirEntry)> = Vec::new();
    let mut files: Vec<(Vec<i64>, DirEntry)> = Vec::new();
    let mut rest = entries;
    let mut reversed: Vec<DirEntry> = Vec::new();
    while rest.len() > 0
        invariant
            rest@ + reversed@.reverse() == es,
        decreases rest.len(),
    {
        let ghost before_rest = rest@;
        let ghost before_rev = reversed@;
        let e = rest.pop().unwrap();
        reversed.push(e);
        proof {
            assert(reversed@.reverse() =~= seq![e] + before_rev.reverse());
            assert(before_rest =~= rest@.push(e));
        }
    }
    proof {
        assert(reversed@.reverse() =~= es);
    }
    let ghost mut done: int = 0;
    while reversed.len() > 0
        invariant
            0 <= done <= es.len(),
            reversed@.reverse() == es.skip(done),
            keyed_view(dirs@) == keyed_dirs(es, done),
            keyed_view(files@) == keyed_files(es, done),
        decreases reversed.len(),
    {
        let ghost before_rev = reversed@;
        let e = reversed.pop().unwrap();
        proof {
            assert(before_rev.reverse() =~= seq![e] + reversed@.reverse());
            assert(es.skip(done)[0] == e);
            assert(es[done] == e);
            assert(es.skip(done).drop_first() =~= es.skip(done + 1));
        }
        let name = to_chars(e.name.as_str());
        let hidden = name.len() > 0 && name[0] == '.';
        if !hidden && e.kind == EntryKind::Directory {
            let lower = to_lowercase(e.name.as_str());
            let key = codes(to_chars(lower.as_str()).as_slice());
            let ghost kv = (key@, e);
            dirs.push((key, e));
            proof {
                assert(keyed_view(dirs@) =~= keyed_dirs(es, done).push(kv));
            }
        } else if !hidden && e.kind == EntryKind::File {
            let lower = to_lowercase(e.name.as_str());
            let mut key: Vec<i64> = Vec::new();
            match e.modified {
                Some((s, n)) => {
                    key.push(1);
                    key.push(s);
                    key.push(n as i64);
                },
                None => {
                    key.push(0);
                    key.push(0);
                    key.push(0);
                },
            }
            proof {
                assert(key@ =~= time_key(e.modified));
            }
            let mut name_key = codes(to_chars(lower.as_str()).as_slice());
            let ghost nk = name_key@;
            key.append(&mut name_key);
            let ghost kv = (key@, e);
            proof {
                assert(key@ =~= time_key(e.modified) + nk);
            }
            files.push((key, e));
            proof {
                assert(keyed_view(files@) =~= keyed_files(es, done).push(kv));
            }
        } else {
            proof {
                assert(keyed_view(dirs@) == keyed_dirs(es, done + 1));
            }
        }
        proof {
            done = done + 1;
        }
    }
    proof {
        assert(es.skip(done).len() == 0);
        assert(done == es.len());
    }
    let dirs = sort_by_keys(dirs, true);
    let files = sort_by_keys(files, true);
    let ghost ds = keyed_view(dirs@);
    let ghost fs = keyed_view(files@);
    let ghost sfx = string_views(suffixes@);
    let ghost items = spec_listing(es, sfx);
    let mut nodes: Vec<FileNode> = Vec::new();
    let mut dirs = dirs;
    let mut files = files;
    // Move the sorted items out from the back, then emit them front first.
    let mut dirs_rev: Vec<(Vec<i64>, DirEntry)> = Vec::new();
    while dirs.len() > 0
        invariant
            keyed_view(dirs@) + keyed_view(dirs_rev@).reverse() == ds,
        decreases dirs.len(),
    {
        let ghost b1 = dirs@;
        let ghost b2 = dirs_rev@;
        let x = dirs.pop().unwrap();
        dirs_rev.push(x);
        proof {
            assert(keyed_view(b1) =~= keyed_view(dirs@).push((x.0@, x.1)));
            assert(keyed_view(dirs_rev@).reverse() =~= seq![(x.0@, x.1)] + keyed_view(b2).reverse());
        }
    }
    let mut files_rev: Vec<(Vec<i64>, DirEntry)> = Vec::new();
    while files.len() > 0
        invariant
            keyed_view(files@) + keyed_view(files_rev@).reverse() == fs,
        decreases files.len(),
    {
        let ghost b1 = files@;
        let ghost b2 = files_rev@;
        let x = files.pop().unwrap();
        files_rev.push(x);
        proof {
            assert(keyed_view(b1) =~= keyed_view(files@).push((x.0@, x.1)));
            assert(keyed_view(files_rev@).reverse() =~= seq![(x.0@, x.1)] + keyed_view(b2).reverse());
        }
    }
    proof {
        assert(keyed_view(dirs@).len() == 0);
        assert(keyed_view(files@).len() == 0);
        assert(keyed_view(dirs_rev@).reverse() =~= ds);
        assert(keyed_view(files_rev@).reverse() =~= fs);
    }
    // All listed items, as (label, path, is a file).
    let mut all: Vec<(String, String, bool)> = Vec::new();
    let ghost dir_items = ds.map_values(|p: (Seq<i64>, DirEntry)| (p.1.name@, p.1.path@, false));
    let ghost mut k: int = 0;
    proof {
        assert forall|t: int| 0 <= t < ds.len() implies #[trigger] dir_items[t] == (ds[t].1.name@, ds[t].1.path@, false) by {
        }
    }
    while dirs_rev.len() > 0
        invariant
            0 <= k <= ds.len(),
            dir_items.len() == ds.len(),
            forall|t: int| 0 <= t < ds.len() ==> #[trigger] dir_items[t] == (ds[t].1.name@, ds[t].1.path@, false),
            keyed_view(dirs_rev@).reverse() == ds.skip(k),
            all@.len() == k,
            forall|i: int| 0 <= i < k ==> (#[trigger] all@[i].0@, all@[i].1@, all@[i].2) == dir_items[i],
        decreases dirs_rev.len(),
    {
        let ghost b = dirs_rev@;
        let x = dirs_rev.pop().unwrap();
        proof {
            assert(keyed_view(b).reverse() =~= seq![(x.0@, x.1)] + keyed_view(dirs_rev@).reverse());
            assert(ds.skip(k)[0] == (x.0@, x.1));
            assert(ds[k] == (x.0@, x.1));
            assert(ds.skip(k).drop_first() =~= ds.skip(k + 1));
        }
        let e = x.1;
        let ghost before = all@;
        all.push((e.name, e.path, false));
        proof {
            assert forall|i: int| 0 <= i < k + 1 implies (#[trigger] all@[i].0@, all@[i].1@, all@[i].2) == dir_items[i] by {
                if i < k {
                    assert(all@[i] == before[i]);
                }
            }
            k = k + 1;
        }
    }
    let ghost mut m: int = 0;
    let ghost nd = ds.len() as int;
    proof {
        assert(ds.skip(k).len() == 0);
    }
    while files_rev.len() > 0
        invariant
            0 <= m <= fs.len(),
            nd == ds.len(),
            keyed_view(files_rev@).reverse() == fs.skip(m),
            all@.len() == nd + accepted_files(fs, sfx, m).len(),
            forall|i: int| 0 <= i < nd ==> (#[trigger] all@[i].0@, all@[i].1@, all@[i].2) == dir_items[i],
            forall|i: int| 0 <= i < accepted_files(fs, sfx, m).len() ==> (#[trigger] all@[nd + i].0@, all@[nd + i].1@, all@[nd + i].2)
                == accepted_files(fs, sfx, m)[i],
            sfx == string_views(suffixes@),
        decreases files_rev.len(),
    {
        let ghost b = files_rev@;
        let x = files_rev.pop().unwrap();
        proof {
            assert(keyed_view(b).reverse() =~= seq![(x.0@, x.1)] + keyed_view(files_rev@).reverse());
            assert(fs.skip(m)[0] == (x.0@, x.1));
            assert(fs[m] == (x.0@, x.1));
            assert(fs.skip(m).drop_first() =~= fs.skip(m + 1));
        }
        let e = x.1;
        let name = to_chars(e.name.as_str());
        let suffix = name_suffix(name.as_slice());
        if listed_in(suffixes, suffix.as_slice()) {
            let ghost before = all@;
            all.push((e.name, e.path, true));
            proof {
                assert forall|i: int| 0 <= i < accepted_files(fs, sfx, m + 1).len() implies (#[trigger] all@[nd + i].0@, all@[nd + i].1@, all@[nd + i].2)
                    == accepted_files(fs, sfx, m + 1)[i] by {
                    if i < accepted_files(fs, sfx, m).len() {
                        assert(all@[nd + i] == before[nd + i]);
                    }
                }
                assert forall|i: int| 0 <= i < nd implies (#[trigger] all@[i].0@, all@[i].1@, all@[i].2) == dir_items[i] by {
                    assert(all@[i] == before[i]);
                }
            }
        }
        proof {
            m = m + 1;
        }
    }
    proof {
        assert(fs.skip(m).len() == 0);
        assert(m == fs.len());
        assert(items == dir_items + accepted_files(fs, sfx, m));
        assert(all@.len() == items.len());
        assert forall|i: int| 0 <= i < items.len() implies (#[trigger] all@[i].0@, all@[i].1@, all@[i].2) == items[i] by {
            if i >= nd {
                let j = i - nd;
                assert(all@[nd + j] == all@[i]);
            }
        }
    }
    // The page.
    let total = all.len();
    let start = if offset < total { offset } else { total };
    let end = if limit < total - start { start + limit } else { total };
    let ghost page = page_of(items, offset as int, limit as int);
    proof {
        assert(page == items.subrange(start as int, end as int));
    }
    let mut all_rev: Vec<(String, String, bool)> = Vec::new();
    let ghost av = all@;
    proof {
        assert(av.take(av.len() as int) =~= av);
    }
    while all.len() > end
        invariant
            end <= all.len() <= av.len(),
            all@ == av.take(all.len() as int),
        decreases all.len(),
    {
        all.pop();
        proof {
            assert(all@ =~= av.take(all.len() as int));
        }
    }
    while all.len() > start
        invariant
            start <= all.len() <= end,
            end <= av.len(),
            all@ == av.take(all.len() as int),
            all_rev@.reverse() == av.subrange(all.len() as int, end as int),
        decreases all.len(),
    {
        let ghost b = all_rev@;
        let x = all.pop().unwrap();
        all_rev.push(x);
        proof {
            assert(all@ =~= av.take(all.len() as int));
            assert(all_rev@.reverse() =~= seq![x] + b.reverse());
            assert(all_rev@.reverse() =~= av.subrange(all.len() as int, end as int));
        }
    }
    let ghost mut q: int = 0;
    proof {
        assert(all_rev@.reverse() =~= av.subrange(start as int, end as int));
    }
    while all_rev.len() > 0
        invariant
            0 <= q <= end - start,
            all_rev@.reverse() == av.subrange(start + q, end as int),
            nodes@.len() == q,
            forall|i: int| 0 <= i < q ==> node_shows(#[trigger] nodes@[i], page[i]),
            page == items.subrange(start as int, end as int),
            forall|i: int| 0 <= i < items.len() ==> (#[trigger] av[i].0@, av[i].1@, av[i].2) == items[i],
            av.len() == items.len(),
            end <= av.len(),
        decreases all_rev.len(),
    {
        let ghost b = all_rev@;
        let x = all_rev.pop().unwrap();
        proof {
            assert(b.reverse() =~= seq![x] + all_rev@.reverse());
            assert(av.subrange(start + q, end as int)[0] == x);
            assert(av[start + q] == x);
            assert(av.subrange(start + q, end as int).drop_first() =~= av.subrange(start + q + 1, end as int));
            assert((av[start + q].0@, av[start + q].1@, av[start + q].2) == items[start + q]);
        }
        let (label, value, is_file) = x;
        let node = FileNode {
            label,
            value,
            is_file: if is_file { Some(true) } else { None },
            children: None,
        };
        nodes.push(node);
        proof {
            q = q + 1;
        }
    }
    let has_more = start + nodes.len() < total;
    proof {
        assert(q == end - start);
        if offset >= total {
            assert(start == total);
            assert(nodes.len() == 0);
        }
    }
    (nodes, has_more)
}

/// The template names among the names of a directory's entries: the
/// stems of those with the extension `json` in any ASCII case, sorted
/// ascending.
pub open spec fn spec_template_names(names: Seq<Seq<char>>) -> Seq<Seq<char>> {
    stable_sort(keyed_stems(names, names.len() as int), false).map_values(|p: (Seq<i64>, Seq<char>)| p.1)
}

/// The stems of the first `n` names whose extension is `json` in any ASCII
/// case, keyed by their code points.
pub open spec fn keyed_stems(names: Seq<Seq<char>>, n: int) -> Seq<(Seq<i64>, Seq<char>)>
    decreases n,
{
    if n <= 0 {
        Seq::empty()
    } else {
        let prev = keyed_stems(names, n - 1);
        let name = names[n - 1];
        match extension(name) {
            Some(x) => if spec_ascii_lower_seq(x) == "json"@ {
                prev.push((char_codes(stem(name)), stem(name)))
            } else {
                prev
            },
            None => prev,
        }
    }
}

/// The view of a string, as a function.
pub open spec fn view_of_string() -> spec_fn(String) -> Seq<char> {
    |s: String| s@
}

/// The template names among the entry names of the templates directory:
/// see `spec_template_names`.
pub fn template_names(names: &Vec<String>) -> (r: Vec<String>)
    ensures
        string_views(r@) == spec_template_names(string_views(names@)),
{
    let ghost nv = string_views(names@);
    let mut keyed: Vec<(Vec<i64>, String)> = Vec::new();
    let mut i: usize = 0;
    while i < names.len()
        invariant
            i <= names.len(),
            nv == string_views(names@),
            map_payload(keyed_view(keyed@), view_of_string()) == keyed_stems(nv, i as int),
        decreases names.len() - i,
    {
        let name = to_chars(names[i].as_str());
        proof {
            assert(nv[i as int] == name@);
        }
        match name_extension(name.as_slice()) {
            Some(x) => {
                let lower = ascii_lower(x.as_slice());
                if chars_eq_str(lower.as_slice(), "json") {
                    let st = name_stem(name.as_slice());
                    let key = codes(st.as_slice());
                    let text = from_chars(st.as_slice());
                    let ghost before = keyed_view(keyed@);
                    keyed.push((key, text));
                    proof {
                        assert(keyed_view(keyed@) =~= before.push((key@, text)));
                        assert(map_payload(keyed_view(keyed@), view_of_string()) =~= map_payload(before, view_of_string()).push((key@, text@)));
                    }
                }
            },
            None => {},
        }
        i = i + 1;
    }
    let ghost kv = keyed_view(keyed@);
    let sorted = sort_by_keys(keyed, false);
    proof {
        lemma_sort_map_payload(kv, view_of_string(), false);
    }
    let ghost target = spec_template_names(nv);
    let ghost ms = map_payload(keyed_view(sorted@), view_of_string());
    proof {
        assert(ms == stable_sort(keyed_stems(nv, nv.len() as int), false));
        assert forall|t: int| 0 <= t < target.len() implies target[t] == #[trigger] ms[t].1 by {
        }
    }
    let mut out: Vec<String> = Vec::new();
    let mut j: usize = 0;
    while j < sorted.len()
        invariant
            j <= sorted.len(),
            ms == map_payload(keyed_view(sorted@), view_of_string()),
            target.len() == ms.len(),
            forall|t: int| 0 <= t < target.len() ==> target[t] == #[trigger] ms[t].1,
            string_views(out@) == target.take(j as int),
        decreases sorted.len() - j,
    {
        let t = sorted[j].1.clone();
        proof {
            assert(ms[j as int].1 == sorted@[j as int].1@);
            assert(target[j as int] == t@);
        }
        let ghost before = string_views(out@);
        out.push(t);
        proof {
            assert(string_views(out@) =~= before.push(t@));
            assert(target.take(j + 1) =~= target.take(j as int).push(target[j as int]));
        }
        j = j + 1;
    }
    proof {
        assert(target.take(j as int) =~= target);
    }
    out
}

/// Two consecutive pages together are the page that spans both: paging
/// neither skips nor repeats an item.
pub proof fn law_pages_join<A>(items: Seq<A>, offset: int, a: int, b: int)
    requires
        0 <= offset,
        0 <= a,
        0 <= b,
    ensures
        page_of(items, offset, a) + page_of(items, offset + a, b) == page_of(items, offset, a + b),
{
    assert(page_of(items, offset, a) + page_of(items, offset + a, b) =~= page_of(items, offset, a + b));
}

/// More items remain after a page exactly when the page's end falls short
/// of the listing's end.
pub proof fn law_has_more<A>(items: Seq<A>, offset: int, limit: int)
    requires
        0 <= offset,
        0 <= limit,
    ensures
        (offset + page_of(items, offset, limit).len() < items.len()) == (offset + limit < items.len()),
{
}

} // verus!
