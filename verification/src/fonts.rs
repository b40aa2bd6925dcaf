//! Which font file a text element asks for: the requested one, relative to
//! the bundled fonts unless absolute, or else the first installed default.
use vstd::prelude::*;
use std::path::Path;
use crate::chars::to_chars;

verus! {

/// A path separator on some platform: `/` everywhere, `\\` on Windows.
pub open spec fn is_separator(c: char) -> bool {
    c == '/' || c == '\\'
}

/// A path that another is joined onto the same way on every platform: not
/// empty, not ending in a separator or a drive colon, and with no `?` (so no
/// verbatim prefix).
pub open spec fn plain_base(b: Seq<char>) -> bool {
    &&& b.len() > 0
    &&& !is_separator(b.last())
    &&& b.last() != ':'
    &&& !b.contains('?')
}

/// A relative path that is appended the same way on every platform: not
/// empty, not starting with a separator, and with no colon.
pub open spec fn plain_relative(r: Seq<char>) -> bool {
    &&& r.len() > 0
    &&& !is_separator(r[0])
    &&& !r.contains(':')
}

/// A single ordinary path component on every platform: not empty, not `.`
/// or `..`, with no separator and no colon.
pub open spec fn plain_component(n: Seq<char>) -> bool {
    &&& n.len() > 0
    &&& n != "."@
    &&& n != ".."@
    &&& !n.contains('/')
    &&& !n.contains('\\')
    &&& !n.contains(':')
}

/// `Path::is_absolute` from std. Whether a path is absolute depends on the
/// platform; on every platform a path that starts with no separator and has
/// no colon (so no drive or other prefix) is relative.
#[verifier::external_body]
fn path_is_absolute(p: &str) -> (r: bool)
    ensures
        (p@.len() == 0 || !is_separator(p@[0])) && !p@.contains(':') ==> !r,
{
    Path::new(p).is_absolute()
}

/// `Path::strip_prefix` from std, whole components compared: the rest of
/// the path after `prefix`, or `None` where `prefix` does not begin it.
/// Stated for the prefix `fonts`: `fonts/N`, for one ordinary component
/// `N`, leaves `N`; a path that does not begin with the characters `fonts`,
/// or that is one ordinary component other than `fonts`, is not under it.
/// Other cases depend on how the platform splits components and are left
/// unsaid.
#[verifier::external_body]
fn path_strip_prefix(p: &str, prefix: &str) -> (r: Option<String>)
    ensures
        forall|n: Seq<char>| #![trigger plain_component(n)]
            prefix@ == "fonts"@ && plain_component(n) && p@ == "fonts/"@ + n ==> (r is Some && r.unwrap()@ == n),
        prefix@ == "fonts"@ && !(p@.len() >= 5 && p@.take(5) == "fonts"@) ==> r is None,
        prefix@ == "fonts"@ && plain_component(p@) && p@ != "fonts"@ ==> r is None,
{
    Path::new(p).strip_prefix(prefix).ok().map(|rest| rest.to_string_lossy().into_owned())
}

/// `Path::join` from std: `rel` appended to `base`. Where `base` and `rel`
/// are plain (`plain_base`, `plain_relative`), the result on every platform
/// is `base`, one separator (`/`, or `\\` on Windows) and `rel`; other cases
/// depend on the platform and are left unsaid.
#[verifier::external_body]
fn path_join(base: &str, rel: &str) -> (r: String)
    ensures
        plain_base(base@) && plain_relative(rel@) ==> (r@ == base@ + "/"@ + rel@ || r@ == base@ + "\\"@ + rel@),
{
    Path::new(base).join(rel).to_string_lossy().into_owned()
}

/// Where to look for a font, before any file is checked.
#[derive(Debug)]
pub enum FontLookup {
    /// The requested font at this path, to be used only if it is a file.
    Requested(String),
    /// The default fonts in order of preference; the first that is a file
    /// is used.
    Defaults(Vec<String>),
}

/// The system font tried after the bundled default.
pub open spec fn system_font() -> Seq<char> {
    "C:/Windows/Fonts/arial.ttf"@
}

/// `c` is `a`, one separator of either kind, and `b`.
pub open spec fn joined(a: Seq<char>, b: Seq<char>, c: Seq<char>) -> bool {
    c == a + "/"@ + b || c == a + "\\"@ + b
}

/// The file a relative request names inside the bundled fonts directory:
/// `N` itself, or `N` from `fonts/N`, for one ordinary component `N`; or a
/// plain relative path of several components that does not begin with
/// `fonts`, itself.
pub open spec fn requested_font_name(q: Seq<char>) -> Option<Seq<char>> {
    if plain_component(q) && q != "fonts"@ {
        Some(q)
    } else if q.len() > 6 && q.take(6) == "fonts/"@ && plain_component(q.skip(6)) {
        Some(q.skip(6))
    } else if plain_relative(q) && !(q.len() >= 5 && q.take(5) == "fonts"@) {
        Some(q)
    } else {
        None
    }
}

/// `p` is the file `name` inside `root`'s `config/fonts` directory, each
/// step joined with a separator of either kind.
pub open spec fn in_bundled_fonts(root: Seq<char>, name: Seq<char>, p: Seq<char>) -> bool {
    exists|dir: Seq<char>| #[trigger] joined(root, "config/fonts"@, dir) && joined(dir, name, p)
}

/// The bundled light font's place below the root.
pub open spec fn bundled_light_font() -> Seq<char> {
    "config/fonts/AlibabaPuHuiTi-2-45-Light.otf"@
}

proof fn lemma_concat_lacks(a: Seq<char>, b: Seq<char>, c: char)
    requires
        !a.contains(c),
        !b.contains(c),
    ensures
        !(a + b).contains(c),
{
    if (a + b).contains(c) {
        let i = choose|i: int| 0 <= i < (a + b).len() && (a + b)[i] == c;
        if i < a.len() {
            assert(a[i] == c);
        } else {
            assert(b[i - a.len()] == c);
        }
    }
}

proof fn lemma_literal_facts()
    ensures
        plain_relative("config/fonts"@),
        plain_relative(bundled_light_font()),
        !"config/fonts"@.contains('?'),
        "config/fonts"@.last() == 's',
        !"/"@.contains('?'),
        !"\\"@.contains('?'),
        !"fonts/"@.contains(':'),
        "fonts/"@.len() == 6,
{
    reveal_strlit("config/fonts");
    reveal_strlit("config/fonts/AlibabaPuHuiTi-2-45-Light.otf");
    reveal_strlit("/");
    reveal_strlit("\\");
    reveal_strlit("fonts/");
    assert(!"config/fonts"@.contains(':'));
    assert(!"config/fonts"@.contains('?'));
    assert(!bundled_light_font().contains(':'));
    assert(!"fonts/"@.contains(':'));
}

/// A bundled font may be named with or without the leading `fonts/`: both
/// spellings name the same file under `config/fonts`.
pub proof fn law_font_spellings_agree(n: Seq<char>)
    requires
        plain_component(n),
        n != "fonts"@,
    ensures
        requested_font_name(n) == Some(n),
        requested_font_name("fonts/"@ + n) == Some(n),
{
    reveal_strlit("fonts/");
    reveal_strlit("fonts");
    let q = "fonts/"@ + n;
    assert(q[5] == '/');
    assert(q.contains('/'));
    assert(q.take(6) =~= "fonts/"@);
    assert(q.skip(6) =~= n);
}

/// Where to look for the font a text element asks for. A non-empty request
/// names one path: itself when absolute, otherwise inside the bundled
/// `config/fonts` directory, where a leading `fonts` component is dropped
/// (templates write both `Foo.otf` and `fonts/Foo.otf`). No request, or an
/// empty one, means the bundled light font and then the system font. It
/// never fails. Where the root and the request are plain, the paths are
/// stated exactly, up to the platform's separator.
pub fn load_font(root: &str, requested: Option<&str>) -> (r: Result<FontLookup, String>)
    ensures
        r is Ok,
        match requested {
            Some(q) => q@.len() > 0 ==> r matches Ok(FontLookup::Requested(_)),
            None => true,
        },
        (requested is None || requested.unwrap()@.len() == 0) ==> (r matches Ok(FontLookup::Defaults(list))
            && list.len() == 2 && list[1]@ == system_font()),
        (requested is None || requested.unwrap()@.len() == 0) && plain_base(root@) ==> (r matches Ok(
            FontLookup::Defaults(list),
        ) && joined(root@, bundled_light_font(), list[0]@)),
        match requested {
            Some(q) => plain_base(root@) && requested_font_name(q@) is Some ==> (r matches Ok(
                FontLookup::Requested(p),
            ) && in_bundled_fonts(root@, requested_font_name(q@).unwrap(), p@)),
            None => true,
        },
{
    proof {
        lemma_literal_facts();
    }
    if let Some(q) = requested {
        if to_chars(q).len() > 0 {
            let ghost name = requested_font_name(q@);
            proof {
                if name is Some {
                    if plain_component(q@) && q@ != "fonts"@ {
                    } else if q@.len() > 6 && q@.take(6) == "fonts/"@ && plain_component(q@.skip(6)) {
                        let n = q@.skip(6);
                        assert(q@ =~= "fonts/"@ + n);
                        lemma_concat_lacks("fonts/"@, n, ':');
                        assert(q@[0] == "fonts/"@[0]);
                        reveal_strlit("fonts/");
                    }
                }
            }
            let path = if path_is_absolute(q) {
                q.to_owned()
            } else {
                let rel = match path_strip_prefix(q, "fonts") {
                    Some(rest) => rest,
                    None => q.to_owned(),
                };
                proof {
                    if name is Some {
                        let n = name.unwrap();
                        if plain_component(q@) && q@ != "fonts"@ {
                            assert(rel@ == n);
                            assert(!is_separator(n[0])) by {
                                assert(n.contains(n[0]));
                            }
                        } else if q@.len() > 6 && q@.take(6) == "fonts/"@ && plain_component(q@.skip(6)) {
                            assert(q@ =~= "fonts/"@ + q@.skip(6));
                            assert(rel@ == n);
                            assert(!is_separator(n[0])) by {
                                assert(n.contains(n[0]));
                            }
                        } else {
                            assert(rel@ == n);
                        }
                        assert(plain_relative(rel@));
                    }
                }
                let fonts = path_join(root, "config/fonts");
                proof {
                    if plain_base(root@) {
                        let s = if fonts@ == root@ + "/"@ + "config/fonts"@ { "/"@ } else { "\\"@ };
                        assert(fonts@ == root@ + s + "config/fonts"@);
                        lemma_concat_lacks(root@, s, '?');
                        lemma_concat_lacks(root@ + s, "config/fonts"@, '?');
                        assert(plain_base(fonts@));
                        assert(joined(root@, "config/fonts"@, fonts@));
                    }
                }
                let p = path_join(fonts.as_str(), rel.as_str());
                proof {
                    if plain_base(root@) && name is Some {
                        assert(joined(fonts@, name.unwrap(), p@));
                        assert(in_bundled_fonts(root@, name.unwrap(), p@));
                    }
                }
                p
            };
            return Ok(FontLookup::Requested(path));
        }
    }
    let bundled = path_join(root, "config/fonts/AlibabaPuHuiTi-2-45-Light.otf");
    let mut list: Vec<String> = Vec::new();
    list.push(bundled);
    list.push("C:/Windows/Fonts/arial.ttf".to_owned());
    Ok(FontLookup::Defaults(list))
}

/// The font to use, given for each path of a lookup whether it is a file:
/// the requested path if it is one (and nothing otherwise), or the first
/// default that is one.
pub fn pick_font(lookup: &FontLookup, is_file: &Vec<bool>) -> (r: Option<String>)
    ensures
        match lookup {
            FontLookup::Requested(p) => if is_file.len() > 0 && is_file[0] {
                r == Some(*p)
            } else {
                r is None
            },
            FontLookup::Defaults(list) => match r {
                Some(f) => exists|i: int| 0 <= i < list.len() && i < is_file.len() && is_file[i] && f == list[i]
                    && forall|j: int| 0 <= j < i ==> !is_file[j],
                None => forall|i: int| 0 <= i < list.len() && i < is_file.len() ==> !is_file[i],
            },
        },
{
    match lookup {
        FontLookup::Requested(p) => {
            if is_file.len() > 0 && is_file[0] {
                Some(p.clone())
            } else {
                None
            }
        },
        FontLookup::Defaults(list) => {
            let mut i: usize = 0;
            while i < list.len() && i < is_file.len()
                invariant
                    i <= list.len(),
                    forall|j: int| 0 <= j < i ==> !is_file[j],
                    match lookup {
                        FontLookup::Defaults(l) => l == list,
                        _ => false,
                    },
                decreases list.len() - i,
            {
                if is_file[i] {
                    let f = list[i].clone();
                    proof {
                        assert(0 <= i < list.len() && i < is_file.len() && is_file[i as int] && f == list[i as int]);
                    }
                    return Some(f);
                }
                i = i + 1;
            }
            None
        },
    }
}

} // verus!
