//! File names of paths held as strings: the final component, its stem and
//! its extension, and paths derived from them.
use vstd::prelude::*;
use crate::numfmt::{dec, push_dec};
use crate::text::{chars_of, lower_of, push_char, to_lower};

verus! {

/// The final component of the path `p`, as `Path::file_name` gives it.
pub uninterp spec fn file_name_of(p: Seq<char>) -> Option<Seq<char>>;

/// The path `p` with its file name replaced by `name`, as
/// `Path::with_file_name` gives it.
pub uninterp spec fn with_file_name_of(p: Seq<char>, name: Seq<char>) -> Seq<char>;

/// The path `p` with its extension replaced by `ext`, as
/// `Path::with_extension` gives it.
pub uninterp spec fn with_extension_of(p: Seq<char>, ext: Seq<char>) -> Seq<char>;

/// The path `name` appended to the directory `dir`, as `Path::join` gives it.
pub uninterp spec fn joined(dir: Seq<char>, name: Seq<char>) -> Seq<char>;

/// A path of one plain component: not empty, not `.` or `..`, and with no
/// character that any platform reads as a separator or a prefix.
pub open spec fn plain_name(p: Seq<char>) -> bool {
    &&& p.len() > 0
    &&& p != seq!['.']
    &&& p != seq!['.', '.']
    &&& forall|i: int| 0 <= i < p.len() ==> p[i] != '/' && p[i] != '\\' && p[i] != ':'
}

/// Relies on `Path::file_name`: the final component of the path, which is a
/// part of it and so no longer than it; a path of one plain component is
/// its own file name.
#[verifier::external_body]
fn file_name(p: &str) -> (r: Option<String>)
    ensures
        plain_name(p@) ==> r is Some && r->Some_0@ == p@,
        r is Some <==> file_name_of(p@) is Some,
        r is Some ==> r->Some_0@ == file_name_of(p@)->Some_0,
        r is Some ==> r->Some_0@.len() <= p@.len(),
{
    std::path::Path::new(p).file_name().map(|s| s.to_string_lossy().into_owned())
}

/// Relies on `Path::with_file_name`.
#[verifier::external_body]
fn with_file_name(p: &str, name: &str) -> (r: String)
    ensures
        r@ == with_file_name_of(p@, name@),
{
    std::path::Path::new(p).with_file_name(name).to_string_lossy().into_owned()
}

/// Whether `e` holds no `/` and no `\\`, so that it can be set as an
/// extension on any platform.
pub open spec fn no_separator(e: Seq<char>) -> bool {
    forall|i: int| 0 <= i < e.len() ==> e[i] != '/' && e[i] != '\\'
}

/// Relies on `Path::with_extension`, which panics on an extension that
/// holds a path separator.
#[verifier::external_body]
pub(crate) fn with_extension(p: &str, ext: &str) -> (r: String)
    requires
        no_separator(ext@),
    ensures
        r@ == with_extension_of(p@, ext@),
{
    std::path::Path::new(p).with_extension(ext).to_string_lossy().into_owned()
}

/// Relies on `Path::join`.
#[verifier::external_body]
pub(crate) fn join_path(dir: &str, name: &str) -> (r: String)
    ensures
        r@ == joined(dir@, name@),
{
    std::path::Path::new(dir).join(name).to_string_lossy().into_owned()
}

/// The index of the last `'.'` in `s[..j]`, or -1 where there is none.
pub open spec fn last_dot(s: Seq<char>, j: int) -> int
    decreases j,
{
    if j <= 0 {
        -1
    } else if s[j - 1] == '.' {
        j - 1
    } else {
        last_dot(s, j - 1)
    }
}

/// The stem of a file name: all of it where it has no `'.'` past its first
/// character, else what comes before the final `'.'`.
pub open spec fn stem_part(name: Seq<char>) -> Seq<char> {
    let d = last_dot(name, name.len() as int);
    if d <= 0 {
        name
    } else {
        name.take(d)
    }
}

/// The extension of a file name: none where it has no `'.'` past its first
/// character, else what comes after the final `'.'`.
pub open spec fn ext_part(name: Seq<char>) -> Option<Seq<char>> {
    let d = last_dot(name, name.len() as int);
    if d <= 0 {
        None
    } else {
        Some(name.skip(d + 1))
    }
}

/// The file stem of the path `p` (`Path::file_stem`).
pub open spec fn stem_of(p: Seq<char>) -> Option<Seq<char>> {
    match file_name_of(p) {
        Some(name) => Some(stem_part(name)),
        None => None,
    }
}

/// The extension of the path `p` (`Path::extension`).
pub open spec fn ext_of(p: Seq<char>) -> Option<Seq<char>> {
    match file_name_of(p) {
        Some(name) => ext_part(name),
        None => None,
    }
}

proof fn lemma_last_dot_bounds(s: Seq<char>, j: int)
    requires
        j <= s.len(),
    ensures
        -1 <= last_dot(s, j) < j || (j <= 0 && last_dot(s, j) == -1),
        last_dot(s, j) >= 0 ==> s[last_dot(s, j)] == '.',
    decreases j,
{
    if j > 0 && s[j - 1] != '.' {
        lemma_last_dot_bounds(s, j - 1);
    }
}

fn find_last_dot(v: &Vec<char>) -> (r: Option<usize>)
    ensures
        r is None ==> last_dot(v@, v@.len() as int) == -1,
        r is Some ==> r->Some_0 == last_dot(v@, v@.len() as int),
{
    let mut j: usize = v.len();
    while j > 0
        invariant
            j <= v@.len(),
            last_dot(v@, j as int) == last_dot(v@, v@.len() as int),
        decreases j,
    {
        if v[j - 1] == '.' {
            return Some(j - 1);
        }
        j -= 1;
    }
    None
}

/// Splits a file name into its stem and its extension.
pub fn split_name(name: &String) -> (r: (String, Option<String>))
    ensures
        r.0@ == stem_part(name@),
        r.1 is Some <==> ext_part(name@) is Some,
        r.1 is Some ==> r.1->Some_0@ == ext_part(name@)->Some_0,
        ext_part(name@) is Some ==> r.0@.len() < name@.len(),
{
    let v = crate::text::chars_of(name.as_str());
    proof {
        lemma_last_dot_bounds(v@, v@.len() as int);
    }
    match find_last_dot(&v) {
        Some(d) if d > 0 => {
            let n = v.len();
            assert(d < n);
            let stem = crate::text::string_of(&v, 0, d);
            let ext = crate::text::string_of(&v, d + 1, v.len());
            assert(stem@ =~= name@.take(d as int));
            assert(ext@ =~= name@.skip(d + 1));
            (stem, Some(ext))
        },
        _ => (name.clone(), None),
    }
}

/// The file stem of `path`.
pub fn file_stem(path: &str) -> (r: Option<String>)
    ensures
        r is Some <==> stem_of(path@) is Some,
        r is Some ==> r->Some_0@ == stem_of(path@)->Some_0,
        ext_of(path@) is Some ==> r is Some && r->Some_0@.len() < path@.len(),
{
    match file_name(path) {
        Some(name) => {
            let (stem, _) = split_name(&name);
            Some(stem)
        },
        None => None,
    }
}

/// The extension of `path`.
pub fn extension(path: &str) -> (r: Option<String>)
    ensures
        r is Some <==> ext_of(path@) is Some,
        r is Some ==> r->Some_0@ == ext_of(path@)->Some_0,
{
    match file_name(path) {
        Some(name) => {
            let (_, ext) = split_name(&name);
            ext
        },
        None => None,
    }
}

/// The file stem of `path`, as an owned string.
pub fn file_stem_as_string(path: &str) -> (r: Option<String>)
    ensures
        r is Some <==> stem_of(path@) is Some,
        r is Some ==> r->Some_0@ == stem_of(path@)->Some_0,
{
    file_stem(path)
}

/// Whether the file name of `path` starts with a dot (hidden on Unix).
pub fn is_hidden(path: &str) -> (r: bool)
    ensures
        r == (file_name_of(path@) is Some && file_name_of(path@)->Some_0.len() > 0
            && file_name_of(path@)->Some_0[0] == '.'),
{
    match file_name(path) {
        Some(name) => {
            let v = crate::text::chars_of(name.as_str());
            v.len() > 0 && v[0] == '.'
        },
        None => false,
    }
}

/// The file name of a clip cut from a file with stem `stem` and extension
/// `ext`: `<stem>_<start>-<end>.<ext>`.
pub open spec fn timespan_name(stem: Seq<char>, start: u64, end: u64, ext: Seq<char>) -> Seq<char> {
    stem + seq!['_'] + dec(start as nat) + seq!['-'] + dec(end as nat) + seq!['.'] + ext
}

/// Builds `<stem>_<start>-<end>.<ext>`.
pub fn timespan_file_name(stem: &str, start: u64, end: u64, ext: &str) -> (r: String)
    ensures
        r@ == timespan_name(stem@, start, end, ext@),
{
    let mut s = String::from_str(stem);
    push_char(&mut s, '_');
    push_dec(&mut s, start);
    push_char(&mut s, '-');
    push_dec(&mut s, end);
    push_char(&mut s, '.');
    s.append(ext);
    assert(s@ =~= timespan_name(stem@, start, end, ext@));
    s
}

/// `s` with ASCII capitals made lowercase, as `to_ascii_lowercase` does.
pub open spec fn ascii_lower(s: Seq<char>) -> Seq<char> {
    s.map_values(|c: char| if 'A' <= c <= 'Z' { ((c as u32) + 32) as char } else { c })
}

/// Whether the extension of `path`, in ASCII lowercase, is `ext` in
/// lowercase.
pub fn has_extension(path: &str, ext: &str) -> (r: bool)
    ensures
        r == match ext_of(path@) {
            Some(e) => ascii_lower(e) == lower_of(ext@),
            None => false,
        },
{
    let want = chars_of(to_lower(ext).as_str());
    match extension(path) {
        Some(e) => {
            let v = chars_of(e.as_str());
            if v.len() != want.len() {
                proof {
                    assert(ascii_lower(e@).len() == e@.len());
                }
                return false;
            }
            let mut i: usize = 0;
            while i < v.len()
                invariant
                    i <= v@.len() == want@.len(),
                    v@ == e@,
                    want@ == lower_of(ext@),
                    ext_of(path@) == Some(e@),
                    forall|k: int| 0 <= k < i ==> ascii_lower(e@)[k] == want@[k],
                decreases v@.len() - i,
            {
                let c = v[i];
                let lc = if 'A' <= c && c <= 'Z' {
                    char_plus_32(c)
                } else {
                    c
                };
                if lc != want[i] {
                    assert(ascii_lower(e@)[i as int] != want@[i as int]);
                    return false;
                }
                i += 1;
            }
            assert(ascii_lower(e@) =~= want@);
            true
        },
        None => false,
    }
}

fn char_plus_32(c: char) -> (r: char)
    requires
        'A' <= c <= 'Z',
    ensures
        r == ((c as u32) + 32) as char,
{
    let table = ['a', 'b', 'c', 'd', 'e', 'f', 'g', 'h', 'i', 'j', 'k', 'l', 'm', 'n', 'o', 'p', 'q', 'r', 's', 't', 'u', 'v', 'w', 'x', 'y', 'z'];
    let r = table[(c as u32 - 'A' as u32) as usize];
    assert(table@[(c as u32 - 'A' as u32) as int] == ((c as u32) + 32) as char);
    r
}

/// `path` with a new file stem in place of its own, keeping its extension
/// (an extension that holds a path separator, possible only where `\\` is
/// no separator, is left off).
pub open spec fn with_stem(path: Seq<char>, stem: Seq<char>) -> Seq<char> {
    let np = with_file_name_of(path, stem);
    match ext_of(path) {
        Some(e) => if no_separator(e) {
            with_extension_of(np, e)
        } else {
            np
        },
        None => np,
    }
}

/// The path `appended_file_name` returns.
pub open spec fn appended(path: Seq<char>, suffix: Seq<char>) -> Seq<char> {
    match stem_of(path) {
        Some(stem) => with_stem(path, stem + seq!['_'] + suffix),
        None => path,
    }
}

pub open spec fn or_empty(o: Option<&str>) -> Seq<char> {
    match o {
        Some(s) => s@,
        None => Seq::empty(),
    }
}

/// The path `affix_file_name` returns.
pub open spec fn affixed(
    path: Seq<char>,
    prefix: Option<&str>,
    suffix: Option<&str>,
    delimiter: Option<&str>,
) -> Seq<char> {
    let dp = if prefix is None { Seq::empty() } else { or_empty(delimiter) };
    let ds = if suffix is None { Seq::empty() } else { or_empty(delimiter) };
    match stem_of(path) {
        Some(stem) => with_stem(path, or_empty(prefix) + dp + stem + ds + or_empty(suffix)),
        None => path,
    }
}

fn has_no_separator(e: &String) -> (r: bool)
    ensures
        r == no_separator(e@),
{
    let v = chars_of(e.as_str());
    let mut i: usize = 0;
    while i < v.len()
        invariant
            i <= v@.len(),
            v@ == e@,
            forall|k: int| 0 <= k < i ==> v@[k] != '/' && v@[k] != '\\',
        decreases v@.len() - i,
    {
        if v[i] == '/' || v[i] == '\\' {
            return false;
        }
        i += 1;
    }
    true
}

fn restem(path: &str, new_stem: &String) -> (r: String)
    ensures
        r@ == with_stem(path@, new_stem@),
{
    let np = with_file_name(path, new_stem.as_str());
    match extension(path) {
        Some(e) => if has_no_separator(&e) {
            with_extension(np.as_str(), e.as_str())
        } else {
            np
        },
        None => np,
    }
}

/// Adds `_suffix` to the file stem of `path`, keeping the extension.
/// Returns `path` untouched where it has no file stem.
pub fn append_file_name(path: &str, suffix: &str) -> (r: String)
    ensures
        r@ == appended(path@, suffix@),
{
    match file_stem(path) {
        Some(stem) => {
            let mut name = stem;
            let ghost s0 = name@;
            push_char(&mut name, '_');
            name.append(suffix);
            assert(name@ =~= s0 + seq!['_'] + suffix@);
            restem(path, &name)
        },
        None => String::from_str(path),
    }
}

fn opt_str(o: Option<&str>) -> (r: &str)
    ensures
        r@ == or_empty(o),
{
    proof {
        reveal_strlit("");
    }
    match o {
        Some(s) => s,
        None => "",
    }
}

/// Puts `prefix` before and `suffix` after the file stem of `path`, each
/// joined to it by `delimiter`, keeping the extension. Returns `path`
/// untouched where it has no file stem.
pub fn affix_file_name(
    path: &str,
    prefix: Option<&str>,
    suffix: Option<&str>,
    delimiter: Option<&str>,
) -> (r: String)
    ensures
        r@ == affixed(path@, prefix, suffix, delimiter),
{
    proof {
        reveal_strlit("");
    }
    match file_stem(path) {
        Some(stem) => {
            let delim_prefix = if prefix.is_none() { "" } else { opt_str(delimiter) };
            let delim_suffix = if suffix.is_none() { "" } else { opt_str(delimiter) };
            let mut name = String::from_str(opt_str(prefix));
            name.append(delim_prefix);
            name.append(stem.as_str());
            name.append(delim_suffix);
            name.append(opt_str(suffix));
            restem(path, &name)
        },
        None => String::from_str(path),
    }
}

} // verus!
