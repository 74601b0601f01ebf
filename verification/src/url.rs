//! The URL the user types in, and the file name a download is saved under.
use vstd::prelude::*;

use vstd::string::StringExecFns;

use crate::decimal::{append_decimal, decimal_text};
use crate::text::{chars_of, string_of, trim, trim_bounds};

verus! {

/// Why a typed URL was refused.
#[derive(Debug, Clone, Copy, PartialEq, Eq, Structural)]
pub enum UrlError {
    /// Nothing but whitespace was typed.
    Empty,
}

/// Reads a URL from a line of input: the line without surrounding
/// whitespace, refused when that leaves nothing.
pub fn url_from_line(line: &str) -> (r: Result<String, UrlError>)
    ensures
        match r {
            Ok(url) => trim(line@).len() > 0 && url@ == trim(line@),
            Err(e) => trim(line@).len() == 0 && e == UrlError::Empty,
        },
{
    let cs = chars_of(line);
    let (lo, hi) = trim_bounds(&cs);
    if lo == hi {
        return Err(UrlError::Empty);
    }
    let mut t: Vec<char> = Vec::new();
    let mut i = lo;
    while i < hi
        invariant
            lo <= i <= hi <= cs@.len(),
            t@ == cs@.subrange(lo as int, i as int),
        decreases hi - i,
    {
        t.push(cs[i]);
        assert(cs@.subrange(lo as int, i + 1) =~= cs@.subrange(lo as int, i as int).push(
            cs@[i as int],
        ));
        i = i + 1;
    }
    Ok(string_of(&t))
}

/// The number of characters at the end of `s` that come after its last `/`
/// (all of `s` where it has none).
pub open spec fn last_segment_len(s: Seq<char>) -> nat
    decreases s.len(),
{
    if s.len() == 0 || s.last() == '/' {
        0
    } else {
        1 + last_segment_len(s.drop_last())
    }
}

/// The file name of a path, as `Path::file_name` gives it on Unix: its last
/// component, where empty components and `.` components do not count; none
/// where the path has no component left, or ends in `..`.
pub open spec fn file_name_of(s: Seq<char>) -> Option<Seq<char>>
    decreases s.len(),
{
    let n = last_segment_len(s);
    let seg = s.skip(s.len() - n);
    if seg.len() == 0 || seg == seq!['.'] {
        if n < s.len() {
            file_name_of(s.take(s.len() - n - 1))
        } else {
            None
        }
    } else if seg == seq!['.', '.'] {
        None
    } else {
        Some(seg)
    }
}

proof fn lemma_last_segment_len(s: Seq<char>)
    ensures
        last_segment_len(s) <= s.len(),
        last_segment_len(s) < s.len() ==> s[s.len() - last_segment_len(s) - 1] == '/',
        forall|k: int| s.len() - last_segment_len(s) <= k < s.len() ==> s[k] != '/',
    decreases s.len(),
{
    if s.len() > 0 && s.last() != '/' {
        lemma_last_segment_len(s.drop_last());
        assert forall|k: int| s.len() - last_segment_len(s) <= k < s.len() implies s[k] != '/' by {
            if k < s.len() - 1 {
                assert(s[k] == s.drop_last()[k]);
            }
        }
    }
}

/// The file name of `path`, as `Path::new(path).file_name()` gives it.
pub fn file_name(path: &str) -> (r: Option<String>)
    ensures
        match r {
            Some(name) => file_name_of(path@) == Some(name@),
            None => file_name_of(path@) is None,
        },
{
    let s = chars_of(path);
    let mut end: usize = s.len();
    assert(s@.take(end as int) =~= s@);
    loop
        invariant
            end <= s@.len(),
            s@ == path@,
            file_name_of(path@) == file_name_of(s@.take(end as int)),
        decreases end,
    {
        let ghost t = s@.take(end as int);
        let mut start = end;
        while start > 0 && s[start - 1] != '/'
            invariant
                start <= end <= s@.len(),
                last_segment_len(t) == (end - start) + last_segment_len(s@.take(start as int)),
                t == s@.take(end as int),
            decreases start,
        {
            assert(s@.take(start as int).drop_last() =~= s@.take(start - 1));
            start = start - 1;
        }
        assert(last_segment_len(t) == end - start);
        assert(t.skip(t.len() - (end - start)) =~= s@.subrange(start as int, end as int));
        let len = end - start;
        let is_dot = len == 1 && s[start] == '.';
        let is_dot_dot = len == 2 && s[start] == '.' && s[start + 1] == '.';
        let ghost seg = s@.subrange(start as int, end as int);
        assert(is_dot <==> seg == seq!['.']) by {
            if seg == seq!['.'] {
                assert(seg[0] == '.');
            }
            if is_dot {
                assert(seg =~= seq!['.']);
            }
        }
        assert(is_dot_dot <==> seg == seq!['.', '.']) by {
            if seg == seq!['.', '.'] {
                assert(seg[0] == '.' && seg[1] == '.');
            }
            if is_dot_dot {
                assert(seg =~= seq!['.', '.']);
            }
        }
        if len == 0 || is_dot {
            if start > 0 {
                assert(t.take(t.len() - (end - start) - 1) =~= s@.take(start - 1));
                end = start - 1;
            } else {
                return None;
            }
        } else if is_dot_dot {
            return None;
        } else {
            let mut name: Vec<char> = Vec::new();
            let mut i = start;
            while i < end
                invariant
                    start <= i <= end <= s@.len(),
                    name@ == s@.subrange(start as int, i as int),
                decreases end - i,
            {
                name.push(s[i]);
                assert(s@.subrange(start as int, i + 1) =~= s@.subrange(start as int, i as int).push(
                    s@[i as int],
                ));
                i = i + 1;
            }
            return Some(string_of(&name));
        }
    }
}

/// A path made of a directory, a `/` and a name gives that name back as its
/// file name, whenever the name is a proper component: not empty, without
/// `/`, and neither `.` nor `..`.
pub proof fn lemma_file_name_of_join(dir: Seq<char>, name: Seq<char>)
    requires
        name.len() > 0,
        forall|k: int| 0 <= k < name.len() ==> name[k] != '/',
        name != seq!['.'],
        name != seq!['.', '.'],
    ensures
        file_name_of(dir + seq!['/'] + name) == Some(name),
{
    let s = dir + seq!['/'] + name;
    lemma_last_segment_len(s);
    let n = last_segment_len(s);
    assert(s[dir.len() as int] == '/');
    assert forall|k: int| dir.len() < k < s.len() implies s[k] != '/' by {
        assert(s[k] == name[k - dir.len() - 1]);
    }
    assert(n == name.len());
    assert(s.skip(s.len() - n) =~= name);
}

/// The name under which part `part` of `file` is kept until the parts are
/// joined: `<file>.part<part>`.
pub open spec fn part_file_name_text(file: Seq<char>, part: u64) -> Seq<char> {
    file + ".part"@ + decimal_text(part as nat)
}

/// Builds the name of the file that holds part `part` of `file`.
pub fn part_file_name(file: &str, part: u64) -> (r: String)
    ensures
        r@ == part_file_name_text(file@, part),
{
    let mut r = String::new();
    r.append(file);
    r.append(".part");
    append_decimal(&mut r, part);
    assert(r@ =~= part_file_name_text(file@, part));
    r
}

} // verus!
