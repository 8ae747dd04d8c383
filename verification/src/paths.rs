//! Archive paths: what they may look like, and where they land.
//!
//! An archive is untrusted input regardless of where it came from, so paths are
//! checked when an archive is written *and* again when it is read.

use vstd::prelude::*;

use crate::error::{Error, Fault};
use crate::text::{
    chars_of, join, law_join_undoes_split, law_split_undoes_join, law_trimming,
    lemma_split_nonempty, split, split_chars, trim_end,
};

verus! {

/// What is wrong with one component of an archive path, if anything.
pub open spec fn part_fault(part: Seq<char>) -> Option<Fault> {
    if part == seq!['.', '.'] {
        Some(Fault::EscapingPath)
    } else if part.len() == 0 || part == seq!['.'] {
        Some(Fault::BlankComponent)
    } else if part.contains('\\') {
        Some(Fault::Backslash)
    } else {
        None
    }
}

/// What is wrong with the first faulty component, if there is one.
pub open spec fn parts_fault(parts: Seq<Seq<char>>) -> Option<Fault>
    decreases parts.len(),
{
    if parts.len() == 0 {
        None
    } else {
        match part_fault(parts[0]) {
            Some(f) => Some(f),
            None => parts_fault(parts.drop_first()),
        }
    }
}

/// No component is faulty for a failing sink.
pub proof fn lemma_parts_fault(parts: Seq<Seq<char>>)
    ensures
        parts_fault(parts) != Some(Fault::Sink),
    decreases parts.len(),
{
    if parts.len() > 0 {
        lemma_parts_fault(parts.drop_first());
    }
}

/// What is wrong with an archive path, if anything: it is empty, absolute, has
/// a drive letter, or has a component that is `..`, empty, `.` or holds a
/// backslash.
pub open spec fn path_fault(path: Seq<char>) -> Option<Fault> {
    if path.len() == 0 {
        Some(Fault::EmptyPath)
    } else if path[0] == '/' || path[0] == '\\' {
        Some(Fault::AbsolutePath)
    } else if path.len() >= 2 && path[0] < '\u{80}' && path[1] == ':' {
        Some(Fault::DriveLetter)
    } else {
        parts_fault(split(path, '/'))
    }
}

/// How many directories below its start a walk along `parts` ends; negative if
/// above.
pub open spec fn depth(parts: Seq<Seq<char>>) -> int
    decreases parts.len(),
{
    if parts.len() == 0 {
        0
    } else if parts.last() == seq!['.', '.'] {
        depth(parts.drop_last()) - 1
    } else if parts.last().len() == 0 || parts.last() == seq!['.'] {
        depth(parts.drop_last())
    } else {
        depth(parts.drop_last()) + 1
    }
}

/// A walk along `parts` never rises above its start.
pub open spec fn stays_inside(parts: Seq<Seq<char>>) -> bool {
    forall|n: int| 0 <= n <= parts.len() ==> depth(#[trigger] parts.take(n)) >= 0
}

/// `rel` under the directory `dest`.
pub open spec fn joined_path(dest: Seq<char>, rel: Seq<char>) -> Seq<char> {
    if dest.len() == 0 || dest.last() == '/' {
        dest + rel
    } else {
        dest.push('/') + rel
    }
}

/// `pattern` selects `path`: it is the path itself, or a directory above it.
/// Slashes that the pattern ends with do not count.
pub open spec fn selects(path: Seq<char>, pattern: Seq<char>) -> bool {
    let p = trim_end(pattern, '/');
    path == p || p.push('/').is_prefix_of(path)
}

/// `path` lies below `above`.
pub open spec fn is_below(path: Seq<char>, above: Seq<char>) -> bool {
    above.push('/').is_prefix_of(path)
}

/// A path without a fault has no faulty component.
pub proof fn lemma_no_part_fault(parts: Seq<Seq<char>>)
    requires
        parts_fault(parts) is None,
    ensures
        forall|i: int| 0 <= i < parts.len() ==> part_fault(#[trigger] parts[i]) is None,
    decreases parts.len(),
{
    if parts.len() > 0 {
        lemma_no_part_fault(parts.drop_first());
        assert forall|i: int| 0 <= i < parts.len() implies part_fault(
            #[trigger] parts[i],
        ) is None by {
            if i > 0 {
                assert(parts.drop_first()[i - 1] == parts[i]);
            }
        }
    }
}

proof fn lemma_depth_of_plain_parts(parts: Seq<Seq<char>>)
    requires
        forall|i: int| 0 <= i < parts.len() ==> part_fault(#[trigger] parts[i]) is None,
    ensures
        depth(parts) == parts.len(),
    decreases parts.len(),
{
    if parts.len() > 0 {
        let init = parts.drop_last();
        assert forall|i: int| 0 <= i < init.len() implies part_fault(#[trigger] init[i]) is None by {
            assert(init[i] == parts[i]);
        }
        lemma_depth_of_plain_parts(init);
        assert(part_fault(parts[parts.len() - 1]) is None);
    }
}

/// A path that passes the check cannot leave the directory that it is joined
/// to: walking along it goes down with every component.
pub proof fn law_accepted_paths_stay_inside(path: Seq<char>)
    requires
        path_fault(path) is None,
    ensures
        stays_inside(split(path, '/')),
        depth(split(path, '/')) == split(path, '/').len(),
        split(path, '/').len() >= 1,
        path[0] != '/',
{
    let parts = split(path, '/');
    lemma_split_nonempty(path, '/');
    lemma_no_part_fault(parts);
    lemma_depth_of_plain_parts(parts);
    assert forall|n: int| 0 <= n <= parts.len() implies depth(#[trigger] parts.take(n)) >= 0 by {
        assert forall|i: int| 0 <= i < parts.take(n).len() implies part_fault(
            #[trigger] parts.take(n)[i],
        ) is None by {
            assert(parts.take(n)[i] == parts[i]);
        }
        lemma_depth_of_plain_parts(parts.take(n));
    }
}

/// A path with a `..` component is never accepted.
pub proof fn law_dot_dot_is_rejected(path: Seq<char>)
    requires
        split(path, '/').contains(seq!['.', '.']),
    ensures
        path_fault(path) is Some,
{
    if path_fault(path) is None {
        lemma_no_part_fault(split(path, '/'));
        let i = choose|i: int|
            0 <= i < split(path, '/').len() && split(path, '/')[i] == seq!['.', '.'];
        assert(part_fault(split(path, '/')[i]) is None);
    }
}

/// A component as an archive path may have it: a name that is neither empty nor `.` nor
/// `..`, without a backslash.
pub open spec fn is_plain_name(part: Seq<char>) -> bool {
    &&& part.len() > 0
    &&& part != seq!['.']
    &&& part != seq!['.', '.']
    &&& forall|i: int| 0 <= i < part.len() ==> #[trigger] part[i] != '\\'
}

proof fn lemma_plain_part(part: Seq<char>)
    ensures
        part_fault(part) is None <==> is_plain_name(part),
        part == seq!['.', '.'] ==> part_fault(part) == Some(Fault::EscapingPath),
        part.len() == 0 || part == seq!['.'] ==> part_fault(part) == Some(Fault::BlankComponent),
        part_fault(part) is Some && part.len() > 0 && part != seq!['.'] && part != seq!['.', '.']
            ==> part_fault(part) == Some(Fault::Backslash),
{
    assert(seq!['.', '.'].len() == 2);
    assert(seq!['.'].len() == 1);
    if part.contains('\\') {
        let i = choose|i: int| 0 <= i < part.len() && part[i] == '\\';
        assert(part[i] == '\\');
    } else {
        assert forall|i: int| 0 <= i < part.len() implies #[trigger] part[i] != '\\' by {
            assert(part.contains(part[i]));
        }
    }
}

proof fn lemma_first_part_fault(parts: Seq<Seq<char>>, i: int)
    requires
        0 <= i < parts.len(),
        forall|j: int| 0 <= j < i ==> part_fault(#[trigger] parts[j]) is None,
        part_fault(parts[i]) is Some,
    ensures
        parts_fault(parts) == part_fault(parts[i]),
    decreases i,
{
    if i > 0 {
        assert(part_fault(parts[0]) is None);
        let rest = parts.drop_first();
        assert forall|j: int| 0 <= j < i - 1 implies part_fault(#[trigger] rest[j]) is None by {
            assert(rest[j] == parts[j + 1]);
        }
        lemma_first_part_fault(rest, i - 1);
    }
}

proof fn lemma_plain_parts(parts: Seq<Seq<char>>)
    requires
        forall|i: int| 0 <= i < parts.len() ==> is_plain_name(#[trigger] parts[i]),
    ensures
        parts_fault(parts) is None,
    decreases parts.len(),
{
    if parts.len() > 0 {
        assert(is_plain_name(parts[0]));
        lemma_plain_part(parts[0]);
        let rest = parts.drop_first();
        assert forall|i: int| 0 <= i < rest.len() implies is_plain_name(#[trigger] rest[i]) by {
            assert(rest[i] == parts[i + 1]);
        }
        lemma_plain_parts(rest);
    }
}

/// A path starts as that of a file on some drive: an ASCII character and a colon.
pub open spec fn has_drive(path: Seq<char>) -> bool {
    path.len() > 1 && (path[0] as int) < 128 && path[1] == ':'
}

/// A path is accepted exactly if it is relative, has no drive letter, and all its
/// components are plain names. That it is empty, absolute or has a drive letter is said
/// before anything about its components.
pub proof fn law_accepted_paths(path: Seq<char>)
    ensures
        path_fault(path) is None <==> {
            &&& path.len() > 0
            &&& path[0] != '/' && path[0] != '\\'
            &&& !has_drive(path)
            &&& forall|i: int|
                0 <= i < split(path, '/').len() ==> is_plain_name(#[trigger] split(path, '/')[i])
        },
        path.len() == 0 ==> path_fault(path) == Some(Fault::EmptyPath),
        path.len() > 0 && (path[0] == '/' || path[0] == '\\') ==> path_fault(path) == Some(
            Fault::AbsolutePath,
        ),
        path.len() > 0 && path[0] != '/' && path[0] != '\\' && has_drive(path) ==> path_fault(path)
            == Some(Fault::DriveLetter),
{
    let parts = split(path, '/');
    if path_fault(path) is None {
        lemma_no_part_fault(parts);
        assert forall|i: int| 0 <= i < parts.len() implies is_plain_name(#[trigger] parts[i]) by {
            lemma_plain_part(parts[i]);
        }
    } else if forall|i: int| 0 <= i < parts.len() ==> is_plain_name(#[trigger] parts[i]) {
        lemma_plain_parts(parts);
    }
}

/// A relative path without a drive letter is refused for the first component that is no
/// plain name.
pub proof fn law_refused_paths(path: Seq<char>, i: int)
    requires
        0 <= i < split(path, '/').len(),
        !is_plain_name(split(path, '/')[i]),
        forall|j: int| 0 <= j < i ==> is_plain_name(#[trigger] split(path, '/')[j]),
    ensures
        path.len() > 0 && path[0] != '/' && path[0] != '\\' && !has_drive(path) ==> path_fault(path)
            == (if split(path, '/')[i] == seq!['.', '.'] {
            Some(Fault::EscapingPath)
        } else if split(path, '/')[i].len() == 0 || split(path, '/')[i] == seq!['.'] {
            Some(Fault::BlankComponent)
        } else {
            Some(Fault::Backslash)
        }),
{
    let parts = split(path, '/');
    lemma_plain_part(parts[i]);
    assert forall|j: int| 0 <= j < i implies part_fault(#[trigger] parts[j]) is None by {
        lemma_plain_part(parts[j]);
    }
    lemma_first_part_fault(parts, i);
    assert(seq!['.', '.'].len() == 2);
}

/// What a path is joined to comes first, then one slash at most, then the path: below a
/// directory that is written without a slash at its end, and in the same place below one
/// that is written with it.
pub proof fn law_joined_path(dest: Seq<char>, rel: Seq<char>)
    ensures
        dest.is_prefix_of(joined_path(dest, rel)),
        joined_path(dest, rel).skip(joined_path(dest, rel).len() - rel.len()) == rel,
        dest.len() > 0 && dest.last() != '/' ==> {
            &&& joined_path(dest, rel) == dest + seq!['/'] + rel
            &&& joined_path(dest + seq!['/'], rel) == joined_path(dest, rel)
            &&& is_below(joined_path(dest, rel), dest)
        },
        dest.len() == 0 || dest.last() == '/' ==> joined_path(dest, rel) == dest + rel,
{
    let whole = joined_path(dest, rel);
    assert(dest.is_prefix_of(whole)) by {
        assert(whole.subrange(0, dest.len() as int) =~= dest);
    }
    assert(whole.skip(whole.len() - rel.len()) =~= rel);
    if dest.len() > 0 && dest.last() != '/' {
        assert(whole =~= dest + seq!['/'] + rel);
        assert(joined_path(dest + seq!['/'], rel) =~= whole);
        assert(whole.subrange(0, dest.len() as int + 1) =~= dest.push('/'));
    }
}

/// Naming a directory selects everything below it, however deep; and it selects itself.
pub proof fn law_directory_selects_what_is_below(dir: Seq<char>, rest: Seq<char>)
    requires
        dir.len() > 0,
        dir.last() != '/',
    ensures
        selects(dir, dir),
        selects(dir + seq!['/'] + rest, dir),
{
    law_trimming(dir, '/');
    let path = dir + seq!['/'] + rest;
    assert(trim_end(dir, '/') =~= dir);
    assert(path.subrange(0, dir.len() as int + 1) =~= dir.push('/'));
}

/// A pattern that selects a path selects every path below it.
pub proof fn law_selection_goes_down(path: Seq<char>, pattern: Seq<char>, rest: Seq<char>)
    requires
        selects(path, pattern),
    ensures
        selects(path + seq!['/'] + rest, pattern),
{
    let p = trim_end(pattern, '/');
    let lower = path + seq!['/'] + rest;
    if path == p {
        assert(lower.subrange(0, p.len() as int + 1) =~= p.push('/'));
    } else {
        assert(path.subrange(0, p.len() as int + 1) =~= p.push('/'));
        assert(lower.subrange(0, p.len() as int + 1) =~= p.push('/'));
    }
}

/// Nothing else is selected: what a pattern selects has it as its beginning, and there
/// ends or goes on with a slash. Slashes at the end of the pattern do not count.
pub proof fn law_selects_nothing_else(path: Seq<char>, pattern: Seq<char>, i: int)
    requires
        selects(path, pattern),
        0 <= i < pattern.len(),
        pattern[i] != '/',
    ensures
        selects(path, pattern + seq!['/']),
        i < path.len(),
        forall|k: int| 0 <= k <= i ==> #[trigger] path[k] == pattern[k],
        pattern.last() != '/' ==> path.len() == pattern.len() || (path.len() > pattern.len()
            && path[pattern.len() as int] == '/'),
{
    law_trimming(pattern, '/');
    let p = trim_end(pattern, '/');
    let more = pattern + seq!['/'];
    assert(more.drop_last() =~= pattern);
    if path != p {
        assert(path.subrange(0, p.len() as int + 1) =~= p.push('/'));
        assert forall|k: int| 0 <= k <= i implies #[trigger] path[k] == pattern[k] by {
            assert(path.subrange(0, p.len() as int + 1)[k] == p.push('/')[k]);
        }
        assert(path.subrange(0, p.len() as int + 1)[p.len() as int] == '/');
    }
}

/// A path lies below another exactly if it is that path, a slash and something more or
/// nothing.
pub proof fn law_below(path: Seq<char>, above: Seq<char>, rest: Seq<char>)
    ensures
        is_below(above + seq!['/'] + rest, above),
        is_below(path, above) ==> path == above + seq!['/'] + path.skip(above.len() as int + 1),
        !is_below(above, above),
{
    let lower = above + seq!['/'] + rest;
    assert(lower.subrange(0, above.len() as int + 1) =~= above.push('/'));
    if is_below(path, above) {
        assert(path.subrange(0, above.len() as int + 1) =~= above.push('/'));
        assert forall|k: int| 0 <= k <= above.len() implies #[trigger] path[k] == above.push('/')[k] by {
            assert(path.subrange(0, above.len() as int + 1)[k] == above.push('/')[k]);
        }
        assert(path =~= above + seq!['/'] + path.skip(above.len() as int + 1));
    }
}

/// Reject paths that would let an archive write outside the extraction
/// directory: absolute paths, `..` traversal, drive letters, and empty
/// components. Applied when building the archive *and* again on extract,
/// because an archive can be crafted by anyone.
pub fn sanitize_path(path: &str) -> (r: Result<String, Error>)
    ensures
        match r {
            Ok(p) => path_fault(path@) is None && p@ == path@,
            Err(e) => path_fault(path@) == Some(e.fault),
        },
{
    let chars = chars_of(path);
    if chars.len() == 0 {
        return Err(Error::new(Fault::EmptyPath));
    }
    if chars[0] == '/' || chars[0] == '\\' {
        return Err(Error::new(Fault::AbsolutePath));
    }
    if chars.len() >= 2 && chars[0] < '\u{80}' && chars[1] == ':' {
        return Err(Error::new(Fault::DriveLetter));
    }
    let parts = split_chars(&chars, '/');
    let ghost pieces = split(path@, '/');
    assert(pieces.skip(0) == pieces);
    let mut i: usize = 0;
    while i < parts.len()
        invariant
            i <= parts@.len() == pieces.len(),
            forall|k: int| 0 <= k < parts@.len() ==> (#[trigger] parts@[k])@ == pieces[k],
            path_fault(path@) == parts_fault(pieces.skip(i as int)),
        decreases parts@.len() - i,
    {
        assert(parts@[i as int]@ == pieces.skip(i as int)[0]);
        assert(pieces.skip(i as int).drop_first() == pieces.skip(i + 1));
        match check_part(&parts[i]) {
            Some(fault) => {
                return Err(Error::new(fault));
            },
            None => {},
        }
        i += 1;
    }
    Ok(path.to_owned())
}

/// What is wrong with one component.
fn check_part(part: &Vec<char>) -> (r: Option<Fault>)
    ensures
        r == part_fault(part@),
{
    if part.len() == 2 && part[0] == '.' && part[1] == '.' {
        assert(part@ =~= seq!['.', '.']);
        return Some(Fault::EscapingPath);
    }
    if part.len() == 0 {
        return Some(Fault::BlankComponent);
    }
    if part.len() == 1 && part[0] == '.' {
        assert(part@ =~= seq!['.']);
        return Some(Fault::BlankComponent);
    }
    let mut i: usize = 0;
    while i < part.len()
        invariant
            i <= part@.len(),
            forall|k: int| 0 <= k < i ==> part@[k] != '\\',
        decreases part@.len() - i,
    {
        if part[i] == '\\' {
            assert(part@[i as int] == '\\');
            return Some(Fault::Backslash);
        }
        i += 1;
    }
    None
}

/// Join an archive path onto `dest`, refusing anything that would land outside.
///
/// The path was checked on write, but an archive is untrusted input, so the
/// check is repeated here.
pub fn safe_join(dest: &str, rel: &str) -> (r: Result<String, Error>)
    ensures
        match r {
            Ok(p) => {
                &&& path_fault(rel@) is None
                &&& p@ == joined_path(dest@, rel@)
                &&& stays_inside(split(rel@, '/'))
            },
            Err(e) => path_fault(rel@) == Some(e.fault),
        },
{
    let rel = match sanitize_path(rel) {
        Ok(rel) => rel,
        Err(e) => {
            return Err(e);
        },
    };
    proof {
        law_accepted_paths_stay_inside(rel@);
    }
    let chars = chars_of(dest);
    let mut joined = dest.to_owned();
    if chars.len() > 0 && chars[chars.len() - 1] != '/' {
        joined.push('/');
    }
    joined.append(&rel);
    Ok(joined)
}

/// Whether a path lies below another.
pub fn lies_below(path: &Vec<char>, above: &Vec<char>) -> (r: bool)
    ensures
        r == is_below(path@, above@),
{
    let n: usize = above.len();
    let ghost whole = above@.push('/');
    if path.len() <= n || path[n] != '/' {
        assert(is_below(path@, above@) ==> path@[n as int] == whole[n as int]);
        return false;
    }
    let mut i: usize = 0;
    while i < n
        invariant
            i <= n == above@.len(),
            n < path@.len(),
            path@[n as int] == '/',
            whole == above@.push('/'),
            forall|j: int| 0 <= j < i ==> path@[j] == above@[j],
        decreases n - i,
    {
        if path[i] != above[i] {
            assert(is_below(path@, above@) ==> path@[i as int] == whole[i as int]);
            return false;
        }
        i += 1;
    }
    assert(path@.subrange(0, n + 1) =~= whole);
    true
}

/// Match an entry path against a user-supplied selector: exact match, or a
/// directory prefix, so that naming a directory selects everything below it.
pub fn matches_path(path: &str, pattern: &str) -> (r: bool)
    ensures
        r == selects(path@, pattern@),
{
    let chars = chars_of(pattern);
    let mut n: usize = chars.len();
    assert(chars@.take(n as int) == chars@);
    while n > 0 && chars[n - 1] == '/'
        invariant
            n <= chars@.len(),
            trim_end(pattern@, '/') == trim_end(chars@.take(n as int), '/'),
        decreases n,
    {
        assert(chars@.take(n as int).drop_last() == chars@.take(n - 1));
        n -= 1;
    }
    let ghost p = trim_end(pattern@, '/');
    assert(p == chars@.take(n as int));
    let subject = chars_of(path);
    if subject.len() < n {
        assert(path@ != p);
        return false;
    }
    let mut i: usize = 0;
    while i < n
        invariant
            i <= n <= subject@.len(),
            n <= chars@.len(),
            p == trim_end(pattern@, '/'),
            p == chars@.take(n as int),
            subject@ == path@,
            forall|k: int| 0 <= k < i ==> subject@[k] == chars@[k],
        decreases n - i,
    {
        if subject[i] != chars[i] {
            proof {
                assert(p[i as int] == chars@[i as int]);
                if p.push('/').is_prefix_of(path@) {
                    assert(path@.subrange(0, p.len() as int + 1)[i as int] == p.push('/')[i as int]);
                }
            }
            return false;
        }
        i += 1;
    }
    if subject.len() == n {
        assert(path@ =~= p);
        return true;
    }
    let r = subject[n] == '/';
    proof {
        if r {
            assert(path@.subrange(0, p.len() as int + 1) =~= p.push('/'));
        } else if p.push('/').is_prefix_of(path@) {
            assert(path@.subrange(0, p.len() as int + 1)[n as int] == p.push('/')[n as int]);
        }
    }
    r
}

/// One component of a path found on disk.
#[derive(Debug)]
pub enum PathPart {
    /// An ordinary name.
    Normal(String),
    /// Anything else: a root, a prefix, `.` or `..`.
    Other,
}

/// The names of the components, if all of them are ordinary.
pub open spec fn part_names(parts: Seq<PathPart>) -> Option<Seq<Seq<char>>>
    decreases parts.len(),
{
    if parts.len() == 0 {
        Some(Seq::empty())
    } else {
        match (part_names(parts.drop_last()), parts.last()) {
            (Some(names), PathPart::Normal(name)) => Some(names.push(name@)),
            _ => None,
        }
    }
}

/// The archive path that a path found on disk gets.
pub open spec fn archive_path(parts: Seq<PathPart>) -> Result<Seq<char>, Fault> {
    match part_names(parts) {
        None => Err(Fault::UnsupportedComponent),
        Some(names) => match path_fault(join(names, '/')) {
            Some(f) => Err(f),
            None => Ok(join(names, '/')),
        },
    }
}

/// All components are ordinary names.
pub open spec fn all_normal(parts: Seq<PathPart>) -> bool {
    forall|i: int| 0 <= i < parts.len() ==> (#[trigger] parts[i]) is Normal
}

/// The name of an ordinary component.
pub open spec fn name_of(part: PathPart) -> Seq<char> {
    part->Normal_0@
}

/// The names of the components are those of each of them, in order, and there are none
/// where one component is not ordinary.
pub proof fn lemma_part_names(parts: Seq<PathPart>)
    ensures
        part_names(parts) is Some <==> all_normal(parts),
        part_names(parts) matches Some(names) ==> {
            &&& names.len() == parts.len()
            &&& forall|i: int| 0 <= i < parts.len() ==> names[i] == name_of(#[trigger] parts[i])
        },
    decreases parts.len(),
{
    if parts.len() > 0 {
        let init = parts.drop_last();
        lemma_part_names(init);
        assert(all_normal(parts) <==> all_normal(init) && parts.last() is Normal) by {
            if all_normal(parts) {
                assert forall|i: int| 0 <= i < init.len() implies (#[trigger] init[i]) is Normal by {
                    assert(init[i] == parts[i]);
                }
                assert(parts[parts.len() - 1] is Normal);
            }
            if all_normal(init) && parts.last() is Normal {
                assert forall|i: int| 0 <= i < parts.len() implies (#[trigger] parts[i]) is Normal by {
                    if i < init.len() {
                        assert(init[i] == parts[i]);
                    }
                }
            }
        }
        if part_names(parts) is Some {
            let names = part_names(parts)->0;
            assert forall|i: int| 0 <= i < parts.len() implies names[i] == name_of(
                #[trigger] parts[i],
            ) by {
                if i < init.len() {
                    assert(init[i] == parts[i]);
                }
            }
        }
    }
}

/// The components of an archive path are the components of the path on disk, one for one.
/// A path on disk gets no archive path where a component of it is not ordinary, and else
/// exactly if every name can stand in one and the path does not start as that of a drive.
/// (No name on disk holds a slash.)
pub proof fn law_archive_path(parts: Seq<PathPart>, path: Seq<char>)
    requires
        parts.len() > 0,
        all_normal(parts) ==> forall|i: int|
            0 <= i < parts.len() ==> !name_of(#[trigger] parts[i]).contains('/'),
    ensures
        archive_path(parts) == Ok::<Seq<char>, Fault>(path) ==> {
            &&& all_normal(parts)
            &&& split(path, '/').len() == parts.len()
            &&& forall|i: int|
                0 <= i < parts.len() ==> split(path, '/')[i] == name_of(#[trigger] parts[i])
        },
        !all_normal(parts) <==> archive_path(parts) == Err::<Seq<char>, Fault>(
            Fault::UnsupportedComponent,
        ),
        all_normal(parts) && split(path, '/').len() == parts.len() && !has_drive(path) && (forall|
            i: int,
        |
            0 <= i < parts.len() ==> split(path, '/')[i] == name_of(#[trigger] parts[i])
                && is_plain_name(name_of(parts[i]))) ==> archive_path(parts) == Ok::<
            Seq<char>,
            Fault,
        >(path),
{
    lemma_part_names(parts);
    if all_normal(parts) {
        let names = part_names(parts)->0;
        let whole = join(names, '/');
        assert forall|i: int| 0 <= i < names.len() implies !(#[trigger] names[i]).contains('/') by {
            assert(names[i] == name_of(parts[i]));
        }
        law_split_undoes_join(names, '/');
        lemma_no_unsupported(whole);
        if split(path, '/').len() == parts.len() && !has_drive(path) && forall|i: int|
            0 <= i < parts.len() ==> split(path, '/')[i] == name_of(#[trigger] parts[i])
                && is_plain_name(name_of(parts[i])) {
            assert forall|i: int| 0 <= i < names.len() implies split(path, '/')[i] == names[i]
                && is_plain_name(#[trigger] names[i]) by {
                assert(names[i] == name_of(parts[i]));
            }
            assert(split(path, '/') =~= names);
            law_join_undoes_split(path, '/');
            assert(whole == path);
            lemma_first_of_split(path);
            assert(is_plain_name(names[0]));
            law_accepted_paths(path);
        }
    }
}

/// No path is refused for a component that is not ordinary.
proof fn lemma_no_unsupported(path: Seq<char>)
    ensures
        path_fault(path) != Some(Fault::UnsupportedComponent),
{
    lemma_parts_no_unsupported(split(path, '/'));
}

proof fn lemma_parts_no_unsupported(parts: Seq<Seq<char>>)
    ensures
        parts_fault(parts) != Some(Fault::UnsupportedComponent),
    decreases parts.len(),
{
    if parts.len() > 0 {
        lemma_parts_no_unsupported(parts.drop_first());
    }
}

/// A path starts with its first component.
proof fn lemma_first_of_split(path: Seq<char>)
    ensures
        path.len() > 0 && path[0] != '/' ==> split(path, '/')[0].len() > 0 && path[0] == split(
            path,
            '/',
        )[0][0],
        path.len() > 0 && path[0] == '/' ==> split(path, '/').len() > 1 && split(
            path,
            '/',
        )[0].len() == 0,
        path.len() == 0 ==> split(path, '/')[0].len() == 0,
        split(path, '/').len() >= 1,
    decreases path.len(),
{
    lemma_split_nonempty(path, '/');
    if path.len() > 0 {
        let init = path.drop_last();
        lemma_first_of_split(init);
        lemma_split_nonempty(init, '/');
        if init.len() > 0 {
            assert(init[0] == path[0]);
        }
    }
}

proof fn lemma_part_names_prefix(parts: Seq<PathPart>, n: int)
    requires
        0 <= n <= parts.len(),
        part_names(parts.take(n)) is None,
    ensures
        part_names(parts) is None,
    decreases parts.len() - n,
{
    if n < parts.len() {
        assert(parts.take(n + 1).drop_last() == parts.take(n));
        lemma_part_names_prefix(parts, n + 1);
    } else {
        assert(parts.take(n) == parts);
    }
}

/// The archive path for the components of a path found on disk, joined with
/// slashes and checked.
pub fn to_archive_path(parts: &Vec<PathPart>) -> (r: Result<String, Error>)
    ensures
        match r {
            Ok(p) => archive_path(parts@) == Ok::<Seq<char>, Fault>(p@),
            Err(e) => archive_path(parts@) == Err::<Seq<char>, Fault>(e.fault),
        },
{
    let mut joined = String::new();
    let mut i: usize = 0;
    assert(parts@.take(0) == Seq::<PathPart>::empty());
    while i < parts.len()
        invariant
            i <= parts@.len(),
            part_names(parts@.take(i as int)) matches Some(names) && names.len() == i && joined@
                == join(names, '/'),
        decreases parts@.len() - i,
    {
        assert(parts@.take(i + 1).drop_last() == parts@.take(i as int));
        match &parts[i] {
            PathPart::Normal(name) => {
                let ghost before = part_names(parts@.take(i as int))->0;
                let ghost names = before.push(name@);
                assert(names.drop_last() == before);
                let ghost prior = joined@;
                if i > 0 {
                    joined.push('/');
                }
                joined.append(name);
                assert(joined@ =~= join(names, '/'));
            },
            PathPart::Other => {
                proof {
                    lemma_part_names_prefix(parts@, i + 1);
                }
                return Err(Error::new(Fault::UnsupportedComponent));
            },
        }
        i += 1;
    }
    assert(parts@.take(i as int) == parts@);
    sanitize_path(&joined)
}

} // verus!
