//! The path grammar and the cleaner: per-dialect separator handling, and the
//! segment-reduction algorithm that produces the canonical form of a path.

use vstd::prelude::*;

use crate::dialect::canonical_sep;
use crate::dialect::is_exact_separator;
use crate::dialect::is_rooted;
use crate::dialect::is_sep_char;
use crate::dialect::join_segments;
use crate::dialect::split_segments;
use crate::dialect::spec_special_path;
use crate::dialect::trim_trailing_seps;
use crate::dialect::Dialect;

verus! {

/// The `PathClean` trait implements a `clean` method on the host's
/// path-buffer type. It is recommended to use the provided [`clean`] function
/// on strings instead.
pub trait PathClean<T> {
    fn clean(&self) -> T;
}

/// Declares `std::path::PathBuf`, which vstd gives no specification, so that
/// values of it may pass through this library opaquely.
#[verifier::external_type_specification]
#[verifier::external_body]
pub struct ExPathBuf(std::path::PathBuf);

/// The text of a path value: what `Path::to_str` returns for it, with the
/// empty string standing in for a path that is not valid Unicode.
pub uninterp spec fn path_text_of(path: std::path::PathBuf) -> Seq<char>;

/// Relies on `Path::to_str`: the text returned is a function of the path
/// value alone, and the empty string stands in for a path that is not valid
/// Unicode.
#[verifier::external_body]
fn path_buf_text(path: &std::path::PathBuf) -> (r: String)
    ensures
        r@ == path_text_of(*path),
{
    String::from(path.to_str().unwrap_or(""))
}

/// Relies on `PathBuf::from`, which wraps the string's text as an owned
/// path, and `Path::to_str`, which returns that same text back, since it is
/// valid Unicode.
#[verifier::external_body]
fn path_buf_of_text(text: String) -> (r: std::path::PathBuf)
    ensures
        path_text_of(r) == text@,
{
    std::path::PathBuf::from(text)
}

/// `PathClean` implemented for `PathBuf`: the result's text is the cleaned
/// text of the path itself.
impl PathClean<std::path::PathBuf> for std::path::PathBuf {
    fn clean(&self) -> (r: std::path::PathBuf)
        ensures
            path_text_of(r) == crate::dialect::spec_clean(Dialect::Unix, path_text_of(*self)),
    {
        path_buf_of_text(clean(path_buf_text(self).as_str()))
    }
}

/// The characteristics of one path dialect: which characters separate
/// segments, and which separator canonical output uses.
pub trait PathCharacteristics {
    /// The dialect these characteristics implement, for specification
    /// purposes.
    spec fn dialect() -> Dialect;

    /// The canonical separator for this dialect, as a one-character string.
    fn canonical_separator() -> (r: &'static str)
        ensures
            r@ == seq![canonical_sep(Self::dialect())],
    ;

    /// True iff the string is exactly one separator character.
    fn is_separator(path: &str) -> (r: bool)
        ensures
            r == is_exact_separator(Self::dialect(), path@),
    ;

    /// True iff the string starts with a separator character.
    fn starts_with_separator(path: &str) -> (r: bool)
        ensures
            r == is_rooted(Self::dialect(), path@),
    ;

    /// The string with its trailing separators removed.
    fn trim_end_matches_separator(path: &str) -> (r: &str)
        ensures
            r@ == trim_trailing_seps(Self::dialect(), path@),
    ;

    /// The string split on every separator, empty segments kept.
    fn split_on_separators(path: &str) -> (r: Vec<String>)
        ensures
            r.deep_view() == split_segments(Self::dialect(), path@),
    ;
}

/// Characteristics for Unix-style paths: the only separator is `/`.
pub struct UnixPath;

/// Characteristics for Windows-style paths: both `/` and `\` separate, and
/// canonical output uses `\`.
pub struct WindowsPath;

impl PathCharacteristics for UnixPath {
    open spec fn dialect() -> Dialect {
        Dialect::Unix
    }

    fn canonical_separator() -> &'static str {
        canonical_sep_str(Dialect::Unix)
    }

    fn is_separator(path: &str) -> bool {
        exact_separator_test(Dialect::Unix, path)
    }

    fn starts_with_separator(path: &str) -> bool {
        rooted_test(Dialect::Unix, path)
    }

    fn trim_end_matches_separator(path: &str) -> &str {
        trim_trailing(Dialect::Unix, path)
    }

    fn split_on_separators(path: &str) -> Vec<String> {
        split_chars(Dialect::Unix, path)
    }
}

impl PathCharacteristics for WindowsPath {
    open spec fn dialect() -> Dialect {
        Dialect::Windows
    }

    fn canonical_separator() -> &'static str {
        canonical_sep_str(Dialect::Windows)
    }

    fn is_separator(path: &str) -> bool {
        exact_separator_test(Dialect::Windows, path)
    }

    fn starts_with_separator(path: &str) -> bool {
        rooted_test(Dialect::Windows, path)
    }

    fn trim_end_matches_separator(path: &str) -> &str {
        trim_trailing(Dialect::Windows, path)
    }

    fn split_on_separators(path: &str) -> Vec<String> {
        split_chars(Dialect::Windows, path)
    }
}

/// True iff `c` is a separator character of the dialect `d`.
fn sep_char_test(d: Dialect, c: char) -> (r: bool)
    ensures
        r == is_sep_char(d, c),
{
    match d {
        Dialect::Unix => c == '/',
        Dialect::Windows => c == '/' || c == '\\',
    }
}

/// The canonical separator of the dialect `d`, as a one-character string.
fn canonical_sep_str(d: Dialect) -> (r: &'static str)
    ensures
        r@ == seq![canonical_sep(d)],
{
    proof {
        reveal_strlit("/");
        reveal_strlit("\\");
        assert("/"@ =~= seq!['/']);
        assert("\\"@ =~= seq!['\\']);
    }
    match d {
        Dialect::Unix => "/",
        Dialect::Windows => "\\",
    }
}

/// True iff `path` is exactly one separator character of the dialect `d`.
fn exact_separator_test(d: Dialect, path: &str) -> (r: bool)
    ensures
        r == is_exact_separator(d, path@),
{
    if path.unicode_len() == 1 {
        sep_char_test(d, path.get_char(0))
    } else {
        false
    }
}

/// True iff `path` starts with a separator character of the dialect `d`.
fn rooted_test(d: Dialect, path: &str) -> (r: bool)
    ensures
        r == is_rooted(d, path@),
{
    if path.unicode_len() > 0 {
        sep_char_test(d, path.get_char(0))
    } else {
        false
    }
}

/// The longest prefix of `path` that does not end in a separator of `d`.
fn trim_trailing(d: Dialect, path: &str) -> (r: &str)
    ensures
        r@ == trim_trailing_seps(d, path@),
{
    let n = path.unicode_len();
    let mut j: usize = n;
    proof {
        assert(path@.take(n as int) =~= path@);
    }
    while j > 0 && sep_char_test(d, path.get_char(j - 1))
        invariant
            j <= n,
            n == path@.len(),
            trim_trailing_seps(d, path@) == trim_trailing_seps(d, path@.take(j as int)),
        decreases j,
    {
        proof {
            assert(path@.take(j as int).last() == path@[j - 1]);
            assert(path@.take(j as int).drop_last() =~= path@.take(j - 1));
        }
        j = j - 1;
    }
    proof {
        if j > 0 {
            assert(path@.take(j as int).last() == path@[j - 1]);
        }
        assert(trim_trailing_seps(d, path@.take(j as int)) == path@.take(j as int));
    }
    path.substring_char(0, j)
}

/// The segments of `path`, split on every separator of `d`, empty segments
/// kept.
fn split_chars(d: Dialect, path: &str) -> (r: Vec<String>)
    ensures
        r.deep_view() == split_segments(d, path@),
{
    let n = path.unicode_len();
    let mut result: Vec<String> = Vec::new();
    let mut start: usize = 0;
    let mut i: usize = 0;
    proof {
        assert(path@.take(0) =~= Seq::<char>::empty());
        assert(path@.subrange(0, 0) =~= Seq::<char>::empty());
    }
    while i < n
        invariant
            start <= i <= n,
            n == path@.len(),
            split_segments(d, path@.take(i as int)) == result.deep_view().push(
                path@.subrange(start as int, i as int),
            ),
        decreases n - i,
    {
        let c = path.get_char(i);
        proof {
            assert(path@.take(i + 1).drop_last() =~= path@.take(i as int));
            assert(path@.take(i + 1).last() == path@[i as int]);
        }
        let ghost prev_split = split_segments(d, path@.take(i as int));
        if sep_char_test(d, c) {
            let seg = path.substring_char(start, i);
            let owned = String::from_str(seg);
            result.push(owned);
            proof {
                assert(result.deep_view() =~= prev_split);
                assert(split_segments(d, path@.take(i + 1)) == prev_split.push(
                    Seq::<char>::empty(),
                ));
                assert(path@.subrange(i + 1, i + 1) =~= Seq::<char>::empty());
            }
            start = i + 1;
        } else {
            proof {
                assert(prev_split.len() == result.deep_view().len() + 1);
                assert(split_segments(d, path@.take(i + 1)) == prev_split.update(
                    prev_split.len() - 1,
                    prev_split.last().push(path@[i as int]),
                ));
                assert(path@.subrange(start as int, i + 1) =~= path@.subrange(
                    start as int,
                    i as int,
                ).push(path@[i as int]));
                assert(split_segments(d, path@.take(i + 1)) =~= result.deep_view().push(
                    path@.subrange(start as int, i + 1),
                ));
            }
        }
        i = i + 1;
    }
    let seg = path.substring_char(start, n);
    let owned = String::from_str(seg);
    result.push(owned);
    proof {
        assert(path@.take(n as int) =~= path@);
        assert(result.deep_view() =~= split_segments(d, path@));
    }
    result
}

/// Get the normalized form of a special path, if `path` is special: the root
/// path, the empty path, `.` and `..` are returned in canonical form before
/// general processing.
pub fn special_path<P: PathCharacteristics>(path: &str) -> (r: Option<String>)
    ensures
        match r {
            Some(s) => spec_special_path(P::dialect(), path@) == Some(s@),
            None => spec_special_path(P::dialect(), path@) is None,
        },
{
    proof {
        reveal_strlit(".");
        reveal_strlit("..");
        assert("."@ =~= crate::dialect::dot());
        assert(".."@ =~= crate::dialect::dotdot());
    }
    if P::is_separator(path) {
        return Some(String::from_str(P::canonical_separator()));
    }
    let n = path.unicode_len();
    if n == 0 {
        Some(String::from_str("."))
    } else if n == 1 && path.get_char(0) == '.' {
        proof {
            assert(path@ =~= crate::dialect::dot());
        }
        Some(String::from_str("."))
    } else if n == 2 && path.get_char(0) == '.' && path.get_char(1) == '.' {
        proof {
            assert(path@ =~= crate::dialect::dotdot());
        }
        Some(String::from_str(".."))
    } else {
        proof {
            assert(path@ != crate::dialect::dot());
            assert(path@ != crate::dialect::dotdot());
        }
        None
    }
}

/// Determine whether the path is rooted, from the original untrimmed path.
pub fn is_root<P: PathCharacteristics>(path: &str) -> (r: bool)
    ensures
        r == is_rooted(P::dialect(), path@),
{
    P::starts_with_separator(path)
}

/// Trim trailing path separators from the end of the path.
pub fn trim_end_path<P: PathCharacteristics>(path: &str) -> (r: &str)
    ensures
        r@ == trim_trailing_seps(P::dialect(), path@),
{
    P::trim_end_matches_separator(path)
}

/// Split a path into segments based on the dialect's separators.
pub fn split_path_segments<P: PathCharacteristics>(path: &str) -> (r: Vec<String>)
    ensures
        r.deep_view() == split_segments(P::dialect(), path@),
{
    P::split_on_separators(path)
}

/// Join path segments with the dialect's canonical separator.
pub fn join_path_segments<P: PathCharacteristics>(segments: &Vec<String>) -> (r: String)
    ensures
        r@ == join_segments(canonical_sep(P::dialect()), segments.deep_view()),
{
    let ghost csep = canonical_sep(P::dialect());
    let ghost dv = segments.deep_view();
    let sep = P::canonical_separator();
    let mut r = String::new();
    let mut i: usize = 0;
    proof {
        assert(dv.take(0) =~= Seq::<Seq<char>>::empty());
    }
    while i < segments.len()
        invariant
            i <= segments@.len(),
            dv == segments.deep_view(),
            dv.len() == segments@.len(),
            sep@ == seq![csep],
            csep == canonical_sep(P::dialect()),
            r@ == join_segments(csep, dv.take(i as int)),
        decreases segments@.len() - i,
    {
        proof {
            assert(dv.take(i + 1).drop_last() =~= dv.take(i as int));
            assert(dv.take(i + 1).last() == dv[i as int]);
            assert(dv[i as int] == segments@[i as int]@);
        }
        if i > 0 {
            r.append(sep);
        }
        r.append(segments[i].as_str());
        proof {
            if i == 0 {
                assert(join_segments(csep, dv.take(1)) == dv[0]);
                assert(r@ =~= dv[0]);
            } else {
                assert(r@ =~= join_segments(csep, dv.take(i as int)) + seq![csep] + dv[i as int]);
            }
        }
        i = i + 1;
    }
    proof {
        assert(dv.take(segments@.len() as int) =~= dv);
    }
    r
}

/// Make an absolute path by prepending one canonical separator.
pub fn make_absolute<P: PathCharacteristics>(path: &str) -> (r: String)
    ensures
        r@ == seq![canonical_sep(P::dialect())] + path@,
{
    let mut r = String::from_str(P::canonical_separator());
    r.append(path);
    r
}

/// True iff the segment is empty.
fn seg_is_empty(seg: &str) -> (r: bool)
    ensures
        r == (seg@.len() == 0),
{
    seg.unicode_len() == 0
}

/// True iff the segment is `.`.
fn seg_is_dot(seg: &str) -> (r: bool)
    ensures
        r == (seg@ == crate::dialect::dot()),
{
    let n = seg.unicode_len();
    if n == 1 && seg.get_char(0) == '.' {
        proof {
            assert(seg@ =~= crate::dialect::dot());
        }
        true
    } else {
        false
    }
}

/// True iff the segment is `..`.
fn seg_is_dotdot(seg: &str) -> (r: bool)
    ensures
        r == (seg@ == crate::dialect::dotdot()),
{
    let n = seg.unicode_len();
    if n == 2 && seg.get_char(0) == '.' && seg.get_char(1) == '.' {
        proof {
            assert(seg@ =~= crate::dialect::dotdot());
        }
        true
    } else {
        false
    }
}

/// True iff a `..` may cancel this segment: it is a normal name, not `.` or
/// `..`.
fn can_backtrack(seg: &str) -> (r: bool)
    ensures
        r == crate::dialect::can_backtrack_seg(seg@),
{
    !seg_is_dot(seg) && !seg_is_dotdot(seg)
}

/// The core cleaning algorithm. It performs the following, lexically:
/// 1. Reduce multiple separators to a single separator.
/// 2. Eliminate `.` path name elements (the current directory).
/// 3. Eliminate `..` path name elements (the parent directory) and the
///    non-`.` non-`..` element that precedes them.
/// 4. Eliminate `..` elements that begin a rooted path.
/// 5. Leave intact `..` elements that begin a non-rooted path.
///
/// If the result of this process is an empty string, `.` is returned,
/// representing the current directory.
fn clean_core<P: PathCharacteristics>(path: &str) -> (r: String)
    ensures
        r@ == crate::dialect::spec_clean(P::dialect(), path@),
{
    let ghost d = P::dialect();
    let special = special_path::<P>(path);
    if special.is_some() {
        return special.unwrap();
    }

    let mut out: Vec<String> = Vec::new();
    let rooted = is_root::<P>(path);
    let trimmed = trim_end_path::<P>(path);
    let segments = split_path_segments::<P>(trimmed);
    let num_segments = segments.len();
    let ghost segs = segments.deep_view();
    let ghost lone = segs.len() == 1;

    let mut i: usize = 0;
    proof {
        assert(segs.take(0) =~= Seq::<Seq<char>>::empty());
        assert(out.deep_view() =~= Seq::<Seq<char>>::empty());
    }
    while i < segments.len()
        invariant
            i <= segments@.len(),
            segs == segments.deep_view(),
            segs.len() == segments@.len(),
            num_segments == segments@.len(),
            lone == (segs.len() == 1),
            out.deep_view() == crate::dialect::reduce_segments(segs.take(i as int), rooted, lone),
        decreases segments@.len() - i,
    {
        proof {
            assert(segs.take(i + 1).drop_last() =~= segs.take(i as int));
            assert(segs.take(i + 1).last() == segs[i as int]);
            assert(segs[i as int] == segments@[i as int]@);
        }
        let ghost prev = out.deep_view();
        let segment = &segments[i];
        if seg_is_empty(segment.as_str()) {
            // discard: collapses repeated separators
        } else if seg_is_dot(segment.as_str()) {
            if num_segments == 1 {
                out.push(segment.clone());
                proof {
                    assert(out.deep_view() =~= prev.push(segs[i as int]));
                }
            }
        } else if seg_is_dotdot(segment.as_str()) {
            let previous = out.pop();
            proof {
                if prev.len() > 0 {
                    assert(out.deep_view() =~= prev.drop_last());
                }
            }
            if previous.is_some() {
                let p = previous.unwrap();
                let ghost popped = out.deep_view();
                if !can_backtrack(p.as_str()) {
                    out.push(p);
                    proof {
                        assert(out.deep_view() =~= popped.push(prev.last()));
                        assert(out.deep_view() =~= prev);
                    }
                    out.push(segment.clone());
                    proof {
                        assert(out.deep_view() =~= prev.push(segs[i as int]));
                    }
                }
            } else {
                if !rooted {
                    out.push(segment.clone());
                    proof {
                        assert(out.deep_view() =~= prev.push(segs[i as int]));
                    }
                }
            }
        } else {
            out.push(segment.clone());
            proof {
                assert(out.deep_view() =~= prev.push(segs[i as int]));
            }
        }
        i = i + 1;
    }
    proof {
        assert(segs.take(segments@.len() as int) =~= segs);
    }

    let out_str_0 = join_path_segments::<P>(&out);

    let out_str_1 = if rooted {
        make_absolute::<P>(out_str_0.as_str())
    } else {
        out_str_0
    };

    if out_str_1.as_str().unicode_len() == 0 {
        proof {
            reveal_strlit(".");
            assert("."@ =~= crate::dialect::dot());
        }
        String::from_str(".")
    } else {
        out_str_1
    }
}

/// Normalize the path using the host platform's dialect. This library is
/// built for platforms whose separator is `/`, so the Unix dialect is used.
#[must_use]
pub fn clean(path: &str) -> (r: String)
    ensures
        r@ == crate::dialect::spec_clean(Dialect::Unix, path@),
{
    clean_core::<UnixPath>(path)
}

/// Normalize the path using the Unix dialect: `/` is the only separator.
#[must_use]
pub fn clean_unix(path: &str) -> (r: String)
    ensures
        r@ == crate::dialect::spec_clean(Dialect::Unix, path@),
{
    clean_core::<UnixPath>(path)
}

/// Normalize the path using the Windows dialect: `/` and `\` both separate,
/// and output uses `\`.
#[must_use]
pub fn clean_windows(path: &str) -> (r: String)
    ensures
        r@ == crate::dialect::spec_clean(Dialect::Windows, path@),
{
    clean_core::<WindowsPath>(path)
}

} // verus!
