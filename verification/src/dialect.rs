//! The mathematical model of path cleaning: dialects, segments, and the
//! segment-reduction algorithm, stated over sequences of characters.

use vstd::prelude::*;

verus! {

/// A path dialect fixes which characters act as separators and which single
/// separator is used when a cleaned path is reassembled.
#[derive(Clone, Copy, Debug, PartialEq, Eq, Structural)]
pub enum Dialect {
    Unix,
    Windows,
}

/// The characters the dialect recognizes as separators.
pub open spec fn is_sep_char(d: Dialect, c: char) -> bool {
    match d {
        Dialect::Unix => c == '/',
        Dialect::Windows => c == '/' || c == '\\',
    }
}

/// The separator used when reassembling output.
pub open spec fn canonical_sep(d: Dialect) -> char {
    match d {
        Dialect::Unix => '/',
        Dialect::Windows => '\\',
    }
}

/// The segment `.`: the current directory.
pub open spec fn dot() -> Seq<char> {
    seq!['.']
}

/// The segment `..`: the parent directory.
pub open spec fn dotdot() -> Seq<char> {
    seq!['.', '.']
}

/// True iff the whole string is exactly one separator character, i.e. is the
/// root path.
pub open spec fn is_exact_separator(d: Dialect, s: Seq<char>) -> bool {
    s.len() == 1 && is_sep_char(d, s[0])
}

/// True iff the path begins with a separator character, i.e. is rooted.
pub open spec fn is_rooted(d: Dialect, s: Seq<char>) -> bool {
    s.len() > 0 && is_sep_char(d, s[0])
}

/// The path with every trailing separator character removed.
pub open spec fn trim_trailing_seps(d: Dialect, s: Seq<char>) -> Seq<char>
    decreases s.len(),
{
    if s.len() > 0 && is_sep_char(d, s.last()) {
        trim_trailing_seps(d, s.drop_last())
    } else {
        s
    }
}

/// The segments of the path, split on every separator character. Empty
/// segments arising from consecutive, leading or trailing separators are
/// kept; splitting the empty string yields one empty segment.
pub open spec fn split_segments(d: Dialect, s: Seq<char>) -> Seq<Seq<char>>
    decreases s.len(),
{
    if s.len() == 0 {
        seq![Seq::<char>::empty()]
    } else {
        let rest = split_segments(d, s.drop_last());
        let c = s.last();
        if is_sep_char(d, c) {
            rest.push(Seq::<char>::empty())
        } else {
            rest.update(rest.len() - 1, rest.last().push(c))
        }
    }
}

/// The segments joined with exactly one `sep` between them; joining zero
/// segments yields the empty string.
pub open spec fn join_segments(sep: char, segs: Seq<Seq<char>>) -> Seq<char>
    decreases segs.len(),
{
    if segs.len() == 0 {
        Seq::empty()
    } else if segs.len() == 1 {
        segs[0]
    } else {
        join_segments(sep, segs.drop_last()) + seq![sep] + segs.last()
    }
}

/// A `..` segment can cancel the segment before it only when that segment is
/// a normal name, not `.` or `..`.
pub open spec fn can_backtrack_seg(seg: Seq<char>) -> bool {
    seg != dot() && seg != dotdot()
}

/// The stack of output segments retained after walking `segs` left to right:
/// empty segments are dropped, `.` is dropped, `..` cancels a preceding
/// normal name, is kept at the head of a non-rooted path, and vanishes at the
/// root. `lone` records whether the whole split produced exactly one segment,
/// in which case a `.` segment is kept verbatim.
pub open spec fn reduce_segments(segs: Seq<Seq<char>>, rooted: bool, lone: bool) -> Seq<Seq<char>>
    decreases segs.len(),
{
    if segs.len() == 0 {
        Seq::empty()
    } else {
        let prev = reduce_segments(segs.drop_last(), rooted, lone);
        let seg = segs.last();
        if seg.len() == 0 {
            prev
        } else if seg == dot() {
            if lone {
                prev.push(seg)
            } else {
                prev
            }
        } else if seg == dotdot() {
            if prev.len() > 0 && !can_backtrack_seg(prev.last()) {
                prev.push(seg)
            } else if prev.len() == 0 && !rooted {
                prev.push(seg)
            } else if prev.len() == 0 && rooted {
                prev
            } else {
                prev.drop_last()
            }
        } else {
            prev.push(seg)
        }
    }
}

/// The canonical form of the special paths that are returned verbatim before
/// general processing: the root path, the empty path, `.` and `..`.
pub open spec fn spec_special_path(d: Dialect, s: Seq<char>) -> Option<Seq<char>> {
    if is_exact_separator(d, s) {
        Some(seq![canonical_sep(d)])
    } else if s.len() == 0 || s == dot() {
        Some(dot())
    } else if s == dotdot() {
        Some(dotdot())
    } else {
        None
    }
}

/// The cleaned form of a path: special paths are returned in canonical form;
/// otherwise the path is trimmed of trailing separators, split, reduced
/// segment by segment, rejoined with the canonical separator, given back its
/// root, and `.` stands in for an empty result.
pub open spec fn spec_clean(d: Dialect, s: Seq<char>) -> Seq<char> {
    match spec_special_path(d, s) {
        Some(r) => r,
        None => {
            let rooted = is_rooted(d, s);
            let segs = split_segments(d, trim_trailing_seps(d, s));
            let out = reduce_segments(segs, rooted, segs.len() == 1);
            let joined = join_segments(canonical_sep(d), out);
            let full = if rooted {
                seq![canonical_sep(d)] + joined
            } else {
                joined
            };
            if full.len() == 0 {
                dot()
            } else {
                full
            }
        },
    }
}

} // verus!
