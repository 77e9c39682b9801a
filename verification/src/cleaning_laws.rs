//! Laws of the cleaner: cleaning never yields the empty string, and cleaning
//! is idempotent.

use vstd::prelude::*;

use crate::dialect::can_backtrack_seg;
use crate::dialect::canonical_sep;
use crate::dialect::dot;
use crate::dialect::dotdot;
use crate::dialect::is_exact_separator;
use crate::dialect::is_rooted;
use crate::dialect::is_sep_char;
use crate::dialect::join_segments;
use crate::dialect::reduce_segments;
use crate::dialect::spec_clean;
use crate::dialect::spec_special_path;
use crate::dialect::split_segments;
use crate::dialect::trim_trailing_seps;
use crate::dialect::Dialect;

verus! {

/// True iff no character of `seg` is a separator of `d`.
spec fn sep_free(d: Dialect, seg: Seq<char>) -> bool {
    forall|k: int| 0 <= k < seg.len() ==> !is_sep_char(d, #[trigger] seg[k])
}

/// True iff every segment of `segs` is free of separators of `d`.
spec fn all_sep_free(d: Dialect, segs: Seq<Seq<char>>) -> bool {
    forall|i: int| 0 <= i < segs.len() ==> sep_free(d, #[trigger] segs[i])
}

/// A normal name: nonempty, not `.`, not `..`, and free of separators.
spec fn is_normal_seg(d: Dialect, seg: Seq<char>) -> bool {
    seg.len() > 0 && seg != dot() && seg != dotdot() && sep_free(d, seg)
}

/// The shape of the output stack the reduction maintains: every retained
/// segment is `..` or a normal name, the `..` segments form a prefix, and a
/// rooted path retains no `..` at all.
spec fn good_stack(d: Dialect, out: Seq<Seq<char>>, rooted: bool) -> bool {
    &&& forall|i: int|
        0 <= i < out.len() ==> (#[trigger] out[i]) == dotdot() || is_normal_seg(d, out[i])
    &&& forall|i: int, j: int|
        #![trigger out[i], out[j]]
        0 <= i < j < out.len() && out[j] == dotdot() ==> out[i] == dotdot()
    &&& rooted ==> forall|i: int| 0 <= i < out.len() ==> (#[trigger] out[i]) != dotdot()
}

/// Splitting yields at least one segment, and none of them contains a
/// separator.
proof fn lemma_split_basic(d: Dialect, s: Seq<char>)
    ensures
        split_segments(d, s).len() >= 1,
        all_sep_free(d, split_segments(d, s)),
    decreases s.len(),
{
    if s.len() == 0 {
        assert(sep_free(d, Seq::<char>::empty()));
    } else {
        lemma_split_basic(d, s.drop_last());
        let rest = split_segments(d, s.drop_last());
        let c = s.last();
        if is_sep_char(d, c) {
            assert(sep_free(d, Seq::<char>::empty()));
            assert(all_sep_free(d, rest.push(Seq::<char>::empty())));
        } else {
            let ext = rest.last().push(c);
            assert(sep_free(d, ext));
            assert(all_sep_free(d, rest.update(rest.len() - 1, ext)));
        }
    }
}

/// Appending one separator to a string appends one empty segment to its
/// split.
proof fn lemma_split_append_sep(d: Dialect, s: Seq<char>, c: char)
    requires
        is_sep_char(d, c),
    ensures
        split_segments(d, s.push(c)) == split_segments(d, s).push(Seq::<char>::empty()),
{
    assert(s.push(c).drop_last() =~= s);
    assert(s.push(c).last() == c);
}

/// Appending separator-free text to a string extends the last segment of its
/// split by that text.
proof fn lemma_split_append_free(d: Dialect, s: Seq<char>, t: Seq<char>)
    requires
        sep_free(d, t),
    ensures
        split_segments(d, s + t) == split_segments(d, s).update(
            split_segments(d, s).len() - 1,
            split_segments(d, s).last() + t,
        ),
    decreases t.len(),
{
    let sp = split_segments(d, s);
    lemma_split_basic(d, s);
    if t.len() == 0 {
        assert(s + t =~= s);
        assert(sp.last() + t =~= sp.last());
        assert(sp.update(sp.len() - 1, sp.last()) =~= sp);
    } else {
        let t0 = t.drop_last();
        let c = t.last();
        assert(sep_free(d, t0));
        assert(!is_sep_char(d, c));
        lemma_split_append_free(d, s, t0);
        let spt0 = split_segments(d, s + t0);
        assert(s + t =~= (s + t0).push(c));
        assert((s + t0).push(c).drop_last() =~= s + t0);
        assert((s + t0).push(c).last() == c);
        assert(split_segments(d, s + t) == spt0.update(spt0.len() - 1, spt0.last().push(c)));
        assert(spt0.len() == sp.len());
        assert(spt0.last() == sp.last() + t0);
        assert((sp.last() + t0).push(c) =~= sp.last() + t);
        assert(split_segments(d, s + t) =~= sp.update(sp.len() - 1, sp.last() + t));
    }
}

/// A separator-free string splits into exactly itself.
proof fn lemma_split_sep_free_whole(d: Dialect, t: Seq<char>)
    requires
        sep_free(d, t),
    ensures
        split_segments(d, t) == seq![t],
{
    lemma_split_append_free(d, Seq::<char>::empty(), t);
    assert(Seq::<char>::empty() + t =~= t);
    assert(split_segments(d, t) =~= seq![t]);
}

/// A string that splits into a single segment is that segment, and is
/// separator-free.
proof fn lemma_split_singleton_inverse(d: Dialect, t: Seq<char>)
    requires
        split_segments(d, t).len() == 1,
    ensures
        t == split_segments(d, t)[0],
        sep_free(d, t),
    decreases t.len(),
{
    if t.len() == 0 {
        assert(t =~= split_segments(d, t)[0]);
    } else {
        let rest = split_segments(d, t.drop_last());
        lemma_split_basic(d, t.drop_last());
        if is_sep_char(d, t.last()) {
            assert(split_segments(d, t).len() == rest.len() + 1);
            assert(false);
        } else {
            lemma_split_singleton_inverse(d, t.drop_last());
            assert(split_segments(d, t)[0] == rest[0].push(t.last()));
            assert(t =~= t.drop_last().push(t.last()));
            assert(sep_free(d, t));
        }
    }
}

/// Joined nonempty segments: the result is nonempty, its first and last
/// characters come from the first and last segments, and two or more
/// segments give length at least three.
proof fn lemma_join_props(sep: char, segs: Seq<Seq<char>>)
    requires
        segs.len() >= 1,
        forall|i: int| 0 <= i < segs.len() ==> (#[trigger] segs[i]).len() >= 1,
    ensures
        join_segments(sep, segs).len() >= 1,
        segs.len() >= 2 ==> join_segments(sep, segs).len() >= 3,
        join_segments(sep, segs)[0] == segs[0][0],
        join_segments(sep, segs).last() == segs.last().last(),
    decreases segs.len(),
{
    if segs.len() == 1 {
    } else {
        let dl = segs.drop_last();
        lemma_join_props(sep, dl);
        assert(join_segments(sep, segs) == join_segments(sep, dl) + seq![sep] + segs.last());
        assert(join_segments(sep, segs)[0] == join_segments(sep, dl)[0]);
        assert(join_segments(sep, segs).last() == segs.last().last());
    }
}

/// Joining with a leading empty segment prepends one separator to the join
/// of the rest.
proof fn lemma_join_cons_empty(sep: char, segs: Seq<Seq<char>>)
    requires
        segs.len() >= 1,
    ensures
        join_segments(sep, seq![Seq::<char>::empty()] + segs) == seq![sep] + join_segments(
            sep,
            segs,
        ),
    decreases segs.len(),
{
    let e = seq![Seq::<char>::empty()];
    if segs.len() == 1 {
        assert((e + segs).len() == 2);
        assert((e + segs).drop_last() =~= e);
        assert((e + segs).last() == segs[0]);
        assert(join_segments(sep, e) == Seq::<char>::empty());
        assert(join_segments(sep, e + segs) =~= seq![sep] + segs[0]);
        assert(join_segments(sep, segs) == segs[0]);
    } else {
        lemma_join_cons_empty(sep, segs.drop_last());
        assert((e + segs).drop_last() =~= e + segs.drop_last());
        assert((e + segs).last() == segs.last());
        assert(join_segments(sep, e + segs) =~= seq![sep] + join_segments(sep, segs));
    }
}

/// Splitting undoes joining: separator-free segments joined with a separator
/// of the dialect split back into exactly those segments.
proof fn lemma_split_of_join(d: Dialect, sep: char, segs: Seq<Seq<char>>)
    requires
        is_sep_char(d, sep),
        segs.len() >= 1,
        all_sep_free(d, segs),
    ensures
        split_segments(d, join_segments(sep, segs)) == segs,
    decreases segs.len(),
{
    if segs.len() == 1 {
        lemma_split_sep_free_whole(d, segs[0]);
        assert(seq![segs[0]] =~= segs);
    } else {
        let dl = segs.drop_last();
        assert(all_sep_free(d, dl));
        lemma_split_of_join(d, sep, dl);
        let j = join_segments(sep, dl);
        assert(j + seq![sep] =~= j.push(sep));
        lemma_split_append_sep(d, j, sep);
        assert(sep_free(d, segs.last()));
        lemma_split_append_free(d, j + seq![sep], segs.last());
        let spm = split_segments(d, j + seq![sep]);
        assert(spm == dl.push(Seq::<char>::empty()));
        assert(join_segments(sep, segs) =~= (j + seq![sep]) + segs.last());
        assert(Seq::<char>::empty() + segs.last() =~= segs.last());
        assert(split_segments(d, join_segments(sep, segs)) =~= segs);
    }
}

/// Trimming a string whose last character is no separator changes nothing.
proof fn lemma_trim_noop(d: Dialect, s: Seq<char>)
    requires
        s.len() == 0 || !is_sep_char(d, s.last()),
    ensures
        trim_trailing_seps(d, s) == s,
{
}

/// The trimmed string is a prefix of the original.
proof fn lemma_trim_prefix(d: Dialect, s: Seq<char>)
    ensures
        trim_trailing_seps(d, s).len() <= s.len(),
        trim_trailing_seps(d, s) == s.take(trim_trailing_seps(d, s).len() as int),
    decreases s.len(),
{
    if s.len() > 0 && is_sep_char(d, s.last()) {
        lemma_trim_prefix(d, s.drop_last());
        let tl = trim_trailing_seps(d, s).len() as int;
        assert(s.drop_last().take(tl) =~= s.take(tl));
    } else {
        assert(s.take(s.len() as int) =~= s);
    }
}

/// A string that trims to nothing consists of separators alone.
proof fn lemma_trim_empty_all_seps(d: Dialect, s: Seq<char>)
    requires
        trim_trailing_seps(d, s).len() == 0,
    ensures
        forall|i: int| 0 <= i < s.len() ==> is_sep_char(d, #[trigger] s[i]),
    decreases s.len(),
{
    if s.len() > 0 {
        assert(is_sep_char(d, s.last()));
        lemma_trim_empty_all_seps(d, s.drop_last());
        assert forall|i: int| 0 <= i < s.len() implies is_sep_char(d, #[trigger] s[i]) by {
            if i < s.len() - 1 {
                assert(is_sep_char(d, s.drop_last()[i]));
            } else {
                assert(s[i] == s.last());
            }
        }
    }
}

/// The reduction of separator-free segments is a well-shaped output stack.
/// When the split produced exactly one segment, that segment must not be `.`
/// (the only way `.` is ever retained).
proof fn lemma_reduce_good(d: Dialect, segs: Seq<Seq<char>>, rooted: bool, lone: bool)
    requires
        all_sep_free(d, segs),
        lone ==> segs.len() <= 1,
        lone && segs.len() == 1 ==> segs[0] != dot(),
    ensures
        good_stack(d, reduce_segments(segs, rooted, lone), rooted),
    decreases segs.len(),
{
    if segs.len() == 0 {
    } else {
        let dl = segs.drop_last();
        assert(all_sep_free(d, dl));
        lemma_reduce_good(d, dl, rooted, lone);
        let prev = reduce_segments(dl, rooted, lone);
        let seg = segs.last();
        assert(sep_free(d, seg));
        if seg.len() == 0 {
        } else if seg == dot() {
            if lone {
                assert(segs[0] == seg);
                assert(false);
            }
        } else if seg == dotdot() {
            if prev.len() > 0 && !can_backtrack_seg(prev.last()) {
                assert(prev.last() == prev[prev.len() - 1]);
                assert(prev.last() == dotdot());
                assert(!rooted);
                assert(forall|i: int| 0 <= i < prev.len() ==> (#[trigger] prev[i]) == dotdot());
                assert(good_stack(d, prev.push(seg), rooted));
            } else if prev.len() == 0 && !rooted {
                assert(good_stack(d, prev.push(seg), rooted));
            } else if prev.len() == 0 && rooted {
            } else {
                assert(good_stack(d, prev.drop_last(), rooted));
            }
        } else {
            assert(is_normal_seg(d, seg));
            let out2 = prev.push(seg);
            assert forall|i: int, j: int|
                #![trigger out2[i], out2[j]]
                0 <= i < j < out2.len() && out2[j] == dotdot() implies out2[i] == dotdot() by {
                assert(out2[j] != seg);
                assert(j < prev.len());
            }
            assert(good_stack(d, out2, rooted));
        }
    }
}

/// A well-shaped output stack reduces to itself.
proof fn lemma_reduce_fixed(d: Dialect, out: Seq<Seq<char>>, rooted: bool, lone: bool)
    requires
        good_stack(d, out, rooted),
    ensures
        reduce_segments(out, rooted, lone) == out,
    decreases out.len(),
{
    if out.len() == 0 {
    } else {
        let dl = out.drop_last();
        assert(good_stack(d, dl, rooted));
        lemma_reduce_fixed(d, dl, rooted, lone);
        let seg = out.last();
        assert(seg == out[out.len() - 1]);
        if seg == dotdot() {
            assert(!rooted);
            if dl.len() == 0 {
                assert(reduce_segments(out, rooted, lone) =~= out);
            } else {
                assert(dl.last() == out[dl.len() - 1]);
                assert(dl.last() == dotdot());
                assert(!can_backtrack_seg(dl.last()));
                assert(reduce_segments(out, rooted, lone) =~= out);
            }
        } else {
            assert(is_normal_seg(d, seg));
            assert(reduce_segments(out, rooted, lone) =~= out);
        }
    }
}

/// A well-shaped rooted output stack, preceded by the empty segment its
/// leading separator splits off, reduces to itself.
proof fn lemma_reduce_rooted_fixed(d: Dialect, out: Seq<Seq<char>>, lone: bool)
    requires
        good_stack(d, out, true),
    ensures
        reduce_segments(seq![Seq::<char>::empty()] + out, true, lone) == out,
    decreases out.len(),
{
    let e = seq![Seq::<char>::empty()];
    if out.len() == 0 {
        assert((e + out) =~= e);
        assert(e.drop_last() =~= Seq::<Seq<char>>::empty());
        assert(reduce_segments(Seq::<Seq<char>>::empty(), true, lone)
            == Seq::<Seq<char>>::empty());
        assert(e.last().len() == 0);
        assert(reduce_segments(e, true, lone) == Seq::<Seq<char>>::empty());
        assert(reduce_segments(e + out, true, lone) =~= out);
    } else {
        let dl = out.drop_last();
        assert(good_stack(d, dl, true));
        lemma_reduce_rooted_fixed(d, dl, lone);
        assert((e + out).drop_last() =~= e + dl);
        assert((e + out).last() == out.last());
        let seg = out.last();
        assert(seg == out[out.len() - 1]);
        assert(seg != dotdot());
        assert(is_normal_seg(d, seg));
        assert(reduce_segments(e + out, true, lone) =~= dl.push(seg));
        assert(dl.push(seg) =~= out);
    }
}

/// The root path, one separator alone, splits into two empty segments.
proof fn lemma_split_root(d: Dialect, c: char)
    requires
        is_sep_char(d, c),
    ensures
        split_segments(d, seq![c]) == seq![Seq::<char>::empty(), Seq::<char>::empty()],
{
    lemma_split_append_sep(d, Seq::<char>::empty(), c);
    assert(Seq::<char>::empty().push(c) =~= seq![c]);
    assert(split_segments(d, Seq::<char>::empty()).push(Seq::<char>::empty()) =~= seq![
        Seq::<char>::empty(),
        Seq::<char>::empty(),
    ]);
}

/// Root absorption: a rooted path cleans to a rooted path that begins with
/// the canonical separator and whose segments include no `..` — rooted `..`
/// beyond the root is discarded, however many there are.
pub proof fn lemma_clean_rooted(d: Dialect, s: Seq<char>)
    requires
        is_rooted(d, s),
    ensures
        spec_clean(d, s).len() > 0,
        spec_clean(d, s)[0] == canonical_sep(d),
        forall|i: int|
            0 <= i < split_segments(d, spec_clean(d, s)).len() ==> #[trigger] split_segments(
                d,
                spec_clean(d, s),
            )[i] != dotdot(),
{
    let r = spec_clean(d, s);
    let csep = canonical_sep(d);
    assert(is_sep_char(d, csep));
    assert(!is_sep_char(d, '.'));
    assert(is_sep_char(d, s[0]));
    if spec_special_path(d, s) is Some {
        assert(s != dot());
        assert(s != dotdot());
        assert(is_exact_separator(d, s));
        assert(r == seq![csep]);
        lemma_split_root(d, csep);
        assert forall|i: int|
            0 <= i < split_segments(d, r).len() implies #[trigger] split_segments(d, r)[i]
            != dotdot() by {
            assert(split_segments(d, r)[i].len() == 0);
        }
    } else {
        let rooted = is_rooted(d, s);
        let trimmed = trim_trailing_seps(d, s);
        let segs = split_segments(d, trimmed);
        let lone = segs.len() == 1;
        let out = reduce_segments(segs, rooted, lone);
        let joined = join_segments(csep, out);
        let full = seq![csep] + joined;
        lemma_split_basic(d, trimmed);
        lemma_trim_prefix(d, s);
        if segs == seq![dot()] {
            lemma_split_singleton_inverse(d, trimmed);
            assert(trimmed == dot());
            assert(s[0] == trimmed[0]);
            assert(false);
        } else {
            assert(lone ==> segs =~= seq![segs[0]]);
            lemma_reduce_good(d, segs, rooted, lone);
            if out.len() == 0 {
                assert(joined =~= Seq::<char>::empty());
                assert(full =~= seq![csep]);
                assert(r == full);
                lemma_split_root(d, csep);
                assert forall|i: int|
                    0 <= i < split_segments(d, r).len() implies #[trigger] split_segments(d, r)[i]
                    != dotdot() by {
                    assert(split_segments(d, r)[i].len() == 0);
                }
            } else {
                assert(forall|i: int| 0 <= i < out.len() ==> (#[trigger] out[i]).len() >= 1);
                lemma_join_props(csep, out);
                assert(full.len() > 0);
                assert(r == full);
                assert(full[0] == csep);
                lemma_join_cons_empty(csep, out);
                let eout = seq![Seq::<char>::empty()] + out;
                assert(sep_free(d, dotdot()));
                assert(forall|i: int| 0 <= i < out.len() ==> sep_free(d, #[trigger] out[i]));
                assert(full =~= join_segments(csep, eout));
                assert(all_sep_free(d, eout));
                lemma_split_of_join(d, csep, eout);
                assert(split_segments(d, r) == eout);
                assert forall|i: int|
                    0 <= i < split_segments(d, r).len() implies #[trigger] split_segments(d, r)[i]
                    != dotdot() by {
                    if i == 0 {
                        assert(eout[0].len() == 0);
                    } else {
                        assert(eout[i] == out[i - 1]);
                    }
                }
            }
        }
    }
}

/// Cleaning never yields the empty string, and the empty path cleans to `.`.
pub proof fn lemma_clean_nonempty(d: Dialect, s: Seq<char>)
    ensures
        spec_clean(d, s).len() > 0,
        s.len() == 0 ==> spec_clean(d, s) == dot(),
{
}

/// Cleaning is idempotent: a cleaned path cleans to itself.
pub proof fn lemma_clean_idempotent(d: Dialect, s: Seq<char>)
    ensures
        spec_clean(d, spec_clean(d, s)) == spec_clean(d, s),
{
    let r = spec_clean(d, s);
    let csep = canonical_sep(d);
    assert(is_sep_char(d, csep));
    assert(!is_sep_char(d, '.'));
    if spec_special_path(d, s) is Some {
        if is_exact_separator(d, s) {
            assert(r == seq![csep]);
            assert(is_exact_separator(d, r));
        } else if s.len() == 0 || s == dot() {
            assert(r == dot());
            assert(!is_exact_separator(d, r));
        } else {
            assert(r == dotdot());
            assert(!is_exact_separator(d, r));
            assert(r != dot());
        }
    } else {
        let rooted = is_rooted(d, s);
        let trimmed = trim_trailing_seps(d, s);
        let segs = split_segments(d, trimmed);
        let lone = segs.len() == 1;
        let out = reduce_segments(segs, rooted, lone);
        let joined = join_segments(csep, out);
        let full = if rooted {
            seq![csep] + joined
        } else {
            joined
        };
        lemma_split_basic(d, trimmed);
        lemma_trim_prefix(d, s);
        if segs == seq![dot()] {
            lemma_split_singleton_inverse(d, trimmed);
            assert(trimmed == dot());
            assert(s[0] == trimmed[0]);
            assert(!rooted);
            assert(segs.drop_last() =~= Seq::<Seq<char>>::empty());
            assert(reduce_segments(Seq::<Seq<char>>::empty(), rooted, lone)
                == Seq::<Seq<char>>::empty());
            assert(segs.last() == dot());
            assert(out =~= seq![dot()]);
            assert(joined == dot());
            assert(r == dot());
            assert(!is_exact_separator(d, r));
        } else if segs == seq![Seq::<char>::empty()] {
            lemma_split_singleton_inverse(d, trimmed);
            assert(trimmed.len() == 0);
            assert(s.len() > 0);
            lemma_trim_empty_all_seps(d, s);
            assert(is_sep_char(d, s[0]));
            assert(rooted);
            assert(segs.drop_last() =~= Seq::<Seq<char>>::empty());
            assert(reduce_segments(Seq::<Seq<char>>::empty(), rooted, lone)
                == Seq::<Seq<char>>::empty());
            assert(segs.last().len() == 0);
            assert(out =~= Seq::<Seq<char>>::empty());
            assert(joined =~= Seq::<char>::empty());
            assert(full =~= seq![csep]);
            assert(r == full);
            assert(is_exact_separator(d, r));
        } else {
            assert(lone ==> segs =~= seq![segs[0]]);
            lemma_reduce_good(d, segs, rooted, lone);
            if out.len() == 0 {
                if rooted {
                    assert(joined =~= Seq::<char>::empty());
                    assert(full =~= seq![csep]);
                    assert(r == full);
                    assert(is_exact_separator(d, r));
                } else {
                    assert(full.len() == 0);
                    assert(r == dot());
                    assert(!is_exact_separator(d, r));
                }
            } else if !rooted && out == seq![dotdot()] {
                assert(joined == dotdot());
                assert(r == dotdot());
                assert(!is_exact_separator(d, r));
                assert(r != dot());
            } else {
                assert(forall|i: int|
                    0 <= i < out.len() ==> (#[trigger] out[i]).len() >= 1);
                lemma_join_props(csep, out);
                assert(full.len() > 0);
                assert(r == full);
                if rooted {
                    assert(full[0] == csep);
                    assert(full.len() >= 2);
                    assert(is_rooted(d, full));
                    assert(!is_exact_separator(d, full));
                    assert(full != dot());
                    assert(full != dotdot());
                } else {
                    assert(full[0] == out[0][0]);
                    assert(out[0] == dotdot() || is_normal_seg(d, out[0]));
                    assert(!is_sep_char(d, full[0]));
                    assert(!is_rooted(d, full));
                    assert(!is_exact_separator(d, full));
                    if out.len() == 1 {
                        assert(full == out[0]);
                        assert(out[0] != dot());
                        assert(out =~= seq![out[0]]);
                        assert(full != dotdot());
                    } else {
                        assert(full.len() >= 3);
                        assert(full != dot());
                        assert(full != dotdot());
                    }
                }
                assert(spec_special_path(d, full) is None);
                assert(is_rooted(d, full) == rooted);
                assert(out.last() == out[out.len() - 1]);
                assert(out.last() == dotdot() || is_normal_seg(d, out.last()));
                assert(!is_sep_char(d, out.last().last()));
                if rooted {
                    assert(full.last() == joined.last());
                }
                assert(full.last() == out.last().last());
                lemma_trim_noop(d, full);
                let segs2 = split_segments(d, full);
                assert(sep_free(d, dotdot()));
                assert(forall|i: int| 0 <= i < out.len() ==> sep_free(d, #[trigger] out[i]));
                if rooted {
                    lemma_join_cons_empty(csep, out);
                    let eout = seq![Seq::<char>::empty()] + out;
                    assert(full =~= join_segments(csep, eout));
                    assert(all_sep_free(d, eout));
                    lemma_split_of_join(d, csep, eout);
                    assert(segs2 == eout);
                    assert(segs2.len() >= 2);
                    lemma_reduce_rooted_fixed(d, out, segs2.len() == 1);
                    assert(reduce_segments(segs2, true, segs2.len() == 1) == out);
                } else {
                    assert(all_sep_free(d, out));
                    lemma_split_of_join(d, csep, out);
                    assert(segs2 == out);
                    lemma_reduce_fixed(d, out, false, segs2.len() == 1);
                    assert(reduce_segments(segs2, false, segs2.len() == 1) == out);
                }
                assert(spec_clean(d, full) == full);
            }
        }
    }
}

} // verus!
