//! The resolution engine: turns a relative path expression into an absolute
//! path, against the path of the currently open nesting context.
//!
//! Three strategies are tried, in priority order: a single-segment keyword
//! path (text starting with `@`) is returned unchanged; a path whose first
//! segment ends with `./` climbs the context by its leading `../` and `./`
//! markers; every other path is matched against `base` by the longest,
//! rightmost-anchored overlap between a suffix of `base` and a prefix of
//! `rel`, falling back to `rel` itself when no overlap exists.

use vstd::prelude::*;
use crate::segment::Path;
use crate::segment::PathBuf;
use crate::segment::PathPart;
use crate::segment::texts_of;
use crate::text::ends_relative_marker;
use crate::text::ends_with_relative_marker;
use crate::text::starts_keyword_marker;
use crate::text::starts_with_keyword_marker;
use crate::text::str_eq;

verus! {

/// The text of the "go up one level" marker segment.
pub open spec fn up_marker() -> Seq<char> {
    seq!['.', '.', '/']
}

/// The text of the "stay at this level" marker segment.
pub open spec fn stay_marker() -> Seq<char> {
    seq!['.', '/']
}

/// A relative path that resolution must leave untouched: a single segment
/// whose text starts with the keyword marker `@`.
pub open spec fn is_special<'a>(rel: Seq<PathPart<'a>>) -> bool {
    rel.len() == 1 && starts_keyword_marker(rel[0].text())
}

/// A relative path handled by explicit marker climbing: its first segment's
/// text ends with `./`.
pub open spec fn is_explicit<'a>(rel: Seq<PathPart<'a>>) -> bool {
    ends_relative_marker(rel[0].text())
}

/// Consumes leading `../` and `./` marker texts of `rel` from position `i`
/// on, lowering the context cursor `base_end` by one for each `../` (never
/// below zero), and returns the final `(base_end, rel_start)` cursor pair.
pub open spec fn climb(rel: Seq<Seq<char>>, i: int, base_end: int) -> (int, int)
    decreases rel.len() - i,
    when 0 <= i <= rel.len()
{
    if i < rel.len() && rel[i] == up_marker() {
        climb(rel, i + 1, if base_end > 0 { base_end - 1 } else { 0 })
    } else if i < rel.len() && rel[i] == stay_marker() {
        climb(rel, i + 1, base_end)
    } else {
        (base_end, i)
    }
}

/// The first `l` texts of `rel` appear in `base` at offset `j`.
pub open spec fn match_at(base: Seq<Seq<char>>, rel: Seq<Seq<char>>, l: int, j: int) -> bool {
    &&& 1 <= l <= rel.len()
    &&& 0 <= j
    &&& j + l <= base.len()
    &&& forall|i: int| 0 <= i < l ==> base[j + i] == rel[i]
}

/// The largest offset `j' <= j` at which the first `l` texts of `rel`
/// appear in `base`, if any.
pub open spec fn rightmost_match(
    base: Seq<Seq<char>>,
    rel: Seq<Seq<char>>,
    l: int,
    j: int,
) -> Option<int>
    decreases j + 1,
    when j >= -1
{
    if j < 0 {
        None
    } else if match_at(base, rel, l, j) {
        Some(j)
    } else {
        rightmost_match(base, rel, l, j - 1)
    }
}

/// The chosen match for the suffix search: the longest length `l' <= l` at
/// which a prefix of `rel` appears in `base`, paired with the rightmost
/// offset for that length.
pub open spec fn best_match(
    base: Seq<Seq<char>>,
    rel: Seq<Seq<char>>,
    l: int,
) -> Option<(int, int)>
    decreases l,
    when l >= 0
{
    if l <= 0 {
        None
    } else if base.len() < l {
        best_match(base, rel, l - 1)
    } else {
        match rightmost_match(base, rel, l, base.len() - l) {
            Some(j) => Some((l, j)),
            None => best_match(base, rel, l - 1),
        }
    }
}

/// The resolution of `rel` against `base`: the absolute path that
/// `resolve` returns.
pub open spec fn spec_resolve<'a>(base: Seq<PathPart<'a>>, rel: Seq<PathPart<'a>>) -> Seq<
    PathPart<'a>,
> {
    if is_special(rel) {
        rel
    } else if is_explicit(rel) {
        let cursors = climb(texts_of(rel), 1, base.len() as int);
        base.take(cursors.0) + rel.skip(cursors.1)
    } else {
        match best_match(texts_of(base), texts_of(rel), rel.len() as int) {
            Some(m) => base.take(m.1 + m.0) + rel.skip(m.0),
            None => rel,
        }
    }
}

/// The first `base_end` segments of `base` followed by the segments of
/// `rel` from `rel_start` on.
fn concat_parts<'a>(
    base: &[PathPart<'a>],
    base_end: usize,
    rel: &Vec<PathPart<'a>>,
    rel_start: usize,
) -> (out: Vec<PathPart<'a>>)
    requires
        base_end <= base@.len(),
        rel_start <= rel@.len(),
    ensures
        out@ == base@.take(base_end as int) + rel@.skip(rel_start as int),
{
    let mut out: Vec<PathPart<'a>> = Vec::new();
    let mut k: usize = 0;
    while k < base_end
        invariant
            k <= base_end,
            base_end <= base@.len(),
            out@ == base@.take(k as int),
        decreases base_end - k,
    {
        out.push(*vstd::slice::slice_index_get(base, k));
        proof {
            assert(out@ =~= base@.take(k as int + 1));
        }
        k += 1;
    }
    let mut m: usize = rel_start;
    while m < rel.len()
        invariant
            rel_start <= m <= rel@.len(),
            base_end <= base@.len(),
            out@ == base@.take(base_end as int) + rel@.subrange(rel_start as int, m as int),
        decreases rel@.len() - m,
    {
        out.push(rel[m]);
        proof {
            assert(out@ =~= base@.take(base_end as int) + rel@.subrange(
                rel_start as int,
                m as int + 1,
            ));
        }
        m += 1;
    }
    proof {
        assert(rel@.subrange(rel_start as int, rel@.len() as int) =~= rel@.skip(rel_start as int));
    }
    out
}

/// Whether the first `l` segment texts of `rel` appear in `base` at
/// offset `j`.
fn check_match<'a>(base: &[PathPart<'a>], rel: &Vec<PathPart<'a>>, l: usize, j: usize) -> (r: bool)
    requires
        1 <= l <= rel@.len(),
        j + l <= base@.len(),
    ensures
        r == match_at(texts_of(base@), texts_of(rel@), l as int, j as int),
{
    let ghost bt = texts_of(base@);
    let ghost rt = texts_of(rel@);
    proof {
        vstd::slice::axiom_spec_len(base);
    }
    let mut i: usize = 0;
    while i < l
        invariant
            i <= l,
            1 <= l <= rel@.len(),
            j + l <= base@.len(),
            base@.len() <= usize::MAX,
            bt == texts_of(base@),
            rt == texts_of(rel@),
            forall|k: int| 0 <= k < i ==> bt[j + k] == rt[k],
        decreases l - i,
    {
        let b_part = vstd::slice::slice_index_get(base, j + i).inner();
        let r_part = rel[i].inner();
        if !str_eq(b_part, r_part) {
            proof {
                assert(bt[j + i] != rt[i as int]);
            }
            return false;
        }
        proof {
            assert(bt[j + i] == rt[i as int]);
        }
        i += 1;
    }
    true
}

/// The rightmost offset in `base` at which the first `l` segment texts of
/// `rel` appear, scanning from the latest valid offset down to zero.
fn rightmost_anchor<'a>(base: &[PathPart<'a>], rel: &Vec<PathPart<'a>>, l: usize) -> (r: Option<
    usize,
>)
    requires
        1 <= l <= rel@.len(),
        l <= base@.len(),
    ensures
        ({
            let rm = rightmost_match(texts_of(base@), texts_of(rel@), l as int, base@.len() - l);
            match r {
                Some(j) => j + l <= base@.len() && rm == Some(j as int),
                None => rm is None,
            }
        }),
{
    let ghost bt = texts_of(base@);
    let ghost rt = texts_of(rel@);
    let mut j: usize = base.len() - l;
    loop
        invariant
            1 <= l <= rel@.len(),
            l <= base@.len(),
            j + l <= base@.len(),
            bt == texts_of(base@),
            rt == texts_of(rel@),
            rightmost_match(bt, rt, l as int, base@.len() - l) == rightmost_match(
                bt,
                rt,
                l as int,
                j as int,
            ),
        decreases j,
    {
        if check_match(base, rel, l, j) {
            proof {
                assert(rightmost_match(bt, rt, l as int, j as int) == Some(j as int));
            }
            return Some(j);
        }
        if j == 0 {
            proof {
                assert(rightmost_match(bt, rt, l as int, 0) == rightmost_match(
                    bt,
                    rt,
                    l as int,
                    -1,
                ));
                assert(rightmost_match(bt, rt, l as int, -1) is None);
            }
            return None;
        }
        proof {
            assert(rightmost_match(bt, rt, l as int, j as int) == rightmost_match(
                bt,
                rt,
                l as int,
                j as int - 1,
            ));
        }
        j -= 1;
    }
}

/// The chosen match of the longest-suffix search: the longest prefix of
/// `rel` that appears in `base`, anchored as late as possible, as a
/// `(length, offset)` pair.
fn find_anchor<'a>(base: &[PathPart<'a>], rel: &Vec<PathPart<'a>>) -> (r: Option<(usize, usize)>)
    requires
        rel@.len() >= 1,
    ensures
        ({
            let bm = best_match(texts_of(base@), texts_of(rel@), rel@.len() as int);
            match r {
                Some(lj) => {
                    &&& 1 <= lj.0 <= rel@.len()
                    &&& lj.1 + lj.0 <= base@.len()
                    &&& bm == Some((lj.0 as int, lj.1 as int))
                },
                None => bm is None,
            }
        }),
{
    let ghost bt = texts_of(base@);
    let ghost rt = texts_of(rel@);
    let mut l: usize = rel.len();
    loop
        invariant
            1 <= l <= rel@.len(),
            bt == texts_of(base@),
            rt == texts_of(rel@),
            best_match(bt, rt, rel@.len() as int) == best_match(bt, rt, l as int),
        decreases l,
    {
        let base_len = base.len();
        if l <= base_len {
            let found = rightmost_anchor(base, rel, l);
            if let Some(j) = found {
                proof {
                    assert(best_match(bt, rt, l as int) == Some((l as int, j as int)));
                }
                return Some((l, j));
            }
        }
        proof {
            assert(best_match(bt, rt, l as int) == best_match(bt, rt, l as int - 1));
        }
        if l == 1 {
            proof {
                assert(best_match(bt, rt, 0) is None);
            }
            return None;
        }
        l -= 1;
    }
}

/// Resolves the relative path expression `rel` against the context path
/// `base`, returning the absolute path that `spec_resolve` describes.
///
/// Neither input is mutated; the result is a fresh owned path whose
/// segments are taken from `base` and `rel`, depth tags included.
pub fn resolve<'a, 'b>(base: Path<'a, 'b>, rel: PathBuf<'a>) -> (out: PathBuf<'a>)
    requires
        rel@.len() > 0,
    ensures
        out@ == spec_resolve(base@, rel@),
{
    // keyword paths resolve to themselves
    if rel.len() == 1 && starts_with_keyword_marker(rel[0].inner()) {
        return rel;
    }
    // explicitly relative paths climb the context by their leading markers
    if ends_with_relative_marker(rel[0].inner()) {
        let ghost rt = texts_of(rel@);
        let mut base_end: usize = base.len();
        let mut rel_start: usize = 1;
        loop
            invariant
                1 <= rel_start <= rel@.len(),
                base_end <= base@.len(),
                rt == texts_of(rel@),
                climb(rt, 1, base@.len() as int) == climb(rt, rel_start as int, base_end as int),
            ensures
                base_end <= base@.len(),
                rel_start <= rel@.len(),
                climb(rt, 1, base@.len() as int) == (base_end as int, rel_start as int),
            decreases rel@.len() - rel_start,
        {
            if rel_start >= rel.len() {
                break;
            }
            let t = rel[rel_start].inner();
            proof {
                reveal_strlit("../");
                reveal_strlit("./");
                assert("../"@ =~= up_marker());
                assert("./"@ =~= stay_marker());
                assert(rt[rel_start as int] == rel@[rel_start as int].text());
                assert(t@ == rt[rel_start as int]);
            }
            if str_eq(t, "../") {
                proof {
                    assert(climb(rt, rel_start as int, base_end as int) == climb(
                        rt,
                        rel_start as int + 1,
                        if base_end > 0 {
                            base_end as int - 1
                        } else {
                            0
                        },
                    ));
                }
                if base_end > 0 {
                    base_end -= 1;
                }
                rel_start += 1;
            } else if str_eq(t, "./") {
                proof {
                    assert(rt[rel_start as int] != up_marker());
                    assert(climb(rt, rel_start as int, base_end as int) == climb(
                        rt,
                        rel_start as int + 1,
                        base_end as int,
                    ));
                }
                rel_start += 1;
            } else {
                proof {
                    assert(rt[rel_start as int] != up_marker());
                    assert(rt[rel_start as int] != stay_marker());
                    assert(climb(rt, rel_start as int, base_end as int) == (
                        base_end as int,
                        rel_start as int,
                    ));
                }
                break;
            }
        }
        return concat_parts(base, base_end, &rel, rel_start);
    }
    // otherwise search for the longest, rightmost-anchored overlap between
    // a suffix of the context and a prefix of the reference
    let found = find_anchor(base, &rel);
    match found {
        Some((l, j)) => {
            proof {
                vstd::slice::axiom_spec_len(base);
            }
            concat_parts(base, j + l, &rel, l)
        },
        // no overlap: the reference is taken as a self-contained absolute path
        None => rel,
    }
}

/// A single-segment keyword path (text starting with `@`) resolves to
/// itself, whatever the context path is, including an empty one.
pub proof fn lemma_special_path_resolves_to_itself<'a>(
    base: Seq<PathPart<'a>>,
    rel: Seq<PathPart<'a>>,
)
    requires
        rel.len() == 1,
        starts_keyword_marker(rel[0].text()),
    ensures
        spec_resolve(base, rel) == rel,
{
}

/// The cursors that marker climbing returns stay in range: the context
/// cursor never grows and never drops below zero, and the relative cursor
/// moves forward but never past the end.
pub proof fn lemma_climb_bounds(rel: Seq<Seq<char>>, i: int, base_end: int)
    requires
        0 <= i <= rel.len(),
        0 <= base_end,
    ensures
        ({
            let c = climb(rel, i, base_end);
            0 <= c.0 <= base_end && i <= c.1 <= rel.len()
        }),
    decreases rel.len() - i,
{
    if i < rel.len() && rel[i] == up_marker() {
        lemma_climb_bounds(
            rel,
            i + 1,
            if base_end > 0 {
                base_end - 1
            } else {
                0
            },
        );
    } else if i < rel.len() && rel[i] == stay_marker() {
        lemma_climb_bounds(rel, i + 1, base_end);
    }
}

/// What the rightmost scan returns: a found offset is a genuine match, no
/// offset above it (up to the scan start) matches, and a `None` answer
/// means no offset up to the scan start matches.
pub proof fn lemma_rightmost_match_characterizes(
    base: Seq<Seq<char>>,
    rel: Seq<Seq<char>>,
    l: int,
    j: int,
)
    requires
        j >= -1,
    ensures
        rightmost_match(base, rel, l, j) matches Some(j2) ==> 0 <= j2 <= j && match_at(
            base,
            rel,
            l,
            j2,
        ) && (forall|j3: int| j2 < j3 <= j ==> !match_at(base, rel, l, j3)),
        rightmost_match(base, rel, l, j) is None ==> forall|j3: int|
            0 <= j3 <= j ==> !match_at(base, rel, l, j3),
    decreases j + 1,
{
    if j >= 0 && !match_at(base, rel, l, j) {
        lemma_rightmost_match_characterizes(base, rel, l, j - 1);
    }
}

/// What the suffix search returns: a found `(length, offset)` pair is a
/// genuine match, no longer prefix of `rel` matches anywhere in `base`,
/// and no offset further right matches at the found length; a `None`
/// answer means no prefix of `rel` up to the searched length appears
/// anywhere in `base`.
pub proof fn lemma_best_match_characterizes(base: Seq<Seq<char>>, rel: Seq<Seq<char>>, l: int)
    requires
        l >= 0,
    ensures
        best_match(base, rel, l) matches Some(m) ==> {
            &&& 1 <= m.0 <= l
            &&& match_at(base, rel, m.0, m.1)
            &&& forall|l2: int, j2: int| m.0 < l2 <= l ==> !match_at(base, rel, l2, j2)
            &&& forall|j2: int| j2 > m.1 ==> !match_at(base, rel, m.0, j2)
        },
        best_match(base, rel, l) is None ==> forall|l2: int, j2: int|
            0 < l2 <= l ==> !match_at(base, rel, l2, j2),
    decreases l,
{
    if l > 0 {
        lemma_best_match_characterizes(base, rel, l - 1);
        if base.len() < l {
            assert forall|j2: int| match_at(base, rel, l, j2) implies false by {}
        } else {
            lemma_rightmost_match_characterizes(base, rel, l, base.len() - l);
            if rightmost_match(base, rel, l, base.len() - l) is None {
                assert forall|j2: int| match_at(base, rel, l, j2) implies false by {
                    assert(j2 <= base.len() - l);
                }
            }
        }
    }
}

/// Depth tags never affect resolution: two base/relative pairs whose
/// segment texts agree position by position resolve to paths whose
/// segment texts agree position by position, whatever depth tags any of
/// the segments carry.
pub proof fn lemma_depth_tags_never_affect_resolution<'a, 'c>(
    base1: Seq<PathPart<'a>>,
    rel1: Seq<PathPart<'a>>,
    base2: Seq<PathPart<'c>>,
    rel2: Seq<PathPart<'c>>,
)
    requires
        texts_of(base1) == texts_of(base2),
        texts_of(rel1) == texts_of(rel2),
        rel1.len() > 0,
    ensures
        texts_of(spec_resolve(base1, rel1)) == texts_of(spec_resolve(base2, rel2)),
{
    let bt = texts_of(base1);
    let rt = texts_of(rel1);
    assert(base1.len() == bt.len() && base2.len() == bt.len());
    assert(rel1.len() == rt.len() && rel2.len() == rt.len());
    assert(rel1[0].text() == rt[0] && rel2[0].text() == rt[0]);
    if is_special(rel1) {
    } else if is_explicit(rel1) {
        let c = climb(rt, 1, base1.len() as int);
        lemma_climb_bounds(rt, 1, base1.len() as int);
        crate::segment::lemma_texts_of_take(base1, c.0);
        crate::segment::lemma_texts_of_take(base2, c.0);
        crate::segment::lemma_texts_of_skip(rel1, c.1);
        crate::segment::lemma_texts_of_skip(rel2, c.1);
        crate::segment::lemma_texts_of_concat(base1.take(c.0), rel1.skip(c.1));
        crate::segment::lemma_texts_of_concat(base2.take(c.0), rel2.skip(c.1));
    } else {
        lemma_best_match_characterizes(bt, rt, rel1.len() as int);
        match best_match(bt, rt, rel1.len() as int) {
            Some(m) => {
                crate::segment::lemma_texts_of_take(base1, m.1 + m.0);
                crate::segment::lemma_texts_of_take(base2, m.1 + m.0);
                crate::segment::lemma_texts_of_skip(rel1, m.0);
                crate::segment::lemma_texts_of_skip(rel2, m.0);
                crate::segment::lemma_texts_of_concat(base1.take(m.1 + m.0), rel1.skip(m.0));
                crate::segment::lemma_texts_of_concat(base2.take(m.1 + m.0), rel2.skip(m.0));
            },
            None => {},
        }
    }
}

} // verus!
