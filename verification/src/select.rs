//! The selection-expression resolver: a `/`-delimited sequence of segments,
//! each moving the current position, addressing ideas from user text.
//!
//! Segments, in priority order: `@` is the root; `^` the parent (or the
//! root when already there); `#` followed by an integer an absolute id,
//! taken on trust until the next lookup; a number a 1-based index into the
//! visible children; `-` followed by a number the same counted from the
//! end; anything else a name hint that must match exactly one child's name
//! as a substring, hidden children included.

use crate::error::Error;
use crate::idea::IdeaData;
use crate::model::{hint_matches, node, valid_id, visible_children_of, wf, ROOT_ID};
use crate::strutil::{all_digits, digits_val, is_digit_char, parse_decimal, str_eq};
use crate::tree::IdeaTree;
use vstd::prelude::*;
use vstd::string::StrSliceExecFns;

verus! {

/// What an absolute-id segment body (the text after `#`) denotes.
pub open spec fn abs_id_spec(rest: Seq<char>) -> Result<i64, Error> {
    if rest.len() > 0 && rest[0] == '-' {
        if all_digits(rest.drop_first()) && digits_val(rest.drop_first()) <= i64::MAX {
            Ok((0 - digits_val(rest.drop_first())) as i64)
        } else {
            Err(Error::ParseError)
        }
    } else if rest.len() > 0 && rest[0] == '+' {
        if all_digits(rest.drop_first()) && digits_val(rest.drop_first()) <= i64::MAX {
            Ok(digits_val(rest.drop_first()) as i64)
        } else {
            Err(Error::ParseError)
        }
    } else {
        if all_digits(rest) && digits_val(rest) <= i64::MAX {
            Ok(digits_val(rest) as i64)
        } else {
            Err(Error::ParseError)
        }
    }
}

/// The visible child picked by a 1-based index, from the front or from the
/// end; 0 and indices past the count are out of range.
pub open spec fn index_spec(s: Seq<IdeaData>, cur: i64, v: int, from_end: bool) -> Result<
    i64,
    Error,
> {
    let vis = visible_children_of(s, cur);
    if 1 <= v <= vis.len() {
        if from_end {
            Ok(vis[vis.len() - v])
        } else {
            Ok(vis[v - 1])
        }
    } else {
        Err(Error::OutOfRange)
    }
}

/// What one segment resolves to from the current position `cur`.
pub open spec fn resolve_segment_spec(s: Seq<IdeaData>, cur: i64, seg: Seq<char>) -> Result<
    i64,
    Error,
> {
    if seg == "@"@ {
        Ok(ROOT_ID)
    } else if seg == "^"@ {
        if !valid_id(s, cur) {
            Err(Error::NotFound)
        } else {
            match node(s, cur).parent_id {
                Some(p) => Ok(p),
                None => Ok(ROOT_ID),
            }
        }
    } else if seg.len() > 0 && seg[0] == '#' {
        abs_id_spec(seg.drop_first())
    } else if seg.len() > 0 && is_digit_char(seg[0]) {
        if !(all_digits(seg) && digits_val(seg) <= i64::MAX) {
            Err(Error::ParseError)
        } else if !valid_id(s, cur) {
            Err(Error::NotFound)
        } else {
            index_spec(s, cur, digits_val(seg), false)
        }
    } else if seg.len() > 0 && seg[0] == '-' {
        if !(all_digits(seg.drop_first()) && digits_val(seg.drop_first()) <= i64::MAX) {
            Err(Error::ParseError)
        } else if !valid_id(s, cur) {
            Err(Error::NotFound)
        } else {
            index_spec(s, cur, digits_val(seg.drop_first()), true)
        }
    } else {
        if !valid_id(s, cur) {
            Err(Error::NotFound)
        } else {
            let m = hint_matches(s, cur, seg);
            if m.len() == 1 {
                Ok(m[0])
            } else if m.len() == 0 {
                Err(Error::NoMatch)
            } else {
                Err(Error::AmbiguousMatch)
            }
        }
    }
}

/// The position of the first `/` in `e`.
pub open spec fn slash_pos(e: Seq<char>) -> int
    decreases e.len(),
{
    if e.len() == 0 {
        0
    } else if e[0] == '/' {
        0
    } else {
        1 + slash_pos(e.drop_first())
    }
}

pub proof fn lemma_slash_pos(e: Seq<char>)
    requires
        e.contains('/'),
    ensures
        0 <= slash_pos(e) < e.len(),
        e[slash_pos(e)] == '/',
        forall|j: int| 0 <= j < slash_pos(e) ==> e[j] != '/',
    decreases e.len(),
{
    if e[0] != '/' {
        assert(e.drop_first().contains('/')) by {
            let w = choose|w: int| 0 <= w < e.len() && e[w] == '/';
            assert(e.drop_first()[w - 1] == '/');
        }
        lemma_slash_pos(e.drop_first());
        assert forall|j: int| 0 <= j < slash_pos(e) implies e[j] != '/' by {
            if j > 0 {
                assert(e.drop_first()[j - 1] == e[j]);
            }
        }
    }
}

/// The segments of an expression, split on `/`, with a trailing empty
/// segment dropped.
pub open spec fn split_segments(e: Seq<char>) -> Seq<Seq<char>>
    decreases e.len(),
    via split_segments_decreases
{
    if e.len() == 0 {
        Seq::empty()
    } else if !e.contains('/') {
        seq![e]
    } else {
        seq![e.take(slash_pos(e))] + split_segments(e.skip(slash_pos(e) + 1))
    }
}

#[via_fn]
proof fn split_segments_decreases(e: Seq<char>) {
    if e.len() > 0 && e.contains('/') {
        lemma_slash_pos(e);
    }
}

/// The result of resolving each segment in turn from `cur`: the final
/// position, or the first segment's failure.
pub open spec fn resolve_segments_spec(s: Seq<IdeaData>, cur: i64, segs: Seq<Seq<char>>) -> Result<
    i64,
    Error,
>
    decreases segs.len(),
{
    if segs.len() == 0 {
        Ok(cur)
    } else {
        match resolve_segment_spec(s, cur, segs[0]) {
            Ok(next) => resolve_segments_spec(s, next, segs.drop_first()),
            Err(e) => Err(e),
        }
    }
}

/// What a whole selection expression denotes from the current position.
pub open spec fn select_spec(s: Seq<IdeaData>, cur: i64, e: Seq<char>) -> Result<i64, Error> {
    resolve_segments_spec(s, cur, split_segments(e))
}

/// Resolves one segment of a selection expression.
fn resolve_segment(tree: &IdeaTree, cur: i64, seg: &str) -> (r: Result<i64, Error>)
    requires
        wf(tree@),
    ensures
        r == resolve_segment_spec(tree@, cur, seg@),
{
    if str_eq(seg, "@") {
        return Ok(ROOT_ID);
    }
    if str_eq(seg, "^") {
        return match tree.get_parent_id(cur) {
            Ok(Some(p)) => Ok(p),
            Ok(None) => Ok(ROOT_ID),
            Err(e) => Err(e),
        };
    }
    let len = seg.unicode_len();
    if len > 0 {
        let c0 = seg.get_char(0);
        if c0 == '#' {
            // An absolute id, optionally signed.
            if len >= 2 {
                let c1 = seg.get_char(1);
                if c1 == '-' || c1 == '+' {
                    proof {
                        assert(seg@.drop_first().drop_first() =~= seg@.skip(2));
                    }
                    return match parse_decimal(seg, 2) {
                        Ok(v) => {
                            if c1 == '-' {
                                Ok(-v)
                            } else {
                                Ok(v)
                            }
                        },
                        Err(e) => Err(e),
                    };
                }
            }
            proof {
                assert(seg@.drop_first() =~= seg@.skip(1));
            }
            return match parse_decimal(seg, 1) {
                Ok(v) => Ok(v),
                Err(e) => Err(e),
            };
        }
        let c0v = c0 as u32;
        if 48 <= c0v && c0v <= 57 {
            proof {
                assert(seg@.skip(0) =~= seg@);
            }
            let v = match parse_decimal(seg, 0) {
                Ok(v) => v,
                Err(e) => {
                    return Err(e);
                },
            };
            let vis = match tree.get_child_ids(cur, false) {
                Ok(ids) => ids,
                Err(e) => {
                    return Err(e);
                },
            };
            if v < 1 || (v as u64) > (vis.len() as u64) {
                return Err(Error::OutOfRange);
            }
            return Ok(vis[(v - 1) as usize]);
        }
        if c0 == '-' {
            proof {
                assert(seg@.drop_first() =~= seg@.skip(1));
            }
            let v = match parse_decimal(seg, 1) {
                Ok(v) => v,
                Err(e) => {
                    return Err(e);
                },
            };
            let vis = match tree.get_child_ids(cur, false) {
                Ok(ids) => ids,
                Err(e) => {
                    return Err(e);
                },
            };
            if v < 1 || (v as u64) > (vis.len() as u64) {
                return Err(Error::OutOfRange);
            }
            let pick = vis.len() - v as usize;
            return Ok(vis[pick]);
        }
    }
    // A name hint: the segment must match exactly one child name.
    match tree.get_child_by_name_hint(cur, seg.to_owned()) {
        Ok(idea) => {
            proof {
                let s = tree@;
                let m = hint_matches(s, cur, seg@);
                crate::model::lemma_filter_element_from(
                    node(s, cur).child_ids,
                    |c: i64| crate::strutil::contains_seq(node(s, c).name, seg@),
                    0,
                );
                let k = choose|k: int|
                    0 <= k < node(s, cur).child_ids.len() && node(s, cur).child_ids[k] == m[0];
                assert(1 <= m[0] <= s.len());
                assert(node(s, m[0]).id == m[0]);
            }
            Ok(idea.id)
        },
        Err(e) => Err(e),
    }
}

/// Resolves a whole selection expression from the current position: each
/// `/`-separated segment is resolved in turn, and the first failure ends
/// the walk with no partial result.
pub fn select_from_expression(tree: &IdeaTree, selected_id: i64, expression: &str) -> (r: Result<
    i64,
    Error,
>)
    requires
        wf(tree@),
    ensures
        r == select_spec(tree@, selected_id, expression@),
{
    let ghost s = tree@;
    let len = expression.unicode_len();
    let mut cur = selected_id;
    let mut pos: usize = 0;
    proof {
        assert(expression@.skip(0) =~= expression@);
    }
    loop
        invariant
            wf(s),
            s == tree@,
            0 <= pos <= len,
            len == expression@.len(),
            select_spec(s, selected_id, expression@) == resolve_segments_spec(
                s,
                cur,
                split_segments(expression@.skip(pos as int)),
            ),
        decreases len - pos,
    {
        if pos >= len {
            proof {
                assert(expression@.skip(pos as int) =~= Seq::<char>::empty());
            }
            return Ok(cur);
        }
        // Find the end of the current segment.
        let mut j: usize = pos;
        while j < len && expression.get_char(j) != '/'
            invariant
                pos <= j <= len,
                len == expression@.len(),
                forall|k: int| pos <= k < j ==> expression@[k] != '/',
            decreases len - j,
        {
            j = j + 1;
        }
        let seg = expression.substring_char(pos, j);
        let ghost rest = expression@.skip(pos as int);
        proof {
            assert(rest.len() > 0);
            if j < len {
                assert(rest[j - pos] == '/');
                assert(rest.contains('/'));
                lemma_slash_pos(rest);
                assert(slash_pos(rest) == j - pos) by {
                    if slash_pos(rest) < j - pos {
                        assert(expression@[slash_pos(rest) + pos] == '/');
                    }
                    if slash_pos(rest) > j - pos {
                        assert(rest[j - pos] != '/');
                    }
                }
                assert(rest.take(j - pos) =~= expression@.subrange(pos as int, j as int));
                assert(rest.skip(j - pos + 1) =~= expression@.skip(j + 1));
                assert(split_segments(rest) == seq![seg@] + split_segments(
                    expression@.skip(j + 1),
                ));
            } else {
                assert(!rest.contains('/')) by {
                    if rest.contains('/') {
                        let w = choose|w: int| 0 <= w < rest.len() && rest[w] == '/';
                        assert(expression@[w + pos] == '/');
                    }
                }
                assert(rest.take(j - pos) =~= rest);
                assert(seg@ == rest);
                assert(split_segments(rest) == seq![seg@]);
            }
            assert((seq![seg@] + split_segments(
                if j < len {
                    expression@.skip(j + 1)
                } else {
                    Seq::empty()
                },
            )).drop_first() =~= split_segments(
                if j < len {
                    expression@.skip(j + 1)
                } else {
                    Seq::empty()
                },
            ));
        }
        let next = match resolve_segment(tree, cur, seg) {
            Ok(next) => next,
            Err(e) => {
                return Err(e);
            },
        };
        if j >= len {
            proof {
                let segs = seq![seg@];
                assert(segs[0] == seg@);
                assert(segs.drop_first() =~= Seq::<Seq<char>>::empty());
                assert(resolve_segments_spec(s, next, segs.drop_first()) == Ok::<i64, Error>(next));
                assert(resolve_segments_spec(s, cur, segs) == Ok::<i64, Error>(next));
            }
            return Ok(next);
        }
        cur = next;
        pos = j + 1;
        proof {
            assert(expression@.skip(pos as int) == expression@.skip(j + 1));
        }
    }
}

/// Stepping to the parent with `^` and back down with `1` returns to the
/// start, whenever the start is the first visible child of its parent.
pub proof fn lemma_select_round_trip(s: Seq<IdeaData>, x: i64)
    requires
        wf(s),
        valid_id(s, x),
        node(s, x).parent_id is Some,
        visible_children_of(s, node(s, x).parent_id->0).len() > 0,
        visible_children_of(s, node(s, x).parent_id->0)[0] == x,
    ensures
        resolve_segment_spec(s, x, "^"@) == Ok::<i64, Error>(node(s, x).parent_id->0),
        resolve_segment_spec(s, node(s, x).parent_id->0, "1"@) == Ok::<i64, Error>(x),
        select_spec(s, x, "^"@) == Ok::<i64, Error>(node(s, x).parent_id->0),
        select_spec(s, node(s, x).parent_id->0, "1"@) == Ok::<i64, Error>(x),
{
    let p = node(s, x).parent_id->0;
    reveal_strlit("^");
    reveal_strlit("@");
    reveal_strlit("1");
    reveal_strlit("#");
    lemma_single_segment(s, x, "^"@);
    lemma_single_segment(s, p, "1"@);
    assert("^"@ != "@"@) by {
        assert("^"@[0] != "@"@[0]);
    }
    assert("1"@ != "@"@) by {
        assert("1"@[0] != "@"@[0]);
    }
    assert("1"@ != "^"@) by {
        assert("1"@[0] != "^"@[0]);
    }
    assert(is_digit_char("1"@[0]));
    assert(all_digits("1"@));
    assert(digits_val("1"@) == 1) by {
        assert("1"@.drop_last() =~= Seq::<char>::empty());
        assert(digits_val(Seq::<char>::empty()) == 0);
    }
    assert(1 <= p <= s.len());
    assert(index_spec(s, p, 1, false) == Ok::<i64, Error>(x));
}

/// An expression without a separator is one segment: the whole expression
/// resolves exactly as that segment does.
pub proof fn lemma_single_segment(s: Seq<IdeaData>, cur: i64, e: Seq<char>)
    requires
        e.len() > 0,
        !e.contains('/'),
    ensures
        select_spec(s, cur, e) == (match resolve_segment_spec(s, cur, e) {
            Ok(next) => Ok::<i64, Error>(next),
            Err(err) => Err::<i64, Error>(err),
        }),
{
    let segs = split_segments(e);
    assert(segs == seq![e]);
    assert(segs[0] == e);
    assert(segs.drop_first() =~= Seq::<Seq<char>>::empty());
    if resolve_segment_spec(s, cur, e) is Ok {
        let next = resolve_segment_spec(s, cur, e)->Ok_0;
        assert(resolve_segments_spec(s, next, segs.drop_first()) == Ok::<i64, Error>(next));
    }
}

/// Numeric selection is 1-based over the visible children: index 0 and
/// every index past their count fail with `OutOfRange`.
pub proof fn lemma_select_index_bounds(s: Seq<IdeaData>, x: i64, seg: Seq<char>)
    requires
        wf(s),
        valid_id(s, x),
        all_digits(seg),
        digits_val(seg) <= i64::MAX,
        digits_val(seg) == 0 || digits_val(seg) > visible_children_of(s, x).len(),
    ensures
        resolve_segment_spec(s, x, seg) == Err::<i64, Error>(Error::OutOfRange),
        select_spec(s, x, seg) == Err::<i64, Error>(Error::OutOfRange),
{
    assert(!seg.contains('/')) by {
        if seg.contains('/') {
            let w = choose|w: int| 0 <= w < seg.len() && seg[w] == '/';
            assert(is_digit_char(seg[w]));
        }
    }
    lemma_single_segment(s, x, seg);
    reveal_strlit("@");
    reveal_strlit("^");
    assert(seg != "@"@) by {
        if seg == "@"@ {
            assert(is_digit_char(seg[0]));
        }
    }
    assert(seg != "^"@) by {
        if seg == "^"@ {
            assert(is_digit_char(seg[0]));
        }
    }
    assert(seg[0] != '#') by {
        assert(is_digit_char(seg[0]));
    }
}

} // verus!

