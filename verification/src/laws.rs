//! Laws of the scanner and the parser, stated and proved against their
//! specifications.

use vstd::prelude::*;

use crate::liquid_docs::{
    empty_doc_block_v, extract_spec, markers, next_marker, parse_doc_spec, parse_from,
    ParsingErrorV, scan_from,
};
use crate::text::{
    dedent_all, dedent_line, example_text, find_any, find_from, is_ws_char, join_lines, kw_doc,
    kw_enddoc, lemma_find_any_bounds, lemma_find_from_bounds, lemma_rskip_ws_bounds,
    lemma_skip_ws_bounds, lemma_skip_ws_nn_bounds, match_any, match_at, nl_seq, open_marker,
    rskip_ws, skip_ws, split_lines, strip_cr, trim,
};
use crate::DocBlockV;

verus! {

// ---------------------------------------------------------------------------
// Re-parsing extracted text
// ---------------------------------------------------------------------------

/// A text that is already trimmed and holds no annotation marker, and does
/// not begin with `@`, parses to itself: it becomes the description, with no
/// parameters and no examples.  Re-parsing the description of a successful
/// parse therefore gives that description back unchanged: extraction does not
/// double-process already-extracted text.
pub proof fn lemma_parse_plain_text(t: Seq<char>)
    requires
        t.len() > 0,
        trim(t) == t,
        t[0] != '@',
        forall|j: int| !match_any(t, j, markers()),
    ensures
        parse_doc_spec(t) == Ok::<DocBlockV, ParsingErrorV>(
            DocBlockV { description: t, param: Seq::empty(), example: Seq::empty() },
        ),
{
    lemma_trimmed_starts_nonws(t);
    assert(skip_ws(t, 0) == 0) by {
        lemma_skip_ws_bounds(t, 0);
        if skip_ws(t, 0) > 0 {
            assert(is_ws_char(t[0]));
        }
    }
    // The first step takes the whole text as the description.
    assert(next_marker(t, 1) == t.len()) by {
        lemma_find_any_bounds(t, 1, markers());
        if find_any(t, 1, markers()) is Some {
            let p = find_any(t, 1, markers())->0;
            assert(match_any(t, p, markers()));
        }
    }
    let db1 = DocBlockV {
        description: trim(t.subrange(0, t.len() as int)),
        ..empty_doc_block_v()
    };
    assert(t.subrange(0, t.len() as int) =~= t);
    assert(parse_from(t, 0, empty_doc_block_v()) == parse_from(t, t.len() as int, db1));
    assert(db1 =~= DocBlockV { description: t, param: Seq::empty(), example: Seq::empty() });
}

/// A trimmed non-empty text starts with a non-whitespace character.
proof fn lemma_trimmed_starts_nonws(t: Seq<char>)
    requires
        t.len() > 0,
        trim(t) == t,
    ensures
        !is_ws_char(t[0]),
        !is_ws_char(t[t.len() - 1]),
{
    lemma_skip_ws_bounds(t, 0);
    lemma_rskip_ws_bounds(t, t.len() as int);
    let a = skip_ws(t, 0);
    let b = rskip_ws(t, t.len() as int);
    if a > b {
        assert(trim(t).len() == 0);
    } else {
        assert(trim(t).len() == b - a);
        assert(a == 0 && b == t.len());
    }
}

/// What makes a text parse back to itself (but for one starting with `@`):
/// it is empty, or trimmed and free of annotation markers.
pub open spec fn reparse_stable(d: Seq<char>) -> bool {
    d.len() == 0 || (trim(d) == d && forall|j: int| !match_any(d, j, markers()))
}

/// Each marker begins with `@` and is non-empty.
proof fn lemma_markers_shape(k: int)
    requires
        0 <= k < markers().len(),
    ensures
        markers()[k].len() >= 1,
        markers()[k][0] == '@',
{
    assert(k == 0 || k == 1 || k == 2);
}

/// A subrange of a marker-free text is marker-free.
proof fn lemma_marker_free_subrange(u: Seq<char>, a: int, e: int)
    requires
        0 <= a <= e <= u.len(),
        forall|j: int| !match_any(u, j, markers()),
    ensures
        forall|j: int| !match_any(u.subrange(a, e), j, markers()),
{
    let sub = u.subrange(a, e);
    assert forall|j: int| !match_any(sub, j, markers()) by {
        if match_any(sub, j, markers()) {
            let k = choose|k: int| 0 <= k < markers().len() && match_at(sub, j, markers()[k]);
            assert(match_at(u, a + j, markers()[k])) by {
                assert forall|q: int|
                    0 <= q < markers()[k].len() implies u[a + j + q] == markers()[k][q] by {
                    assert(sub[j + q] == u[a + j + q]);
                }
            }
            assert(match_any(u, a + j, markers()));
        }
    }
}

/// A region whose head is not `@` and where no marker starts afterwards is
/// marker-free as a text of its own.
proof fn lemma_region_marker_free(s: Seq<char>, a: int, e: int)
    requires
        0 <= a <= e <= s.len(),
        a < s.len() ==> s[a] != '@',
        forall|j: int| a + 1 <= j < e ==> !match_any(s, j, markers()),
    ensures
        forall|j: int| !match_any(s.subrange(a, e), j, markers()),
{
    let sub = s.subrange(a, e);
    assert forall|j: int| !match_any(sub, j, markers()) by {
        if match_any(sub, j, markers()) {
            let k = choose|k: int| 0 <= k < markers().len() && match_at(sub, j, markers()[k]);
            lemma_markers_shape(k);
            assert(match_at(s, a + j, markers()[k])) by {
                assert forall|q: int|
                    0 <= q < markers()[k].len() implies s[a + j + q] == markers()[k][q] by {
                    assert(sub[j + q] == s[a + j + q]);
                }
            }
            if j == 0 {
                assert(s[a] == markers()[k][0]);
            } else {
                assert(match_any(s, a + j, markers()));
            }
        }
    }
}

/// A non-empty trim ends with a non-whitespace character.
proof fn lemma_trim_last_nonws(r: Seq<char>)
    ensures
        trim(r).len() > 0 ==> !is_ws_char(trim(r)[trim(r).len() - 1]),
{
    lemma_skip_ws_bounds(r, 0);
    lemma_rskip_ws_bounds(r, r.len() as int);
    let a = skip_ws(r, 0);
    let b = rskip_ws(r, r.len() as int);
    if a <= b && b - a > 0 {
        assert(trim(r)[b - a - 1] == r[b - 1]);
        assert(!is_ws_char(r[b - 1]));
    }
}

/// The trim of a marker-free text is stable under re-parsing.
proof fn lemma_trim_reparse_stable(u: Seq<char>)
    requires
        forall|j: int| !match_any(u, j, markers()),
    ensures
        reparse_stable(trim(u)),
{
    let t = trim(u);
    if t.len() > 0 {
        // Trimming again changes nothing: the ends are already bare.
        lemma_trim_first_nonws(u);
        lemma_trim_last_nonws(u);
        assert(trim(t) == t) by {
            lemma_skip_ws_pin(t, 0, 0);
            lemma_rskip_ws_bounds(t, t.len() as int);
            let b2 = rskip_ws(t, t.len() as int);
            if b2 < t.len() {
                assert(is_ws_char(t[t.len() - 1]));
            }
            assert(t.subrange(0, t.len() as int) =~= t);
        }
        lemma_skip_ws_bounds(u, 0);
        lemma_rskip_ws_bounds(u, u.len() as int);
        let a = skip_ws(u, 0);
        let b = rskip_ws(u, u.len() as int);
        assert(a <= b);
        lemma_marker_free_subrange(u, a, b);
    }
}

/// Every description the parser builds is stable under re-parsing.
pub proof fn lemma_parse_descriptions_stable(s: Seq<char>, i: int, db: DocBlockV)
    requires
        0 <= i,
        reparse_stable(db.description),
    ensures
        parse_from(s, i, db) is Ok ==> reparse_stable(parse_from(s, i, db)->Ok_0.description),
    decreases s.len() - i,
{
    if !(0 <= i < s.len()) {
    } else if s[i] != '@' {
        if db.description.len() == 0 {
            let e = next_marker(s, i + 1);
            crate::liquid_docs::lemma_next_marker_bounds(s, i + 1);
            lemma_find_any_bounds(s, i + 1, markers());
            lemma_region_marker_free(s, i, e);
            lemma_trim_reparse_stable(s.subrange(i, e));
            lemma_parse_descriptions_stable(
                s,
                e,
                DocBlockV { description: trim(s.subrange(i, e)), ..db },
            );
        } else {
            lemma_parse_descriptions_stable(s, i + 1, db);
        }
    } else {
        match crate::liquid_docs::annotations_step(s, i, db) {
            Err(_) => {},
            Ok((db3, c3)) => {
                lemma_annotations_description_stable(s, i, db);
                crate::liquid_docs::lemma_annotations_bounds(s, i, db);
                lemma_parse_descriptions_stable(s, c3, db3);
            },
        }
    }
}

/// The annotation dispatch only ever installs a stable description.
proof fn lemma_annotations_description_stable(s: Seq<char>, i: int, db: DocBlockV)
    requires
        0 <= i < s.len(),
        reparse_stable(db.description),
    ensures
        crate::liquid_docs::annotations_step(s, i, db) is Ok ==> reparse_stable(
            crate::liquid_docs::annotations_step(s, i, db)->Ok_0.0.description,
        ),
{
    if crate::text::peek_word(s, i + 1, crate::liquid_docs::kw_description())
        && db.description.len() == 0 {
        let rr = crate::liquid_docs::parse_description_at(s, i + 1);
        match rr.0 {
            Some(_) => {
                lemma_description_at_stable(s, i + 1);
            },
            None => {},
        }
    }
}

/// The text an explicit `@description` annotation installs is stable.
proof fn lemma_description_at_stable(s: Seq<char>, c: int)
    requires
        0 <= c,
        c + 11 <= s.len(),
    ensures
        crate::liquid_docs::parse_description_at(s, c).0 is Some ==> reparse_stable(
            crate::liquid_docs::parse_description_at(s, c).0->0,
        ),
{
    let w = skip_ws(s, c + 11);
    lemma_skip_ws_bounds(s, c + 11);
    let e = next_marker(s, w);
    crate::liquid_docs::lemma_next_marker_bounds(s, w);
    lemma_find_any_bounds(s, w, markers());
    if e > w {
        let sub = s.subrange(w, e);
        assert forall|j: int| !match_any(sub, j, markers()) by {
            if match_any(sub, j, markers()) {
                let k = choose|k: int|
                    0 <= k < markers().len() && match_at(sub, j, markers()[k]);
                lemma_markers_shape(k);
                assert(match_at(s, w + j, markers()[k])) by {
                    assert forall|q: int|
                        0 <= q < markers()[k].len() implies s[w + j + q] == markers()[k][q] by {
                        assert(sub[j + q] == s[w + j + q]);
                    }
                }
                assert(match_any(s, w + j, markers()));
            }
        }
        let t = trim(sub);
        lemma_trim_reparse_stable(sub);
        if t.len() > 0 && t[0] == '-' {
            assert(t.skip(1) =~= t.subrange(1, t.len() as int));
            lemma_marker_free_subrange(t, 1, t.len() as int);
            lemma_trim_reparse_stable(t.skip(1));
        }
    }
}

/// No marker holds a newline.
proof fn lemma_markers_no_nl(k: int)
    requires
        0 <= k < markers().len(),
    ensures
        forall|q: int| 0 <= q < markers()[k].len() ==> markers()[k][q] != '\n',
{
    assert(k == 0 || k == 1 || k == 2);
}

/// A region all of whose window starts are marker-free is marker-free as a
/// text of its own.
proof fn lemma_region_marker_free_all(s: Seq<char>, a: int, e: int)
    requires
        0 <= a <= e <= s.len(),
        forall|j: int| a <= j < e ==> !match_any(s, j, markers()),
    ensures
        forall|j: int| !match_any(s.subrange(a, e), j, markers()),
{
    let sub = s.subrange(a, e);
    assert forall|j: int| !match_any(sub, j, markers()) by {
        if match_any(sub, j, markers()) {
            let k = choose|k: int| 0 <= k < markers().len() && match_at(sub, j, markers()[k]);
            lemma_markers_shape(k);
            assert(match_at(s, a + j, markers()[k])) by {
                assert forall|q: int|
                    0 <= q < markers()[k].len() implies s[a + j + q] == markers()[k][q] by {
                    assert(sub[j + q] == s[a + j + q]);
                }
            }
            assert(match_any(s, a + j, markers()));
        }
    }
}

/// Joining marker-free lines with newlines yields a marker-free text: a
/// marker holds no newline, so any occurrence would lie within one line.
proof fn lemma_join_marker_free(ls: Seq<Seq<char>>)
    requires
        forall|k: int, j: int| 0 <= k < ls.len() ==> !(#[trigger] match_any(ls[k], j, markers())),
    ensures
        forall|j: int| !match_any(join_lines(ls), j, markers()),
    decreases ls.len(),
{
    let u = join_lines(ls);
    if ls.len() <= 1 {
        if ls.len() == 1 {
            assert forall|j: int| !match_any(u, j, markers()) by {
                assert(!match_any(ls[0], j, markers()));
            }
        }
    } else {
        lemma_join_marker_free(ls.drop_first());
        let head = ls[0];
        let tail = join_lines(ls.drop_first());
        let hl = head.len() as int;
        assert forall|j: int| !match_any(u, j, markers()) by {
            if match_any(u, j, markers()) {
                let k = choose|k: int| 0 <= k < markers().len() && match_at(u, j, markers()[k]);
                let mk = markers()[k];
                lemma_markers_shape(k);
                lemma_markers_no_nl(k);
                if j + mk.len() <= hl {
                    assert(match_at(head, j, mk)) by {
                        assert forall|q: int| 0 <= q < mk.len() implies head[j + q] == mk[q] by {
                            assert(u[j + q] == head[j + q]);
                        }
                    }
                    assert(match_any(ls[0], j, markers()));
                } else if j <= hl {
                    assert(u[hl] == '\n');
                    assert(u[j + (hl - j)] == mk[hl - j]);
                } else {
                    assert(match_at(tail, j - hl - 1, mk)) by {
                        assert forall|q: int|
                            0 <= q < mk.len() implies tail[j - hl - 1 + q] == mk[q] by {
                            assert(u[j + q] == tail[j - hl - 1 + q]);
                        }
                    }
                    assert(match_any(tail, j - hl - 1, markers()));
                }
            }
        }
    }
}

/// Splitting a marker-free text yields marker-free lines.
proof fn lemma_split_lines_marker_free(u: Seq<char>)
    requires
        forall|j: int| !match_any(u, j, markers()),
    ensures
        forall|k: int, j: int|
            0 <= k < split_lines(u).len() ==> !(#[trigger] match_any(split_lines(u)[k], j, markers())),
    decreases u.len(),
{
    if u.len() > 0 {
        match find_from(u, 0, nl_seq()) {
            None => {
                lemma_strip_cr_marker_free(u);
            },
            Some(p) => {
                lemma_find_from_bounds(u, 0, nl_seq());
                lemma_marker_free_subrange(u, 0, p);
                assert(u.take(p) =~= u.subrange(0, p));
                lemma_strip_cr_marker_free(u.take(p));
                assert(u.skip(p + 1) =~= u.subrange(p + 1, u.len() as int));
                lemma_marker_free_subrange(u, p + 1, u.len() as int);
                lemma_split_lines_marker_free(u.skip(p + 1));
                assert forall|k: int, j: int|
                    0 <= k < split_lines(u).len() implies !(#[trigger] match_any(
                    split_lines(u)[k],
                    j,
                    markers(),
                )) by {
                    if k == 0 {
                        assert(split_lines(u)[0] == strip_cr(u.take(p)));
                    } else {
                        assert(split_lines(u)[k] == split_lines(u.skip(p + 1))[k - 1]);
                    }
                }
            },
        }
    }
}

/// Removing a trailing carriage return keeps a text marker-free.
proof fn lemma_strip_cr_marker_free(l: Seq<char>)
    requires
        forall|j: int| !match_any(l, j, markers()),
    ensures
        forall|j: int| !match_any(strip_cr(l), j, markers()),
{
    if l.len() > 0 && l.last() == '\r' {
        assert(l.drop_last() =~= l.subrange(0, l.len() - 1));
        lemma_marker_free_subrange(l, 0, l.len() - 1);
    }
}

/// The text of an `@example` section over a marker-free region is marker-free.
proof fn lemma_example_text_marker_free(region: Seq<char>)
    requires
        forall|j: int| !match_any(region, j, markers()),
    ensures
        forall|j: int| !match_any(example_text(region), j, markers()),
{
    let level = skip_ws(region, 0);
    lemma_skip_ws_bounds(region, 0);
    lemma_rskip_ws_bounds(region, region.len() as int);
    let a = skip_ws(region, 0);
    let b = rskip_ws(region, region.len() as int);
    if a <= b {
        lemma_marker_free_subrange(region, a, b);
    } else {
        assert forall|j: int| !match_any(trim(region), j, markers()) by {
            if match_any(trim(region), j, markers()) {
                let k = choose|k: int|
                    0 <= k < markers().len() && match_at(trim(region), j, markers()[k]);
                lemma_markers_shape(k);
            }
        }
    }
    if level > 0 {
        let ls = split_lines(trim(region));
        lemma_split_lines_marker_free(trim(region));
        assert forall|k: int, j: int|
            0 <= k < dedent_all(ls, level - 1).len() implies !(#[trigger] match_any(
            dedent_all(ls, level - 1)[k],
            j,
            markers(),
        )) by {
            let l = ls[k];
            let run = skip_ws(l, 0);
            let cut = if run <= level - 1 {
                run
            } else {
                level - 1
            };
            lemma_skip_ws_bounds(l, 0);
            assert(l.skip(cut) =~= l.subrange(cut, l.len() as int));
            lemma_marker_free_subrange(l, cut, l.len() as int);
        }
        lemma_join_marker_free(dedent_all(ls, level - 1));
    }
}

/// A text with bare ends is its own trim.
proof fn lemma_trim_fixpoint(u: Seq<char>)
    requires
        u.len() > 0,
        !is_ws_char(u[0]),
        !is_ws_char(u[u.len() - 1]),
    ensures
        trim(u) == u,
{
    lemma_skip_ws_pin(u, 0, 0);
    lemma_rskip_ws_bounds(u, u.len() as int);
    let b = rskip_ws(u, u.len() as int);
    if b < u.len() {
        assert(is_ws_char(u[u.len() - 1]));
    }
    assert(u.subrange(0, u.len() as int) =~= u);
}

/// A non-empty text not ending in a newline splits into lines whose last one
/// ends with its last character.
proof fn lemma_split_lines_last(u: Seq<char>)
    requires
        u.len() > 0,
        u.last() != '\n',
        u.last() != '\r',
    ensures
        split_lines(u).len() > 0,
        split_lines(u).last().len() > 0,
        split_lines(u).last().last() == u.last(),
    decreases u.len(),
{
    match find_from(u, 0, nl_seq()) {
        None => {
            assert(strip_cr(u) == u);
        },
        Some(p) => {
            lemma_find_from_bounds(u, 0, nl_seq());
            assert(u[p + 0] == nl_seq()[0]);
            assert(p < u.len() - 1) by {
                if p == u.len() - 1 {
                    assert(u.last() == '\n');
                }
            }
            let rest = u.skip(p + 1);
            assert(rest.len() > 0);
            assert(rest.last() == u.last());
            lemma_split_lines_last(rest);
            assert(split_lines(u).last() == split_lines(rest).last());
        },
    }
}

/// A join ends with its last line's last character.
proof fn lemma_join_lines_last(ls: Seq<Seq<char>>)
    requires
        ls.len() > 0,
        ls.last().len() > 0,
    ensures
        join_lines(ls).len() > 0,
        join_lines(ls).last() == ls.last().last(),
    decreases ls.len(),
{
    if ls.len() > 1 {
        lemma_join_lines_last(ls.drop_first());
        assert(ls.drop_first().last() == ls.last());
        let u = join_lines(ls);
        let tail = join_lines(ls.drop_first());
        assert(u.last() == tail.last());
    }
}

/// The text of an `@example` section over a marker-free region parses back to
/// itself whenever it is non-empty: it is trimmed and marker-free.
proof fn lemma_example_text_stable(region: Seq<char>)
    requires
        forall|j: int| !match_any(region, j, markers()),
    ensures
        example_text(region).len() > 0 ==> reparse_stable(example_text(region)),
{
    let level = skip_ws(region, 0);
    let e = example_text(region);
    lemma_example_text_marker_free(region);
    if e.len() > 0 {
        if level > 0 {
            let tr = trim(region);
            let ls = split_lines(tr);
            let ded = dedent_all(ls, level - 1);
            assert(tr.len() > 0) by {
                if tr.len() == 0 {
                    assert(ls =~= Seq::<Seq<char>>::empty());
                    assert(ded =~= Seq::<Seq<char>>::empty());
                }
            }
            lemma_trim_first_nonws(region);
            lemma_trim_last_nonws(region);
            lemma_first_line_starts_like(tr);
            lemma_split_lines_last(tr);
            // The first line keeps its head: its whitespace run is empty.
            assert(ded[0].len() > 0 && !is_ws_char(ded[0][0])) by {
                lemma_skip_ws_pin(ls[0], 0, 0);
                assert(ls[0].skip(0) =~= ls[0]);
            }
            // The last line keeps its tail: only a leading run is cut.
            assert(ded.last().len() > 0 && ded.last().last() == tr.last()) by {
                let l = ls.last();
                let run = skip_ws(l, 0);
                lemma_skip_ws_bounds(l, 0);
                assert(run < l.len()) by {
                    if run == l.len() {
                        assert(is_ws_char(l[l.len() - 1]));
                    }
                }
                let cut = if run <= level - 1 {
                    run
                } else {
                    level - 1
                };
                assert(ded[ls.len() - 1] == l.skip(cut));
                assert(l.skip(cut).last() == l.last());
            }
            lemma_join_lines_last(ded);
            assert(e[0] == ded[0][0]) by {
                if ded.len() > 1 {
                    assert(e[0] == ded[0][0]);
                }
            }
            lemma_trim_fixpoint(e);
        } else {
            lemma_trim_reparse_stable(region);
        }
    }
}

/// Every example section the parser keeps is stable under re-parsing.
pub proof fn lemma_parse_examples_stable(s: Seq<char>, i: int, db: DocBlockV)
    requires
        0 <= i,
        forall|k: int| 0 <= k < db.example.len() ==> reparse_stable(#[trigger] db.example[k]),
    ensures
        parse_from(s, i, db) is Ok ==> forall|k: int|
            0 <= k < parse_from(s, i, db)->Ok_0.example.len() ==> reparse_stable(
                #[trigger] parse_from(s, i, db)->Ok_0.example[k],
            ),
    decreases s.len() - i,
{
    if !(0 <= i < s.len()) {
    } else if s[i] != '@' {
        if db.description.len() == 0 {
            let e = next_marker(s, i + 1);
            crate::liquid_docs::lemma_next_marker_bounds(s, i + 1);
            lemma_parse_examples_stable(
                s,
                e,
                DocBlockV { description: trim(s.subrange(i, e)), ..db },
            );
        } else {
            lemma_parse_examples_stable(s, i + 1, db);
        }
    } else {
        match crate::liquid_docs::annotations_step(s, i, db) {
            Err(_) => {},
            Ok((db3, c3)) => {
                lemma_annotations_examples_stable(s, i, db);
                crate::liquid_docs::lemma_annotations_bounds(s, i, db);
                lemma_parse_examples_stable(s, c3, db3);
            },
        }
    }
}

/// The annotation dispatch only ever appends a stable example.
proof fn lemma_annotations_examples_stable(s: Seq<char>, i: int, db: DocBlockV)
    requires
        0 <= i < s.len(),
        forall|k: int| 0 <= k < db.example.len() ==> reparse_stable(#[trigger] db.example[k]),
    ensures
        crate::liquid_docs::annotations_step(s, i, db) is Ok ==> ({
            let db3 = crate::liquid_docs::annotations_step(s, i, db)->Ok_0.0;
            forall|k: int|
                0 <= k < db3.example.len() ==> reparse_stable(#[trigger] db3.example[k])
        }),
{
    let b1c = if crate::text::peek_word(s, i + 1, crate::liquid_docs::kw_description())
        && db.description.len() == 0 {
        crate::liquid_docs::parse_description_at(s, i + 1).1
    } else {
        i + 1
    };
    if crate::text::peek_word(s, i + 1, crate::liquid_docs::kw_description())
        && db.description.len() == 0 {
        crate::liquid_docs::lemma_parse_description_bounds(s, i + 1);
    }
    let c2 = if crate::text::peek_word(s, b1c, crate::liquid_docs::kw_param()) {
        match crate::liquid_docs::parse_param_at(s, b1c + 5, i) {
            Ok((_, c)) => c,
            Err(_) => b1c,
        }
    } else {
        b1c
    };
    if crate::text::peek_word(s, b1c, crate::liquid_docs::kw_param()) {
        crate::liquid_docs::lemma_parse_param_bounds(s, b1c + 5, i);
    }
    if crate::liquid_docs::annotations_step(s, i, db) is Ok {
        if crate::text::peek_word(s, c2, crate::liquid_docs::kw_example()) {
            let w5 = crate::text::skip_ws_nn(s, c2 + 7);
            lemma_skip_ws_nn_bounds(s, c2 + 7);
            let e = next_marker(s, w5);
            crate::liquid_docs::lemma_next_marker_bounds(s, w5);
            lemma_find_any_bounds(s, w5, markers());
            lemma_region_marker_free_all(s, w5, e);
            lemma_example_text_stable(s.subrange(w5, e));
        }
    }
}

/// Re-parsing any non-empty example of a successful parse that does not begin
/// with `@` yields that example text back as the whole description, with no
/// parameters and no examples.
pub proof fn lemma_reparse_example(s: Seq<char>, k: int)
    requires
        parse_doc_spec(s) is Ok,
        0 <= k < parse_doc_spec(s)->Ok_0.example.len(),
        parse_doc_spec(s)->Ok_0.example[k].len() > 0,
        parse_doc_spec(s)->Ok_0.example[k][0] != '@',
    ensures
        parse_doc_spec(parse_doc_spec(s)->Ok_0.example[k]) == Ok::<DocBlockV, ParsingErrorV>(
            DocBlockV {
                description: parse_doc_spec(s)->Ok_0.example[k],
                param: Seq::empty(),
                example: Seq::empty(),
            },
        ),
{
    lemma_skip_ws_bounds(s, 0);
    lemma_parse_examples_stable(s, skip_ws(s, 0), empty_doc_block_v());
    lemma_parse_plain_text(parse_doc_spec(s)->Ok_0.example[k]);
}

/// Re-parsing the description of a successful parse, when it is non-empty and
/// does not itself begin with `@`, yields that description back unchanged,
/// with no parameters and no examples: extraction does not double-process
/// already-extracted text.
pub proof fn lemma_reparse_description(s: Seq<char>)
    requires
        parse_doc_spec(s) is Ok,
        parse_doc_spec(s)->Ok_0.description.len() > 0,
        parse_doc_spec(s)->Ok_0.description[0] != '@',
    ensures
        parse_doc_spec(parse_doc_spec(s)->Ok_0.description) == Ok::<DocBlockV, ParsingErrorV>(
            DocBlockV {
                description: parse_doc_spec(s)->Ok_0.description,
                param: Seq::empty(),
                example: Seq::empty(),
            },
        ),
{
    lemma_skip_ws_bounds(s, 0);
    lemma_parse_descriptions_stable(s, skip_ws(s, 0), empty_doc_block_v());
    lemma_parse_plain_text(parse_doc_spec(s)->Ok_0.description);
}

// ---------------------------------------------------------------------------
// Example dedenting
// ---------------------------------------------------------------------------

/// A whitespace prefix of length `m` keeps the whitespace scan going at least
/// that far.
proof fn lemma_skip_ws_at_least(u: Seq<char>, m: int)
    requires
        0 <= m <= u.len(),
        forall|q: int| 0 <= q < m ==> is_ws_char(u[q]),
    ensures
        skip_ws(u, 0) >= m,
{
    lemma_skip_ws_bounds(u, 0);
    let r = skip_ws(u, 0);
    if r < m {
        assert(is_ws_char(u[r]));
    }
}

/// Dedenting an `@example` region whose lines all carry at least the common
/// indentation removes exactly that indentation from every line after the
/// first, and nothing from the first, which the trim has already stripped:
/// indentation beyond the common width, and everything else, is preserved.
///
/// `level` counts the region's leading whitespace (the newline after
/// `@example` plus the first line's indentation), so the stripped width is
/// `level - 1`.
pub proof fn lemma_example_dedent(r: Seq<char>)
    requires
        skip_ws(r, 0) > 0,
        ({
            let level = skip_ws(r, 0);
            let ls = split_lines(trim(r));
            forall|i: int|
                1 <= i < ls.len() ==> (#[trigger] ls[i]).len() >= level - 1 && forall|q: int|
                    0 <= q < level - 1 ==> is_ws_char(ls[i][q])
        }),
    ensures
        ({
            let level = skip_ws(r, 0);
            let ls = split_lines(trim(r));
            example_text(r) == join_lines(
                Seq::new(
                    ls.len(),
                    |i: int|
                        if i == 0 {
                            ls[0]
                        } else {
                            ls[i].skip(level - 1)
                        },
                ),
            )
        }),
{
    let level = skip_ws(r, 0);
    let tr = trim(r);
    let ls = split_lines(tr);
    let expected = Seq::new(
        ls.len(),
        |i: int|
            if i == 0 {
                ls[0]
            } else {
                ls[i].skip(level - 1)
            },
    );
    assert forall|i: int| 0 <= i < ls.len() implies dedent_all(ls, level - 1)[i] == expected[i] by {
        if i == 0 {
            lemma_first_line_starts_like(tr);
            if tr.len() == 0 {
            } else {
                lemma_trim_first_nonws(r);
                assert(skip_ws(ls[0], 0) == 0) by {
                    lemma_skip_ws_bounds(ls[0], 0);
                    if skip_ws(ls[0], 0) > 0 {
                        assert(is_ws_char(ls[0][0]));
                    }
                }
                assert(dedent_line(ls[0], level - 1) =~= ls[0]);
            }
        } else {
            lemma_skip_ws_at_least(ls[i], level - 1);
            assert(dedent_line(ls[i], level - 1) == ls[i].skip(level - 1));
        }
    }
    assert(dedent_all(ls, level - 1) =~= expected);
}

// ---------------------------------------------------------------------------
// Extraction of balanced blocks
// ---------------------------------------------------------------------------

/// The whitespace scan from `i` stops exactly at `r` when everything before
/// `r` is whitespace and `r` is the end or holds none.
proof fn lemma_skip_ws_pin(s: Seq<char>, i: int, r: int)
    requires
        0 <= i <= r <= s.len(),
        forall|j: int| i <= j < r ==> is_ws_char(s[j]),
        r == s.len() || !is_ws_char(s[r]),
    ensures
        skip_ws(s, i) == r,
{
    lemma_skip_ws_bounds(s, i);
    let k = skip_ws(s, i);
    if k < r {
        assert(is_ws_char(s[k]));
    }
    if k > r {
        assert(is_ws_char(s[r]));
    }
}

/// A first occurrence is exactly the earliest match.
proof fn lemma_find_from_exact(s: Seq<char>, i: int, t: Seq<char>, m: int)
    requires
        0 <= i <= m,
        i <= s.len(),
        t.len() >= 1,
        match_at(s, m, t),
        forall|j: int| i <= j < m ==> !match_at(s, j, t),
    ensures
        find_from(s, i, t) == Some(m),
{
    lemma_find_from_bounds(s, i, t);
    match find_from(s, i, t) {
        None => {
            assert(!match_at(s, m, t));
        },
        Some(p) => {
            if p < m {
                assert(!match_at(s, p, t));
            }
            if p > m {
                assert(!match_at(s, m, t));
            }
        },
    }
}

/// With no tag opener anywhere ahead, a scan finds nothing more.
proof fn lemma_scan_no_open(s: Seq<char>, i: int, left: int)
    requires
        0 <= i <= s.len(),
        forall|j: int| i <= j < s.len() - 1 ==> !((#[trigger] s[j]) == '{' && s[j + 1] == '%'),
    ensures
        scan_from(s, i, left) == Some(Seq::<(int, int)>::empty()),
    decreases s.len() - i,
{
    if 0 <= i < s.len() {
        lemma_scan_no_open(s, i + 1, left);
    }
}

/// The sequence `{% doc %}`.
pub open spec fn doc_open_tag() -> Seq<char> {
    seq!['{', '%', ' ', 'd', 'o', 'c', ' ', '%', '}']
}

/// The sequence `{% enddoc %}`.
pub open spec fn doc_close_tag() -> Seq<char> {
    seq!['{', '%', ' ', 'e', 'n', 'd', 'd', 'o', 'c', ' ', '%', '}']
}

/// For text holding one balanced `{% doc %}` ... `{% enddoc %}` pair around a
/// body with no tag opener and no `enddoc` inside, extraction returns exactly
/// that body: the characters between the opening tag's close and the closing
/// tag's opener, whitespace and newlines included.
pub proof fn lemma_extract_single_block(s: Seq<char>, body: Seq<char>)
    requires
        s == doc_open_tag() + body + doc_close_tag(),
        forall|j: int| !match_at(body, j, open_marker()),
        forall|j: int| !match_at(body, j, kw_enddoc()),
    ensures
        extract_spec(s) == Some(seq![body]),
{
    let b = body.len() as int;
    assert(s.len() == b + 21);
    // The one `enddoc` occurrence inside the closing tag.
    assert(match_at(s, 12 + b, kw_enddoc())) by {
        assert forall|j: int| 0 <= j < 6 implies s[12 + b + j] == kw_enddoc()[j] by {
            assert(s[12 + b + j] == doc_close_tag()[3 + j]);
        }
    }
    crate::text::lemma_find_from_finds(s, 0, kw_enddoc(), 12 + b);
    let possible = crate::text::count_occ(s, 0, kw_enddoc());
    assert(possible >= 1) by {
        lemma_find_from_bounds(s, 0, kw_enddoc());
        let p = find_from(s, 0, kw_enddoc())->0;
        crate::text::lemma_count_occ_bound(s, p + kw_enddoc().len(), kw_enddoc());
    }
    // The scan takes the doc branch at once.
    assert(s[0] == '{' && s[1] == '%');
    assert(crate::text::skip_dash_at(s, 2) == 2);
    lemma_skip_ws_pin(s, 2, 3);
    assert(!crate::text::peek_word(s, 3, crate::text::kw_hash())) by {
        assert(!crate::text::ci_eq(s[3], crate::text::kw_hash()[0]));
    }
    assert(!crate::text::peek_word(s, 3, crate::text::kw_raw())) by {
        assert(!crate::text::ci_eq(s[3], crate::text::kw_raw()[0]));
    }
    assert(!crate::text::peek_word(s, 3, crate::text::kw_comment())) by {
        assert(!crate::text::ci_eq(s[3], crate::text::kw_comment()[0]));
    }
    assert(crate::text::peek_word(s, 3, kw_doc())) by {
        assert forall|j: int| 0 <= j < 3 implies crate::text::ci_eq(s[3 + j], kw_doc()[j]) by {
            assert(s[3 + j] == doc_open_tag()[3 + j]);
        }
        assert(!crate::text::is_ascii_alnum(s[6]));
    }
    // Its tag close.
    lemma_skip_ws_pin(s, 6, 7);
    assert(crate::text::tag_close(s, 6) == (Some(9int), 9int));
    // The enddoc tag is found right at the closing tag.
    assert(find_from(s, 9, open_marker()) == Some(9 + b)) by {
        assert(match_at(s, 9 + b, open_marker())) by {
            assert(s[9 + b] == doc_close_tag()[0]);
            assert(s[9 + b + 1] == doc_close_tag()[1]);
            assert forall|j: int| 0 <= j < 2 implies s[9 + b + j] == open_marker()[j] by {
                assert(s[9 + b + j] == doc_close_tag()[j]);
            }
        }
        assert forall|j: int| 9 <= j < 9 + b implies !match_at(s, j, open_marker()) by {
            if match_at(s, j, open_marker()) {
                if j < 9 + b - 1 {
                    assert(match_at(body, j - 9, open_marker())) by {
                        assert forall|q: int|
                            0 <= q < 2 implies body[j - 9 + q] == open_marker()[q] by {
                            assert(s[j + q] == body[j - 9 + q]);
                        }
                    }
                } else {
                    assert(s[j + 1] == doc_close_tag()[0]);
                    assert(s[j + 1] == open_marker()[1]);
                }
            }
        }
        lemma_find_from_exact(s, 9, open_marker(), 9 + b);
    }
    assert(crate::text::skip_dash_at(s, 11 + b) == 11 + b) by {
        assert(s[11 + b] == doc_close_tag()[2]);
    }
    assert(skip_ws(s, 11 + b) == 12 + b) by {
        assert(s[11 + b] == doc_close_tag()[2]);
        assert(s[12 + b] == doc_close_tag()[3]);
        lemma_skip_ws_pin(s, 11 + b, 12 + b);
    }
    assert(crate::text::peek_word(s, 12 + b, kw_enddoc())) by {
        assert(!crate::text::is_ascii_alnum(s[18 + b])) by {
            assert(s[18 + b] == doc_close_tag()[9]);
        }
    }
    assert(crate::text::find_tag(s, 9, kw_enddoc(), false) == (Some(9 + b), 12 + b));
    // Behind the block nothing opens a tag.
    assert(scan_from(s, 12 + b, possible - 1) == Some(Seq::<(int, int)>::empty())) by {
        assert forall|j: int| 12 + b <= j < s.len() - 1 implies !((#[trigger] s[j]) == '{' && s[j
            + 1] == '%') by {
            assert(s[j] == doc_close_tag()[j - 9 - b]);
        }
        lemma_scan_no_open(s, 12 + b, possible - 1);
    }
    assert(scan_from(s, 0, possible) == Some(seq![(9int, 9 + b)])) by {
        if possible != 1 {
            assert(seq![(9int, 9 + b)] + Seq::<(int, int)>::empty() =~= seq![(9int, 9 + b)]);
        }
    }
    assert(extract_spec(s) == Some(seq![s.subrange(9, 9 + b)])) by {
        assert(Seq::new(1, |k: int| s.subrange(seq![(9int, 9 + b)][k].0, seq![(9int, 9 + b)][k].1))
            =~= seq![s.subrange(9, 9 + b)]);
    }
    assert(s.subrange(9, 9 + b) =~= body);
}

/// The sequence `{%- doc -%}`.
pub open spec fn doc_open_tag_dashed() -> Seq<char> {
    seq!['{', '%', '-', ' ', 'd', 'o', 'c', ' ', '-', '%', '}']
}

/// The sequence `{%- enddoc -%}`.
pub open spec fn doc_close_tag_dashed() -> Seq<char> {
    seq!['{', '%', '-', ' ', 'e', 'n', 'd', 'd', 'o', 'c', ' ', '-', '%', '}']
}

/// Whitespace-control dashes are transparent to extraction: the fully dashed
/// tag pair extracts exactly the same body as the undashed pair of
/// [`lemma_extract_single_block`].
pub proof fn lemma_extract_single_block_dashed(s: Seq<char>, body: Seq<char>)
    requires
        s == doc_open_tag_dashed() + body + doc_close_tag_dashed(),
        forall|j: int| !match_at(body, j, open_marker()),
        forall|j: int| !match_at(body, j, kw_enddoc()),
    ensures
        extract_spec(s) == Some(seq![body]),
{
    let b = body.len() as int;
    assert(s.len() == b + 25);
    assert(match_at(s, 15 + b, kw_enddoc())) by {
        assert forall|j: int| 0 <= j < 6 implies s[15 + b + j] == kw_enddoc()[j] by {
            assert(s[15 + b + j] == doc_close_tag_dashed()[4 + j]);
        }
    }
    crate::text::lemma_find_from_finds(s, 0, kw_enddoc(), 15 + b);
    let possible = crate::text::count_occ(s, 0, kw_enddoc());
    assert(possible >= 1) by {
        lemma_find_from_bounds(s, 0, kw_enddoc());
        let p = find_from(s, 0, kw_enddoc())->0;
        crate::text::lemma_count_occ_bound(s, p + kw_enddoc().len(), kw_enddoc());
    }
    assert(s[0] == '{' && s[1] == '%');
    assert(crate::text::skip_dash_at(s, 2) == 3);
    lemma_skip_ws_pin(s, 3, 4);
    assert(!crate::text::peek_word(s, 4, crate::text::kw_hash())) by {
        assert(!crate::text::ci_eq(s[4], crate::text::kw_hash()[0]));
    }
    assert(!crate::text::peek_word(s, 4, crate::text::kw_raw())) by {
        assert(!crate::text::ci_eq(s[4], crate::text::kw_raw()[0]));
    }
    assert(!crate::text::peek_word(s, 4, crate::text::kw_comment())) by {
        assert(!crate::text::ci_eq(s[4], crate::text::kw_comment()[0]));
    }
    assert(crate::text::peek_word(s, 4, kw_doc())) by {
        assert forall|j: int| 0 <= j < 3 implies crate::text::ci_eq(s[4 + j], kw_doc()[j]) by {
            assert(s[4 + j] == doc_open_tag_dashed()[4 + j]);
        }
        assert(!crate::text::is_ascii_alnum(s[7]));
    }
    lemma_skip_ws_pin(s, 7, 8);
    assert(crate::text::tag_close(s, 7) == (Some(11int), 11int));
    assert(find_from(s, 11, open_marker()) == Some(11 + b)) by {
        assert(match_at(s, 11 + b, open_marker())) by {
            assert forall|j: int| 0 <= j < 2 implies s[11 + b + j] == open_marker()[j] by {
                assert(s[11 + b + j] == doc_close_tag_dashed()[j]);
            }
        }
        assert forall|j: int| 11 <= j < 11 + b implies !match_at(s, j, open_marker()) by {
            if match_at(s, j, open_marker()) {
                if j < 11 + b - 1 {
                    assert(match_at(body, j - 11, open_marker())) by {
                        assert forall|q: int|
                            0 <= q < 2 implies body[j - 11 + q] == open_marker()[q] by {
                            assert(s[j + q] == body[j - 11 + q]);
                        }
                    }
                } else {
                    assert(s[j + 1] == doc_close_tag_dashed()[0]);
                    assert(s[j + 1] == open_marker()[1]);
                }
            }
        }
        lemma_find_from_exact(s, 11, open_marker(), 11 + b);
    }
    assert(crate::text::skip_dash_at(s, 13 + b) == 14 + b) by {
        assert(s[13 + b] == doc_close_tag_dashed()[2]);
    }
    assert(skip_ws(s, 14 + b) == 15 + b) by {
        assert(s[14 + b] == doc_close_tag_dashed()[3]);
        assert(s[15 + b] == doc_close_tag_dashed()[4]);
        lemma_skip_ws_pin(s, 14 + b, 15 + b);
    }
    assert(crate::text::peek_word(s, 15 + b, kw_enddoc())) by {
        assert(!crate::text::is_ascii_alnum(s[21 + b])) by {
            assert(s[21 + b] == doc_close_tag_dashed()[10]);
        }
    }
    assert(crate::text::find_tag(s, 11, kw_enddoc(), false) == (Some(11 + b), 15 + b));
    assert(scan_from(s, 15 + b, possible - 1) == Some(Seq::<(int, int)>::empty())) by {
        assert forall|j: int| 15 + b <= j < s.len() - 1 implies !((#[trigger] s[j]) == '{' && s[j
            + 1] == '%') by {
            assert(s[j] == doc_close_tag_dashed()[j - 11 - b]);
        }
        lemma_scan_no_open(s, 15 + b, possible - 1);
    }
    assert(scan_from(s, 0, possible) == Some(seq![(11int, 11 + b)])) by {
        if possible != 1 {
            assert(seq![(11int, 11 + b)] + Seq::<(int, int)>::empty() =~= seq![(11int, 11 + b)]);
        }
    }
    assert(extract_spec(s) == Some(seq![s.subrange(11, 11 + b)])) by {
        assert(Seq::new(
            1,
            |k: int| s.subrange(seq![(11int, 11 + b)][k].0, seq![(11int, 11 + b)][k].1),
        ) =~= seq![s.subrange(11, 11 + b)]);
    }
    assert(s.subrange(11, 11 + b) =~= body);
}

/// The sequence `{% enddoc1 %}`: its keyword does not end on a word boundary.
pub open spec fn doc_close_tag_unbounded() -> Seq<char> {
    seq!['{', '%', ' ', 'e', 'n', 'd', 'd', 'o', 'c', '1', ' ', '%', '}']
}

/// Tag-name matching requires a word boundary: a block whose only candidate
/// close reads `enddoc1` is never closed, and extraction reports nothing.
pub proof fn lemma_unbounded_close_extracts_nothing(s: Seq<char>, body: Seq<char>)
    requires
        s == doc_open_tag() + body + doc_close_tag_unbounded(),
        forall|j: int| !match_at(body, j, open_marker()),
        forall|j: int| !match_at(body, j, kw_enddoc()),
    ensures
        extract_spec(s) is None,
{
    let b = body.len() as int;
    assert(s.len() == b + 22);
    assert(match_at(s, 12 + b, kw_enddoc())) by {
        assert forall|j: int| 0 <= j < 6 implies s[12 + b + j] == kw_enddoc()[j] by {
            assert(s[12 + b + j] == doc_close_tag_unbounded()[3 + j]);
        }
    }
    crate::text::lemma_find_from_finds(s, 0, kw_enddoc(), 12 + b);
    let possible = crate::text::count_occ(s, 0, kw_enddoc());
    assert(possible >= 1) by {
        lemma_find_from_bounds(s, 0, kw_enddoc());
        let p = find_from(s, 0, kw_enddoc())->0;
        crate::text::lemma_count_occ_bound(s, p + kw_enddoc().len(), kw_enddoc());
    }
    assert(s[0] == '{' && s[1] == '%');
    assert(crate::text::skip_dash_at(s, 2) == 2);
    lemma_skip_ws_pin(s, 2, 3);
    assert(!crate::text::peek_word(s, 3, crate::text::kw_hash())) by {
        assert(!crate::text::ci_eq(s[3], crate::text::kw_hash()[0]));
    }
    assert(!crate::text::peek_word(s, 3, crate::text::kw_raw())) by {
        assert(!crate::text::ci_eq(s[3], crate::text::kw_raw()[0]));
    }
    assert(!crate::text::peek_word(s, 3, crate::text::kw_comment())) by {
        assert(!crate::text::ci_eq(s[3], crate::text::kw_comment()[0]));
    }
    assert(crate::text::peek_word(s, 3, kw_doc())) by {
        assert forall|j: int| 0 <= j < 3 implies crate::text::ci_eq(s[3 + j], kw_doc()[j]) by {
            assert(s[3 + j] == doc_open_tag()[3 + j]);
        }
        assert(!crate::text::is_ascii_alnum(s[6]));
    }
    lemma_skip_ws_pin(s, 6, 7);
    assert(crate::text::tag_close(s, 6) == (Some(9int), 9int));
    assert(find_from(s, 9, open_marker()) == Some(9 + b)) by {
        assert(match_at(s, 9 + b, open_marker())) by {
            assert forall|j: int| 0 <= j < 2 implies s[9 + b + j] == open_marker()[j] by {
                assert(s[9 + b + j] == doc_close_tag_unbounded()[j]);
            }
        }
        assert forall|j: int| 9 <= j < 9 + b implies !match_at(s, j, open_marker()) by {
            if match_at(s, j, open_marker()) {
                if j < 9 + b - 1 {
                    assert(match_at(body, j - 9, open_marker())) by {
                        assert forall|q: int|
                            0 <= q < 2 implies body[j - 9 + q] == open_marker()[q] by {
                            assert(s[j + q] == body[j - 9 + q]);
                        }
                    }
                } else {
                    assert(s[j + 1] == doc_close_tag_unbounded()[0]);
                    assert(s[j + 1] == open_marker()[1]);
                }
            }
        }
        lemma_find_from_exact(s, 9, open_marker(), 9 + b);
    }
    assert(crate::text::skip_dash_at(s, 11 + b) == 11 + b) by {
        assert(s[11 + b] == doc_close_tag_unbounded()[2]);
    }
    assert(skip_ws(s, 11 + b) == 12 + b) by {
        assert(s[11 + b] == doc_close_tag_unbounded()[2]);
        assert(s[12 + b] == doc_close_tag_unbounded()[3]);
        lemma_skip_ws_pin(s, 11 + b, 12 + b);
    }
    // The keyword matches, but runs into the digit: no word boundary.
    assert(!crate::text::peek_word(s, 12 + b, kw_enddoc())) by {
        assert(crate::text::is_ascii_alnum(s[18 + b])) by {
            assert(s[18 + b] == doc_close_tag_unbounded()[9]);
        }
        assert(12 + b + kw_enddoc().len() != s.len());
    }
    // No opener follows, so the enddoc scan gives up at the end.
    assert(find_from(s, 12 + b, open_marker()) is None) by {
        lemma_find_from_bounds(s, 12 + b, open_marker());
        if find_from(s, 12 + b, open_marker()) is Some {
            let p = find_from(s, 12 + b, open_marker())->0;
            assert(s[p] == doc_close_tag_unbounded()[p - 9 - b]);
            assert(s[p + 0] == open_marker()[0]);
        }
    }
    assert(crate::text::find_tag(s, 12 + b, kw_enddoc(), false).0 is None);
    assert(crate::text::find_tag(s, 9, kw_enddoc(), false).0 is None);
    assert(scan_from(s, 0, possible) is None);
}

/// A non-empty trimmed text's first line begins with its first character.
proof fn lemma_first_line_starts_like(tr: Seq<char>)
    requires
        tr.len() > 0,
    ensures
        split_lines(tr).len() > 0,
        split_lines(tr)[0].len() > 0 ==> split_lines(tr)[0][0] == tr[0],
        !is_ws_char(tr[0]) ==> split_lines(tr)[0].len() > 0 && split_lines(tr)[0][0] == tr[0],
{
    match find_from(tr, 0, nl_seq()) {
        None => {
            if !is_ws_char(tr[0]) {
                assert(strip_cr(tr)[0] == tr[0]) by {
                    if tr.len() == 1 && tr.last() == '\r' {
                        assert(is_ws_char(tr[0]));
                    }
                }
            } else {
                if strip_cr(tr).len() > 0 {
                    assert(strip_cr(tr)[0] == tr[0]);
                }
            }
        },
        Some(p) => {
            lemma_find_from_bounds(tr, 0, nl_seq());
            let line = strip_cr(tr.take(p));
            if !is_ws_char(tr[0]) {
                assert(p != 0) by {
                    if p == 0 {
                        assert(match_at(tr, 0, nl_seq()));
                        assert(tr[0int + 0int] == nl_seq()[0int]);
                        assert(is_ws_char(tr[0]));
                    }
                }
                assert(tr.take(p)[0] == tr[0]);
                assert(line.len() > 0 && line[0] == tr[0]) by {
                    if tr.take(p).len() == 1 && tr.take(p).last() == '\r' {
                        assert(tr[0] == '\r');
                        assert(is_ws_char(tr[0]));
                    }
                }
            } else {
                if line.len() > 0 {
                    assert(tr.take(p)[0] == tr[0]);
                }
            }
        },
    }
}

/// A non-empty trim starts with a non-whitespace character.
proof fn lemma_trim_first_nonws(r: Seq<char>)
    ensures
        trim(r).len() > 0 ==> !is_ws_char(trim(r)[0]),
{
    lemma_skip_ws_bounds(r, 0);
    lemma_rskip_ws_bounds(r, r.len() as int);
    let a = skip_ws(r, 0);
    let b = rskip_ws(r, r.len() as int);
    if a <= b && b - a > 0 {
        assert(trim(r)[0] == r[a]);
        assert(!is_ws_char(r[a]));
    }
}

} // verus!
