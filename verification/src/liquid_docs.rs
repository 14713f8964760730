//! The tag scanner and content parser for `{% doc %}` blocks.

use vstd::prelude::*;

use crate::{doc_block_v_empty, param_v_default, DocBlock, DocBlockV, Param, ParamType, ParamTypeV, ParamV};
use crate::shopify_liquid_objects::{allowed_object, is_allowed_object};
use crate::text::{
    col_of, contains_char, count_nl, count_occ, exec_contains_char, exec_count_occ,
    exec_example_text, exec_find_any, exec_find_from, exec_peek_word, exec_skip_dash, exec_skip_ws,
    exec_skip_ws_nn, exec_trim, example_text, find_any, find_from, find_tag, kw_comment, kw_doc,
    kw_endcomment, kw_enddoc, kw_endraw, kw_hash, kw_raw, lemma_find_any_bounds,
    lemma_find_from_bounds, lemma_find_tag_bounds, lemma_find_tag_step, lemma_skip_ws_bounds,
    lemma_skip_ws_nn_bounds, lemma_tag_close_bounds, line_of, line_start_of, match_any, match_at,
    exec_match_at, nl_seq, open_marker, peek_word, sat_byte_len, skip_dash_at, skip_ws, skip_ws_nn,
    str_eq_str, strs_views, tag_close, trim, utf8_len_char,
};

verus! {

/// The error types the [`LiquidDocs`] methods can report.
#[derive(Debug, PartialEq)]
pub enum ParsingError {
    MissingParameterName { line: usize, column: usize, message: String },
    MissingOptionalClosingBracket(String),
    UnexpectedParameterEnd(String),
    UnknownParameterType(String),
    NoDocContentFound,
}

/// Mathematical content of a [`ParsingError`].
pub enum ParsingErrorV {
    MissingParameterName { line: int, column: int, message: Seq<char> },
    MissingOptionalClosingBracket(Seq<char>),
    UnexpectedParameterEnd(Seq<char>),
    UnknownParameterType(Seq<char>),
    NoDocContentFound,
}

impl View for ParsingError {
    type V = ParsingErrorV;

    open spec fn view(&self) -> ParsingErrorV {
        match self {
            ParsingError::MissingParameterName { line, column, message } => {
                ParsingErrorV::MissingParameterName {
                    line: *line as int,
                    column: *column as int,
                    message: message@,
                }
            },
            ParsingError::MissingOptionalClosingBracket(m) => {
                ParsingErrorV::MissingOptionalClosingBracket(m@)
            },
            ParsingError::UnexpectedParameterEnd(m) => ParsingErrorV::UnexpectedParameterEnd(m@),
            ParsingError::UnknownParameterType(m) => ParsingErrorV::UnknownParameterType(m@),
            ParsingError::NoDocContentFound => ParsingErrorV::NoDocContentFound,
        }
    }
}

/// The main struct that parses the content of liquid files: a character
/// cursor over the scanned text.
pub struct LiquidDocs<'a> {
    content: &'a str,
    pos: usize,
}

impl<'a> LiquidDocs<'a> {
    /// The character sequence being scanned.
    pub closed spec fn text(&self) -> Seq<char> {
        self.content@
    }

    /// The current cursor position, a character index.
    pub closed spec fn cursor(&self) -> int {
        self.pos as int
    }

    /// The cursor never passes the end of the text.
    pub open spec fn wf(&self) -> bool {
        self.cursor() <= self.text().len()
    }

    /// A cursor at the start of `content`.
    pub fn new(content: &'a str) -> (r: Self)
        ensures
            r.wf(),
            r.text() == content@,
            r.cursor() == 0,
    {
        LiquidDocs { content, pos: 0 }
    }

    /// The character under the cursor with its position; advances by one.
    pub fn next(&mut self) -> (r: Option<(usize, char)>)
        requires
            old(self).wf(),
        ensures
            final(self).wf(),
            final(self).text() == old(self).text(),
            old(self).cursor() < old(self).text().len() ==> {
                &&& r is Some
                &&& (r->0).0 as int == old(self).cursor()
                &&& (r->0).1 == old(self).text()[old(self).cursor()]
                &&& final(self).cursor() == old(self).cursor() + 1
            },
            old(self).cursor() >= old(self).text().len() ==> {
                &&& r is None
                &&& final(self).cursor() == old(self).cursor()
            },
    {
        let n = self.content.unicode_len();
        if self.pos < n {
            let c = self.content.get_char(self.pos);
            let p = self.pos;
            self.pos = self.pos + 1;
            Some((p, c))
        } else {
            None
        }
    }

    /// Move the cursor to the next non-whitespace character.
    pub fn consume_whitespace(&mut self)
        requires
            old(self).wf(),
        ensures
            final(self).wf(),
            final(self).text() == old(self).text(),
            final(self).cursor() == skip_ws(old(self).text(), old(self).cursor()),
    {
        self.pos = exec_skip_ws(self.content, self.pos);
    }

    /// Move the cursor to the next non-whitespace character unless it's a newline.
    pub fn consume_whitespace_until_newline(&mut self)
        requires
            old(self).wf(),
        ensures
            final(self).wf(),
            final(self).text() == old(self).text(),
            final(self).cursor() == skip_ws_nn(old(self).text(), old(self).cursor()),
    {
        self.pos = exec_skip_ws_nn(self.content, self.pos);
    }

    /// Skip an optional dash character for whitespace control.
    pub fn skip_dash(&mut self)
        requires
            old(self).wf(),
        ensures
            final(self).wf(),
            final(self).text() == old(self).text(),
            final(self).cursor() == skip_dash_at(old(self).text(), old(self).cursor()),
    {
        self.pos = exec_skip_dash(self.content, self.pos);
    }

    /// Check if the following content matches a specific substring, on a word
    /// boundary and ignoring ASCII case.
    pub fn peek_matches(&self, needle: &str) -> (r: bool)
        requires
            self.wf(),
        ensures
            r == peek_word(self.text(), self.cursor(), needle@),
    {
        exec_peek_word(self.content, self.pos, needle)
    }

    /// Consume a number of characters from the input stream.
    pub fn consume_chars(&mut self, count: usize)
        requires
            old(self).wf(),
        ensures
            final(self).wf(),
            final(self).text() == old(self).text(),
            final(self).cursor() == (if old(self).cursor() + count <= old(self).text().len() {
                old(self).cursor() + count
            } else {
                old(self).text().len() as int
            }),
    {
        let n = self.content.unicode_len();
        if count <= n - self.pos {
            self.pos = self.pos + count;
        } else {
            self.pos = n;
        }
    }

    /// Move to the position after the next `%}`, which must follow directly,
    /// up to whitespace and a whitespace-control dash.
    pub fn skip_to_tag_close(&mut self) -> (r: Option<usize>)
        requires
            old(self).wf(),
        ensures
            final(self).wf(),
            final(self).text() == old(self).text(),
            final(self).cursor() == tag_close(old(self).text(), old(self).cursor()).1,
            match r {
                Some(p) => tag_close(old(self).text(), old(self).cursor()).0 == Some(p as int),
                None => tag_close(old(self).text(), old(self).cursor()).0 is None,
            },
    {
        self.consume_whitespace();
        self.skip_dash();
        let n = self.content.unicode_len();
        if self.pos < n && self.content.get_char(self.pos) == '%' {
            self.pos = self.pos + 1;
            if self.pos < n && self.content.get_char(self.pos) == '}' {
                self.pos = self.pos + 1;
                return Some(self.pos);
            }
        }
        None
    }

    /// Find the next occurrence of a string and return its position; the
    /// cursor stops on it, or at the end when there is none.
    pub fn consume_until(&mut self, target: &str) -> (r: Option<usize>)
        requires
            old(self).wf(),
        ensures
            final(self).wf(),
            final(self).text() == old(self).text(),
            target@.len() == 0 ==> r is None && final(self).cursor() == old(self).cursor(),
            target@.len() >= 1 ==> match r {
                Some(p) => {
                    &&& find_from(old(self).text(), old(self).cursor(), target@) == Some(p as int)
                    &&& final(self).cursor() == p as int
                },
                None => {
                    &&& find_from(old(self).text(), old(self).cursor(), target@) is None
                    &&& final(self).cursor() == old(self).text().len()
                },
            },
    {
        if target.unicode_len() == 0 {
            return None;
        }
        match exec_find_from(self.content, self.pos, target) {
            Some(p) => {
                self.pos = p;
                Some(p)
            },
            None => {
                self.pos = self.content.unicode_len();
                None
            },
        }
    }

    /// Consume until the first position where one of the needles starts; the
    /// cursor stops on it, or at the end when there is none.
    pub fn consume_until_either(&mut self, needles: &[&str]) -> (r: Option<usize>)
        requires
            old(self).wf(),
        ensures
            final(self).wf(),
            final(self).text() == old(self).text(),
            match r {
                Some(p) => {
                    &&& find_any(old(self).text(), old(self).cursor(), strs_views(needles@))
                        == Some(p as int)
                    &&& final(self).cursor() == p as int
                },
                None => {
                    &&& find_any(old(self).text(), old(self).cursor(), strs_views(needles@))
                        is None
                    &&& final(self).cursor() == old(self).text().len()
                },
            },
    {
        match exec_find_any(self.content, self.pos, needles) {
            Some(p) => {
                self.pos = p;
                Some(p)
            },
            None => {
                self.pos = self.content.unicode_len();
                None
            },
        }
    }

    /// Find the next `{%` tag named `tag` and either return the position of
    /// its opener, or, with `return_end`, of the position after its close.
    pub fn skip_to_tag(&mut self, tag: &str, return_end: bool) -> (r: Option<usize>)
        requires
            old(self).wf(),
        ensures
            final(self).wf(),
            final(self).text() == old(self).text(),
            final(self).cursor() == find_tag(
                old(self).text(),
                old(self).cursor(),
                tag@,
                return_end,
            ).1,
            match r {
                Some(p) => find_tag(old(self).text(), old(self).cursor(), tag@, return_end).0
                    == Some(p as int),
                None => find_tag(old(self).text(), old(self).cursor(), tag@, return_end).0 is None,
            },
    {
        loop
            invariant
                self.wf(),
                self.text() == old(self).text(),
                find_tag(self.text(), self.cursor(), tag@, return_end) == find_tag(
                    old(self).text(),
                    old(self).cursor(),
                    tag@,
                    return_end,
                ),
            decreases self.text().len() - self.cursor(),
        {
            let ghost pre = self.cursor();
            proof {
                reveal_strlit("{%");
                assert("{%"@ =~= open_marker());
            }
            match self.consume_until("{%") {
                None => {
                    return None;
                },
                Some(tag_start) => {
                    proof {
                        lemma_find_tag_step(self.text(), pre, tag_start as int);
                    }
                    let current_pos = self.pos;
                    self.consume_chars(tag_start - current_pos + 2);
                    self.skip_dash();
                    self.consume_whitespace();
                    if self.peek_matches(tag) {
                        if return_end {
                            let m = tag.unicode_len();
                            self.consume_chars(m);
                            return self.skip_to_tag_close();
                        } else {
                            return Some(tag_start);
                        }
                    }
                },
            }
        }
    }

    /// Get the line and column (1 indexed) of a given offset in the input.
    pub fn get_line_and_column(&self, byte_offset: usize) -> (r: (usize, usize))
        requires
            self.wf(),
            byte_offset as int <= self.text().len(),
        ensures
            r.0 as int == line_of(self.text(), byte_offset as int),
            r.1 as int == col_of(self.text(), byte_offset as int),
    {
        let ghost s = self.text();
        let mut i: usize = 0;
        let mut nl_count: usize = 0;
        let mut ls: usize = 0;
        let mut colb: usize = 0;
        while i < byte_offset
            invariant
                self.wf(),
                s == self.text(),
                i <= byte_offset,
                byte_offset as int <= s.len(),
                nl_count <= i,
                ls <= i,
                nl_count as int == count_nl(s.take(i as int)),
                ls as int == line_start_of(s, i as int),
                colb as int == sat_byte_len(s.subrange(ls as int, i as int)),
            decreases byte_offset - i,
        {
            let c = self.content.get_char(i);
            proof {
                assert(s.take(i + 1).drop_last() =~= s.take(i as int));
                assert(s.take(i + 1).last() == s[i as int]);
            }
            if c == '\n' {
                nl_count = nl_count + 1;
                ls = i + 1;
                colb = 0;
                proof {
                    assert(s.subrange(i + 1, i + 1) =~= Seq::<char>::empty());
                }
            } else {
                proof {
                    assert(s.subrange(ls as int, i + 1).drop_last() =~= s.subrange(
                        ls as int,
                        i as int,
                    ));
                    assert(s.subrange(ls as int, i + 1).last() == s[i as int]);
                }
                colb = colb.saturating_add(utf8_width(c));
            }
            i = i + 1;
        }
        (nl_count.saturating_add(1), colb.saturating_add(1))
    }
}

// ---------------------------------------------------------------------------
// The tag scanner
// ---------------------------------------------------------------------------

/// One left-to-right pass of the block scanner from position `i`, with `left`
/// block slots before the early exit.  The result is the list of
/// `(start, end)` character ranges of the doc-block bodies, or `None` when a
/// `doc` tag misses its close or its `enddoc` tag.
pub open spec fn scan_from(s: Seq<char>, i: int, left: int) -> Option<Seq<(int, int)>>
    decreases s.len() - i,
{
    if !(0 <= i < s.len()) {
        Some(Seq::empty())
    } else if s[i] == '{' && i + 1 < s.len() && s[i + 1] == '%' {
        let w = skip_ws(s, skip_dash_at(s, i + 2));
        proof {
            lemma_skip_ws_bounds(s, skip_dash_at(s, i + 2));
        }
        if peek_word(s, w, kw_hash()) {
            proof {
                lemma_tag_close_bounds(s, w);
            }
            scan_from(s, tag_close(s, w).1, left)
        } else if peek_word(s, w, kw_raw()) {
            proof {
                lemma_find_tag_bounds(s, w, kw_endraw(), true);
            }
            scan_from(s, find_tag(s, w, kw_endraw(), true).1, left)
        } else if peek_word(s, w, kw_comment()) {
            proof {
                lemma_find_tag_bounds(s, w, kw_endcomment(), true);
            }
            scan_from(s, find_tag(s, w, kw_endcomment(), true).1, left)
        } else if peek_word(s, w, kw_doc()) {
            let close = tag_close(s, w + 3);
            if close.0 is None {
                None
            } else {
                let start = close.0->0;
                let tag = find_tag(s, close.1, kw_enddoc(), false);
                if tag.0 is None {
                    None
                } else {
                    let end = tag.0->0;
                    if left == 1 {
                        Some(seq![(start, end)])
                    } else {
                        proof {
                            lemma_tag_close_bounds(s, w + 3);
                            lemma_find_tag_bounds(s, tag_close(s, w + 3).1, kw_enddoc(), false);
                        }
                        match scan_from(s, tag.1, left - 1) {
                            None => None,
                            Some(rest) => Some(seq![(start, end)] + rest),
                        }
                    }
                }
            }
        } else {
            scan_from(s, w, left)
        }
    } else {
        scan_from(s, i + 1, left)
    }
}

/// What [`LiquidDocs::extract_doc_blocks`] yields: `None` when no `enddoc`
/// substring occurs at all, when a `doc` tag misses its close or its `enddoc`
/// tag, or when no block was found; otherwise the scanned block bodies.
pub open spec fn extract_spec(s: Seq<char>) -> Option<Seq<Seq<char>>> {
    let possible = count_occ(s, 0, kw_enddoc());
    if possible == 0 {
        None
    } else {
        match scan_from(s, 0, possible) {
            None => None,
            Some(ps) => {
                if ps.len() == 0 {
                    None
                } else {
                    Some(Seq::new(ps.len(), |k: int| s.subrange(ps[k].0, ps[k].1)))
                }
            },
        }
    }
}

/// The scanner body: one recursive step per scanned character or dispatched
/// tag, each step matching one step of [`scan_from`].
fn scan_rec<'a>(content: &'a str, from: usize, left: usize) -> (r: Option<Vec<&'a str>>)
    requires
        from as int <= content@.len(),
        left >= 1,
    ensures
        ({
            let sf = scan_from(content@, from as int, left as int);
            match r {
                None => sf is None,
                Some(v) => {
                    &&& sf is Some
                    &&& v@.len() == sf->0.len()
                    &&& forall|k: int|
                        0 <= k < v@.len() ==> (#[trigger] v@[k])@ == content@.subrange(
                            sf->0[k].0,
                            sf->0[k].1,
                        )
                },
            }
        }),
    decreases content@.len() - from,
{
    let ghost s = content@;
    let mut parser = LiquidDocs { content, pos: from };
    proof {
        reveal_strlit("#");
        reveal_strlit("raw");
        reveal_strlit("comment");
        reveal_strlit("doc");
        reveal_strlit("endraw");
        reveal_strlit("endcomment");
        reveal_strlit("enddoc");
        assert("#"@ =~= kw_hash());
        assert("raw"@ =~= kw_raw());
        assert("comment"@ =~= kw_comment());
        assert("doc"@ =~= kw_doc());
        assert("endraw"@ =~= kw_endraw());
        assert("endcomment"@ =~= kw_endcomment());
        assert("enddoc"@ =~= kw_enddoc());
    }
    match parser.next() {
        None => Some(Vec::new()),
        Some((_, ch)) => {
            if ch == '{' && parser.peek() == Some('%') {
                parser.next();
                parser.skip_dash();
                parser.consume_whitespace();
                let ghost w = parser.cursor();
                proof {
                    lemma_skip_ws_bounds(s, skip_dash_at(s, from + 2));
                }
                if parser.peek_matches("#") {
                    parser.skip_to_tag_close();
                    proof {
                        lemma_tag_close_bounds(s, w);
                    }
                    return scan_rec(content, parser.pos, left);
                }
                if parser.peek_matches("raw") {
                    parser.skip_to_tag("endraw", true);
                    proof {
                        lemma_find_tag_bounds(s, w, kw_endraw(), true);
                    }
                    return scan_rec(content, parser.pos, left);
                }
                if parser.peek_matches("comment") {
                    parser.skip_to_tag("endcomment", true);
                    proof {
                        lemma_find_tag_bounds(s, w, kw_endcomment(), true);
                    }
                    return scan_rec(content, parser.pos, left);
                }
                if parser.peek_matches("doc") {
                    parser.consume_chars(3);
                    let start = match parser.skip_to_tag_close() {
                        Some(p) => p,
                        None => {
                            return None;
                        },
                    };
                    proof {
                        lemma_tag_close_bounds(s, w + 3);
                    }
                    let end = match parser.skip_to_tag("enddoc", false) {
                        Some(p) => p,
                        None => {
                            return None;
                        },
                    };
                    proof {
                        lemma_find_tag_bounds(s, start as int, kw_enddoc(), false);
                    }
                    let block = content.substring_char(start, end);
                    if left == 1 {
                        let mut v: Vec<&'a str> = Vec::new();
                        v.push(block);
                        proof {
                            assert(v@ =~= seq![block]);
                        }
                        return Some(v);
                    }
                    match scan_rec(content, parser.pos, left - 1) {
                        None => {
                            return None;
                        },
                        Some(mut rest) => {
                            rest.insert(0, block);
                            proof {
                                let sf = scan_from(s, from as int, left as int);
                                let sr = scan_from(s, parser.cursor(), left - 1);
                                assert(sf->0 =~= seq![(start as int, end as int)] + sr->0);
                            }
                            return Some(rest);
                        },
                    }
                }
                scan_rec(content, parser.pos, left)
            } else {
                scan_rec(content, parser.pos, left)
            }
        },
    }
}

impl<'a> LiquidDocs<'a> {
    /// The character under the cursor, if any, without advancing.
    pub fn peek(&self) -> (r: Option<char>)
        requires
            self.wf(),
        ensures
            self.cursor() < self.text().len() ==> r == Some(self.text()[self.cursor()]),
            self.cursor() >= self.text().len() ==> r is None,
    {
        let n = self.content.unicode_len();
        if self.pos < n {
            Some(self.content.get_char(self.pos))
        } else {
            None
        }
    }

    /// Extract a collection of all doc blocks from the given content without
    /// the wrapping doc tag.  Returns `None` exactly when [`extract_spec`]
    /// says so; otherwise the returned slices are the scanned body ranges of
    /// `content`, in source order.
    pub fn extract_doc_blocks(content: &'a str) -> (r: Option<Vec<&'a str>>)
        ensures
            ({
                let ex = extract_spec(content@);
                match r {
                    None => ex is None,
                    Some(v) => {
                        &&& ex is Some
                        &&& v@.len() == ex->0.len()
                        &&& forall|k: int| 0 <= k < v@.len() ==> (#[trigger] v@[k])@ == ex->0[k]
                    },
                }
            }),
    {
        proof {
            reveal_strlit("enddoc");
            assert("enddoc"@ =~= kw_enddoc());
        }
        let possible_doc_blocks = exec_count_occ(content, 0, "enddoc");
        if possible_doc_blocks == 0 {
            return None;
        }
        match scan_rec(content, 0, possible_doc_blocks) {
            None => None,
            Some(v) => {
                if v.len() == 0 {
                    None
                } else {
                    Some(v)
                }
            },
        }
    }
}

// ---------------------------------------------------------------------------
// The content parser: specification
// ---------------------------------------------------------------------------

/// The annotation keywords.
pub open spec fn kw_param() -> Seq<char> {
    seq!['p', 'a', 'r', 'a', 'm']
}

pub open spec fn kw_example() -> Seq<char> {
    seq!['e', 'x', 'a', 'm', 'p', 'l', 'e']
}

pub open spec fn kw_description() -> Seq<char> {
    seq!['d', 'e', 's', 'c', 'r', 'i', 'p', 't', 'i', 'o', 'n']
}

/// The annotation markers that end a description or example section:
/// `@param `, `@example ` and `@description `, each with its trailing space.
pub open spec fn marker_param() -> Seq<char> {
    seq!['@'] + kw_param() + seq![' ']
}

pub open spec fn marker_example() -> Seq<char> {
    seq!['@'] + kw_example() + seq![' ']
}

pub open spec fn marker_description() -> Seq<char> {
    seq!['@'] + kw_description() + seq![' ']
}

pub open spec fn markers() -> Seq<Seq<char>> {
    seq![marker_param(), marker_example(), marker_description()]
}

/// A space or a newline ends an ordinary parameter name.
pub open spec fn name_seps() -> Seq<Seq<char>> {
    seq![seq![' '], seq!['\n']]
}

/// The first marker position at or after `i`, or the end of the text.
pub open spec fn next_marker(s: Seq<char>, i: int) -> int {
    match find_any(s, i, markers()) {
        Some(p) => p,
        None => s.len() as int,
    }
}

/// A declared type name split into its base name and the array marker.
pub open spec fn type_name_parts(raw: Seq<char>) -> (Seq<char>, bool) {
    if raw.len() >= 2 && raw[raw.len() - 2] == '[' && raw[raw.len() - 1] == ']' {
        (raw.take(raw.len() - 2), true)
    } else {
        (raw, false)
    }
}

/// A base type name resolved against the built-ins, then the platform list.
pub open spec fn resolve_base(name: Seq<char>) -> Option<ParamTypeV> {
    if name == "string"@ {
        Some(ParamTypeV::String)
    } else if name == "number"@ {
        Some(ParamTypeV::Number)
    } else if name == "boolean"@ {
        Some(ParamTypeV::Boolean)
    } else if name == "object"@ {
        Some(ParamTypeV::Object)
    } else if is_allowed_object(name) {
        Some(ParamTypeV::Shopify(name))
    } else {
        None
    }
}

/// A trimmed declared type resolved to a parameter type, if it is known.
pub open spec fn resolve_type(raw: Seq<char>) -> Option<ParamTypeV> {
    let parts = type_name_parts(raw);
    match resolve_base(parts.0) {
        None => None,
        Some(t) => Some(
            if parts.1 {
                ParamTypeV::ArrayOf(Box::new(t))
            } else {
                t
            },
        ),
    }
}

/// One `@param` annotation parsed from position `c0`, just after the keyword;
/// `ls` is the annotation's `@` position, where error context starts.
/// Yields the parameter and the cursor position after the annotation.
pub open spec fn parse_param_at(s: Seq<char>, c0: int, ls: int) -> Result<
    (ParamV, int),
    ParsingErrorV,
> {
    let w = skip_ws_nn(s, c0);
    if w >= s.len() {
        Err(ParsingErrorV::UnexpectedParameterEnd(s.subrange(ls, s.len() as int)))
    } else {
        let tr: Result<(Option<ParamTypeV>, int), ParsingErrorV> = if s[w] == '{' {
            match find_from(s, w + 1, seq!['}']) {
                Some(e) => {
                    let raw = trim(s.subrange(w + 1, e));
                    match resolve_type(raw) {
                        None => Err(
                            ParsingErrorV::UnknownParameterType(type_name_parts(raw).0),
                        ),
                        Some(t) => Ok((Some(t), e + 1)),
                    }
                },
                None => Err(ParsingErrorV::UnexpectedParameterEnd(s.subrange(ls, s.len() as int))),
            }
        } else {
            Ok((None, w))
        };
        match tr {
            Err(e) => Err(e),
            Ok((ty, c1)) => {
                let w2 = skip_ws_nn(s, c1);
                if w2 >= s.len() {
                    Err(
                        ParsingErrorV::MissingParameterName {
                            line: line_of(s, ls),
                            column: col_of(s, ls),
                            message: s.subrange(ls, s.len() as int),
                        },
                    )
                } else {
                    let optional = s[w2] == '[';
                    let ns = if optional {
                        w2 + 1
                    } else {
                        w2
                    };
                    let c3 = skip_ws_nn(s, ns);
                    let ne: Option<(int, int)> = if optional {
                        match find_from(s, c3, seq![']']) {
                            Some(e) => Some((e, e + 1)),
                            None => None,
                        }
                    } else {
                        match find_any(s, c3, name_seps()) {
                            Some(e) => Some((e, e)),
                            None => Some((s.len() as int, s.len() as int)),
                        }
                    };
                    match ne {
                        None => Err(
                            ParsingErrorV::MissingOptionalClosingBracket(
                                s.subrange(ls, s.len() as int),
                            ),
                        ),
                        Some((nend, c4)) => {
                            let name = trim(s.subrange(ns, nend));
                            if name.len() == 0 {
                                Err(
                                    ParsingErrorV::MissingParameterName {
                                        line: line_of(s, ls),
                                        column: col_of(s, ls),
                                        message: s.subrange(ls, s.len() as int),
                                    },
                                )
                            } else if contains_char(name, '\n') {
                                Err(
                                    ParsingErrorV::MissingOptionalClosingBracket(
                                        s.subrange(ls, s.len() as int),
                                    ),
                                )
                            } else {
                                let dr: (Option<Seq<char>>, int) = if c4 < s.len() && s[c4]
                                    != '\n' {
                                    let w4 = skip_ws_nn(s, c4);
                                    let dstart = if w4 < s.len() && s[w4] == '-' {
                                        w4 + 1
                                    } else {
                                        w4
                                    };
                                    let dend = match find_from(s, w4, nl_seq()) {
                                        Some(e) => e,
                                        None => s.len() as int,
                                    };
                                    if dend > dstart {
                                        (Some(trim(s.subrange(dstart, dend))), dend)
                                    } else {
                                        (None, dend)
                                    }
                                } else {
                                    (None, c4)
                                };
                                Ok(
                                    (
                                        ParamV {
                                            name,
                                            description: dr.0,
                                            type_: ty,
                                            optional,
                                        },
                                        dr.1,
                                    ),
                                )
                            }
                        },
                    }
                }
            },
        }
    }
}

/// An explicit `@description` annotation read from `c`, the position of the
/// keyword after its `@`: the text up to the next marker, trimmed, with one
/// leading dash stripped.  Yields the description, if one was set, and the
/// cursor afterwards.
pub open spec fn parse_description_at(s: Seq<char>, c: int) -> (Option<Seq<char>>, int) {
    let w = skip_ws(s, c + 11);
    let e = next_marker(s, w);
    if e > w {
        let t = trim(s.subrange(w, e));
        let d = if t.len() > 0 && t[0] == '-' {
            trim(t.skip(1))
        } else {
            t
        };
        (Some(d), e)
    } else {
        (None, e)
    }
}

/// An `@example` annotation read from `c`, the position of the keyword after
/// its `@`: the region up to the next marker, dedented.  Yields the example,
/// if it is non-empty, and the cursor afterwards.
pub open spec fn parse_example_at(s: Seq<char>, c: int) -> (Option<Seq<char>>, int) {
    let w5 = skip_ws_nn(s, c + 7);
    let e = next_marker(s, w5);
    let ex = example_text(s.subrange(w5, e));
    (
        if ex.len() > 0 {
            Some(ex)
        } else {
            None
        },
        e,
    )
}

/// The `@example` check made after a parameter or a skipped annotation.
pub open spec fn example_step(s: Seq<char>, c: int, db: DocBlockV) -> (DocBlockV, int) {
    if peek_word(s, c, kw_example()) {
        let r = parse_example_at(s, c);
        (
            match r.0 {
                Some(ex) => DocBlockV { example: db.example.push(ex), ..db },
                None => db,
            },
            r.1,
        )
    } else {
        (db, c)
    }
}

pub proof fn lemma_next_marker_bounds(s: Seq<char>, i: int)
    requires
        0 <= i <= s.len(),
    ensures
        i <= next_marker(s, i) <= s.len(),
{
    lemma_find_any_bounds(s, i, markers());
}

pub proof fn lemma_parse_description_bounds(s: Seq<char>, c: int)
    requires
        0 <= c,
        c + 11 <= s.len(),
    ensures
        c + 11 <= parse_description_at(s, c).1 <= s.len(),
{
    lemma_skip_ws_bounds(s, c + 11);
    lemma_next_marker_bounds(s, skip_ws(s, c + 11));
}

pub proof fn lemma_parse_example_bounds(s: Seq<char>, c: int)
    requires
        0 <= c,
        c + 7 <= s.len(),
    ensures
        c + 7 <= parse_example_at(s, c).1 <= s.len(),
{
    lemma_skip_ws_nn_bounds(s, c + 7);
    lemma_next_marker_bounds(s, skip_ws_nn(s, c + 7));
}

/// The cursor of [`example_step`] does not depend on the block built so far.
pub proof fn lemma_example_step_bounds(s: Seq<char>, c: int)
    requires
        0 <= c <= s.len(),
    ensures
        c <= (if peek_word(s, c, kw_example()) {
            parse_example_at(s, c).1
        } else {
            c
        }) <= s.len(),
{
    if peek_word(s, c, kw_example()) {
        lemma_parse_example_bounds(s, c);
    }
}

pub proof fn lemma_parse_param_bounds(s: Seq<char>, c0: int, ls: int)
    requires
        0 <= c0 <= s.len(),
    ensures
        parse_param_at(s, c0, ls) is Ok ==> c0 <= parse_param_at(s, c0, ls)->Ok_0.1 <= s.len(),
{
    let w = skip_ws_nn(s, c0);
    lemma_skip_ws_nn_bounds(s, c0);
    if w < s.len() {
        if s[w] == '{' {
            lemma_find_from_bounds(s, w + 1, seq!['}']);
        }
        match (if s[w] == '{' {
            find_from(s, w + 1, seq!['}'])
        } else {
            None
        }) {
            Some(_) => {},
            None => {},
        }
        // Walk the same positions the definition walks.
        let c1 = if s[w] == '{' {
            match find_from(s, w + 1, seq!['}']) {
                Some(e) => e + 1,
                None => w,
            }
        } else {
            w
        };
        assert(c0 <= c1 <= s.len());
        let w2 = skip_ws_nn(s, c1);
        lemma_skip_ws_nn_bounds(s, c1);
        if w2 < s.len() {
            let optional = s[w2] == '[';
            let ns = if optional {
                w2 + 1
            } else {
                w2
            };
            let c3 = skip_ws_nn(s, ns);
            lemma_skip_ws_nn_bounds(s, ns);
            if optional {
                lemma_find_from_bounds(s, c3, seq![']']);
            } else {
                lemma_find_any_bounds(s, c3, name_seps());
            }
            let c4 = if optional {
                match find_from(s, c3, seq![']']) {
                    Some(e) => e + 1,
                    None => c3,
                }
            } else {
                match find_any(s, c3, name_seps()) {
                    Some(e) => e,
                    None => s.len() as int,
                }
            };
            assert(c0 <= c4 <= s.len() + 1);
            if c4 < s.len() && s[c4] != '\n' {
                let w4 = skip_ws_nn(s, c4);
                lemma_skip_ws_nn_bounds(s, c4);
                lemma_find_from_bounds(s, w4, nl_seq());
            }
        }
    }
}

/// The annotation dispatch after a consumed `@` at `i`: an explicit
/// description, then `@param`, then `@example`, the cursor walking on.
pub open spec fn annotations_step(s: Seq<char>, i: int, db: DocBlockV) -> Result<
    (DocBlockV, int),
    ParsingErrorV,
> {
    let b1 = if peek_word(s, i + 1, kw_description()) && db.description.len() == 0 {
        let rr = parse_description_at(s, i + 1);
        (
            match rr.0 {
                Some(d) => DocBlockV { description: d, ..db },
                None => db,
            },
            rr.1,
        )
    } else {
        (db, i + 1)
    };
    if peek_word(s, b1.1, kw_param()) {
        match parse_param_at(s, b1.1 + 5, i) {
            Err(e) => Err(e),
            Ok((p, c2)) => {
                let db2 = if !param_v_default(p) {
                    DocBlockV { param: b1.0.param.push(p), ..b1.0 }
                } else {
                    b1.0
                };
                let b3 = example_step(s, c2, db2);
                Ok((b3.0, b3.1))
            },
        }
    } else {
        let b3 = example_step(s, b1.1, b1.0);
        Ok((b3.0, b3.1))
    }
}

pub proof fn lemma_annotations_bounds(s: Seq<char>, i: int, db: DocBlockV)
    requires
        0 <= i < s.len(),
    ensures
        annotations_step(s, i, db) is Ok ==> i + 1 <= annotations_step(s, i, db)->Ok_0.1
            <= s.len(),
{
    let b1c = if peek_word(s, i + 1, kw_description()) && db.description.len() == 0 {
        lemma_parse_description_bounds(s, i + 1);
        parse_description_at(s, i + 1).1
    } else {
        i + 1
    };
    assert(i + 1 <= b1c <= s.len());
    if peek_word(s, b1c, kw_param()) {
        lemma_parse_param_bounds(s, b1c + 5, i);
        match parse_param_at(s, b1c + 5, i) {
            Err(_) => {},
            Ok((p, c2)) => {
                lemma_example_step_bounds(s, c2);
            },
        }
    } else {
        lemma_example_step_bounds(s, b1c);
    }
}

/// The content parser proper: one step per scanned character or parsed
/// annotation, threading the block built so far.  The scan starts after the
/// leading whitespace; an empty result reports
/// [`ParsingErrorV::NoDocContentFound`].
pub open spec fn parse_from(s: Seq<char>, i: int, db: DocBlockV) -> Result<
    DocBlockV,
    ParsingErrorV,
>
    decreases s.len() - i,
{
    if !(0 <= i < s.len()) {
        if doc_block_v_empty(db) {
            Err(ParsingErrorV::NoDocContentFound)
        } else {
            Ok(db)
        }
    } else if s[i] != '@' {
        if db.description.len() == 0 {
            let e = next_marker(s, i + 1);
            proof {
                lemma_next_marker_bounds(s, i + 1);
            }
            parse_from(s, e, DocBlockV { description: trim(s.subrange(i, e)), ..db })
        } else {
            parse_from(s, i + 1, db)
        }
    } else {
        match annotations_step(s, i, db) {
            Err(e) => Err(e),
            Ok((db3, c3)) => {
                proof {
                    lemma_annotations_bounds(s, i, db);
                }
                parse_from(s, c3, db3)
            },
        }
    }
}

/// The empty block a parse starts from.
pub open spec fn empty_doc_block_v() -> DocBlockV {
    DocBlockV { description: Seq::empty(), param: Seq::empty(), example: Seq::empty() }
}

/// What [`LiquidDocs::parse_doc_content`] yields for a block body.
pub open spec fn parse_doc_spec(s: Seq<char>) -> Result<DocBlockV, ParsingErrorV> {
    parse_from(s, skip_ws(s, 0), empty_doc_block_v())
}

// ---------------------------------------------------------------------------
// The content parser: implementation
// ---------------------------------------------------------------------------

/// A position carries a marker exactly when one of the three annotation
/// markers occurs there.
proof fn lemma_marker_any(s: Seq<char>, i: int)
    ensures
        match_any(s, i, markers()) <==> (match_at(s, i, marker_param()) || match_at(
            s,
            i,
            marker_example(),
        ) || match_at(s, i, marker_description())),
{
    if match_any(s, i, markers()) {
        let k = choose|k: int| 0 <= k < markers().len() && match_at(s, i, markers()[k]);
        assert(k == 0 || k == 1 || k == 2);
    }
    if match_at(s, i, marker_param()) {
        assert(match_at(s, i, markers()[0]));
    }
    if match_at(s, i, marker_example()) {
        assert(match_at(s, i, markers()[1]));
    }
    if match_at(s, i, marker_description()) {
        assert(match_at(s, i, markers()[2]));
    }
}

fn exec_find_marker(s: &str, i: usize) -> (r: Option<usize>)
    requires
        i <= s@.len(),
    ensures
        match r {
            Some(p) => find_any(s@, i as int, markers()) == Some(p as int) && i <= p <= s@.len(),
            None => find_any(s@, i as int, markers()) is None,
        },
    decreases s@.len() - i,
{
    proof {
        reveal_strlit("@param ");
        reveal_strlit("@example ");
        reveal_strlit("@description ");
        assert("@param "@ =~= marker_param());
        assert("@example "@ =~= marker_example());
        assert("@description "@ =~= marker_description());
        lemma_marker_any(s@, i as int);
    }
    let n = s.unicode_len();
    if i >= n {
        None
    } else if exec_match_at(s, i, "@param ") || exec_match_at(s, i, "@example ") || exec_match_at(
        s,
        i,
        "@description ",
    ) {
        Some(i)
    } else {
        exec_find_marker(s, i + 1)
    }
}

/// A position carries a name separator exactly when it holds a space or a
/// newline.
proof fn lemma_sep_any(s: Seq<char>, i: int)
    ensures
        match_any(s, i, name_seps()) <==> (0 <= i && i + 1 <= s.len() && (s[i] == ' ' || s[i]
            == '\n')),
{
    if match_any(s, i, name_seps()) {
        let k = choose|k: int| 0 <= k < name_seps().len() && match_at(s, i, name_seps()[k]);
        assert(k == 0 || k == 1);
        if k == 0 {
            assert(s[i + 0] == name_seps()[0][0]);
        } else {
            assert(s[i + 0] == name_seps()[1][0]);
        }
    }
    if 0 <= i && i + 1 <= s.len() {
        if s[i] == ' ' {
            assert(match_at(s, i, name_seps()[0])) by {
                assert(forall|j: int| 0 <= j < 1 ==> s[i + j] == name_seps()[0][j]);
            }
        }
        if s[i] == '\n' {
            assert(match_at(s, i, name_seps()[1])) by {
                assert(forall|j: int| 0 <= j < 1 ==> s[i + j] == name_seps()[1][j]);
            }
        }
    }
}

fn exec_find_sep(s: &str, i: usize) -> (r: Option<usize>)
    requires
        i <= s@.len(),
    ensures
        match r {
            Some(p) => find_any(s@, i as int, name_seps()) == Some(p as int) && i <= p <= s@.len(),
            None => find_any(s@, i as int, name_seps()) is None,
        },
    decreases s@.len() - i,
{
    proof {
        lemma_sep_any(s@, i as int);
    }
    let n = s.unicode_len();
    if i >= n {
        None
    } else {
        let c = s.get_char(i);
        if c == ' ' || c == '\n' {
            Some(i)
        } else {
            exec_find_sep(s, i + 1)
        }
    }
}

impl<'a> LiquidDocs<'a> {
    /// Consume up to the next annotation marker; the cursor stops on it, or
    /// at the end when there is none.
    fn consume_until_marker(&mut self) -> (r: Option<usize>)
        requires
            old(self).wf(),
        ensures
            final(self).wf(),
            final(self).text() == old(self).text(),
            match r {
                Some(p) => {
                    &&& find_any(old(self).text(), old(self).cursor(), markers()) == Some(p as int)
                    &&& final(self).cursor() == p as int
                },
                None => {
                    &&& find_any(old(self).text(), old(self).cursor(), markers()) is None
                    &&& final(self).cursor() == old(self).text().len()
                },
            },
    {
        match exec_find_marker(self.content, self.pos) {
            Some(p) => {
                self.pos = p;
                Some(p)
            },
            None => {
                self.pos = self.content.unicode_len();
                None
            },
        }
    }

    /// Consume up to the next space or newline; the cursor stops on it, or at
    /// the end when there is none.
    fn consume_until_name_sep(&mut self) -> (r: Option<usize>)
        requires
            old(self).wf(),
        ensures
            final(self).wf(),
            final(self).text() == old(self).text(),
            match r {
                Some(p) => {
                    &&& find_any(old(self).text(), old(self).cursor(), name_seps()) == Some(
                        p as int,
                    )
                    &&& final(self).cursor() == p as int
                },
                None => {
                    &&& find_any(old(self).text(), old(self).cursor(), name_seps()) is None
                    &&& final(self).cursor() == old(self).text().len()
                },
            },
    {
        match exec_find_sep(self.content, self.pos) {
            Some(p) => {
                self.pos = p;
                Some(p)
            },
            None => {
                self.pos = self.content.unicode_len();
                None
            },
        }
    }
}

/// One `@param` annotation, parsed from `c0` just after the keyword;
/// `line_start` is the position of its `@`.
fn parse_param<'a>(content: &'a str, c0: usize, line_start: usize) -> (r: Result<
    (Param, usize),
    ParsingError,
>)
    requires
        c0 as int <= content@.len(),
        line_start as int <= content@.len(),
    ensures
        ({
            let pr = parse_param_at(content@, c0 as int, line_start as int);
            match r {
                Ok((p, c)) => {
                    &&& pr is Ok
                    &&& p@ == pr->Ok_0.0
                    &&& c as int == pr->Ok_0.1
                    &&& c as int <= content@.len()
                },
                Err(e) => pr is Err && e@ == pr->Err_0,
            }
        }),
{
    let ghost s = content@;
    let n = content.unicode_len();
    let mut parser = LiquidDocs { content, pos: c0 };
    parser.consume_whitespace_until_newline();
    let w = parser.pos;
    if w >= n {
        return Err(
            ParsingError::UnexpectedParameterEnd(
                String::from_str(content.substring_char(line_start, n)),
            ),
        );
    }
    let mut type_: Option<ParamType> = None;
    if content.get_char(w) == '{' {
        parser.next();
        proof {
            reveal_strlit("}");
            assert("}"@ =~= seq!['}']);
        }
        match parser.consume_until("}") {
            Some(e) => {
                proof {
                    lemma_find_from_bounds(s, w + 1, seq!['}']);
                }
                let raw = exec_trim(content.substring_char(w + 1, e));
                let rn = raw.unicode_len();
                let ghost rv = trim(s.subrange(w + 1, e as int));
                proof {
                    assert(raw@ == rv);
                }
                let mut base = raw;
                let mut is_array = false;
                if rn >= 2 && raw.get_char(rn - 2) == '[' && raw.get_char(rn - 1) == ']' {
                    base = raw.substring_char(0, rn - 2);
                    is_array = true;
                    proof {
                        assert(base@ =~= type_name_parts(rv).0);
                    }
                }
                proof {
                    assert(base@ == type_name_parts(rv).0);
                    assert(is_array == type_name_parts(rv).1);
                }
                let explicit: ParamType;
                if str_eq_str(base, "string") {
                    explicit = ParamType::String;
                } else if str_eq_str(base, "number") {
                    explicit = ParamType::Number;
                } else if str_eq_str(base, "boolean") {
                    explicit = ParamType::Boolean;
                } else if str_eq_str(base, "object") {
                    explicit = ParamType::Object;
                } else if allowed_object(base) {
                    explicit = ParamType::Shopify(String::from_str(base));
                } else {
                    return Err(ParsingError::UnknownParameterType(String::from_str(base)));
                }
                proof {
                    assert(resolve_base(type_name_parts(rv).0) is Some);
                    assert(explicit@ == resolve_base(type_name_parts(rv).0)->0);
                }
                if is_array {
                    type_ = Some(ParamType::ArrayOf(Box::new(explicit)));
                } else {
                    type_ = Some(explicit);
                }
                proof {
                    assert(type_ is Some);
                    assert(type_->0@ == resolve_type(rv)->0);
                }
                parser.next();
            },
            None => {
                return Err(
                    ParsingError::UnexpectedParameterEnd(
                        String::from_str(content.substring_char(line_start, n)),
                    ),
                );
            },
        }
    }
    parser.consume_whitespace_until_newline();
    let w2 = parser.pos;
    if w2 >= n {
        let lc = parser.get_line_and_column(line_start);
        return Err(
            ParsingError::MissingParameterName {
                line: lc.0,
                column: lc.1,
                message: String::from_str(content.substring_char(line_start, n)),
            },
        );
    }
    let optional = content.get_char(w2) == '[';
    let name_start = if optional {
        w2 + 1
    } else {
        w2
    };
    if optional {
        parser.next();
    }
    parser.consume_whitespace_until_newline();
    let name_end: usize;
    if optional {
        proof {
            reveal_strlit("]");
            assert("]"@ =~= seq![']']);
        }
        match parser.consume_until("]") {
            Some(e) => {
                proof {
                    lemma_find_from_bounds(s, skip_ws_nn(s, name_start as int), seq![']']);
                }
                name_end = e;
            },
            None => {
                return Err(
                    ParsingError::MissingOptionalClosingBracket(
                        String::from_str(content.substring_char(line_start, n)),
                    ),
                );
            },
        }
    } else {
        name_end = match parser.consume_until_name_sep() {
            Some(e) => {
                proof {
                    lemma_find_any_bounds(s, skip_ws_nn(s, name_start as int), name_seps());
                }
                e
            },
            None => n,
        };
    }
    proof {
        lemma_skip_ws_nn_bounds(s, name_start as int);
    }
    let name = String::from_str(exec_trim(content.substring_char(name_start, name_end)));
    if optional {
        parser.next();
    }
    if name.as_str().is_empty() {
        let lc = parser.get_line_and_column(line_start);
        return Err(
            ParsingError::MissingParameterName {
                line: lc.0,
                column: lc.1,
                message: String::from_str(content.substring_char(line_start, n)),
            },
        );
    }
    if exec_contains_char(name.as_str(), '\n') {
        return Err(
            ParsingError::MissingOptionalClosingBracket(
                String::from_str(content.substring_char(line_start, n)),
            ),
        );
    }
    let mut description: Option<String> = None;
    let pk = parser.peek();
    if pk.is_some() {
        let pc = pk.unwrap();
        if pc != '\n' {
            parser.consume_whitespace_until_newline();
            let w4 = parser.pos;
            let dstart = if w4 < n && content.get_char(w4) == '-' {
                w4 + 1
            } else {
                w4
            };
            proof {
                reveal_strlit("\n");
                assert("\n"@ =~= nl_seq());
            }
            let dend = match parser.consume_until("\n") {
                Some(e) => {
                    proof {
                        lemma_find_from_bounds(s, w4 as int, nl_seq());
                    }
                    e
                },
                None => n,
            };
            if dend > dstart {
                description = Some(
                    String::from_str(exec_trim(content.substring_char(dstart, dend))),
                );
            }
        }
    }
    let param = Param { name, description, type_, optional };
    Ok((param, parser.pos))
}

/// The annotation dispatch of one parser step, after its `@` was consumed;
/// `line_start` is the position of that `@`.
#[verifier::rlimit(100)]
#[verifier::spinoff_prover]
fn parse_annotations<'a>(content: &'a str, line_start: usize, db: DocBlock) -> (r: Result<
    (DocBlock, usize),
    ParsingError,
>)
    requires
        (line_start as int) < content@.len(),
    ensures
        ({
            let ar = annotations_step(content@, line_start as int, db@);
            match r {
                Ok((b, c)) => {
                    &&& ar is Ok
                    &&& b@ == ar->Ok_0.0
                    &&& c as int == ar->Ok_0.1
                    &&& c as int <= content@.len()
                },
                Err(e) => ar is Err && e@ == ar->Err_0,
            }
        }),
{
    let ghost s = content@;
    let ghost db0 = db@;
    let n = content.unicode_len();
    let mut doc_block = db;
    let mut parser = LiquidDocs { content, pos: line_start + 1 };
    proof {
        reveal_strlit("description");
        reveal_strlit("param");
        reveal_strlit("example");
        assert("description"@ =~= kw_description());
        assert("param"@ =~= kw_param());
        assert("example"@ =~= kw_example());
    }
    if parser.peek_matches("description") && doc_block.description.as_str().is_empty() {
        parser.consume_chars(11);
        parser.consume_whitespace();
        let start_pos = parser.pos;
        let e = match parser.consume_until_marker() {
            Some(p) => p,
            None => n,
        };
        proof {
            lemma_skip_ws_bounds(s, line_start + 12);
            lemma_find_any_bounds(s, start_pos as int, markers());
        }
        if e > start_pos {
            let t = exec_trim(content.substring_char(start_pos, e));
            let tn = t.unicode_len();
            let d = if tn > 0 && t.get_char(0) == '-' {
                let stripped = t.substring_char(1, tn);
                proof {
                    assert(stripped@ =~= t@.skip(1));
                }
                exec_trim(stripped)
            } else {
                t
            };
            doc_block.description = String::from_str(d);
            proof {
                assert(doc_block@.param =~= db0.param);
                assert(doc_block@.example =~= db0.example);
            }
        }
    }
    proof {
        let b1 = if peek_word(s, line_start + 1, kw_description()) && db0.description.len() == 0 {
            let rr = parse_description_at(s, line_start + 1);
            (
                match rr.0 {
                    Some(d) => DocBlockV { description: d, ..db0 },
                    None => db0,
                },
                rr.1,
            )
        } else {
            (db0, line_start + 1 as int)
        };
        assert(doc_block@ == b1.0);
        assert(parser.cursor() == b1.1);
    }
    if parser.peek_matches("param") {
        parser.consume_chars(5);
        let c0 = parser.pos;
        match parse_param(content, c0, line_start) {
            Err(e) => {
                return Err(e);
            },
            Ok((param, c2)) => {
                parser.pos = c2;
                let keep = !(param.name.as_str().is_empty() && param.description.is_none()
                    && param.type_.is_none() && !param.optional);
                let ghost pv = param@;
                if keep {
                    let ghost before = doc_block@;
                    doc_block.param.push(param);
                    proof {
                        assert(doc_block@.param =~= before.param.push(pv));
                        assert(doc_block@.description =~= before.description);
                        assert(doc_block@.example =~= before.example);
                    }
                }
            },
        }
    }
    let ghost db2 = doc_block@;
    let ghost c2g = parser.cursor();
    if parser.peek_matches("example") {
        parser.consume_chars(7);
        parser.consume_whitespace_until_newline();
        let start_pos = parser.pos;
        let e = match parser.consume_until_marker() {
            Some(p) => p,
            None => n,
        };
        proof {
            lemma_skip_ws_nn_bounds(s, c2g + 7);
            lemma_find_any_bounds(s, start_pos as int, markers());
        }
        let example = exec_example_text(content.substring_char(start_pos, e));
        if !example.as_str().is_empty() {
            let ghost before = doc_block@;
            let ghost ev = example@;
            doc_block.example.push(example);
            proof {
                assert(doc_block@.example =~= before.example.push(ev));
                assert(doc_block@.description =~= before.description);
                assert(doc_block@.param =~= before.param);
            }
        }
    }
    proof {
        let st = example_step(s, c2g, db2);
        assert(doc_block@ == st.0);
        assert(parser.cursor() == st.1);
    }
    Ok((doc_block, parser.pos))
}

/// The parser body: one recursive step per scanned character or parsed
/// annotation, threading the block built so far.
fn parse_rec<'a>(content: &'a str, from: usize, db: DocBlock) -> (r: Result<
    DocBlock,
    ParsingError,
>)
    requires
        from as int <= content@.len(),
    ensures
        ({
            let pr = parse_from(content@, from as int, db@);
            match r {
                Ok(b) => pr is Ok && b@ == pr->Ok_0,
                Err(e) => pr is Err && e@ == pr->Err_0,
            }
        }),
    decreases content@.len() - from,
{
    let ghost s = content@;
    let ghost db0 = db@;
    let n = content.unicode_len();
    let mut doc_block = db;
    let mut parser = LiquidDocs { content, pos: from };
    match parser.next() {
        None => {
            if doc_block.description.as_str().is_empty() && doc_block.param.len() == 0
                && doc_block.example.len() == 0 {
                Err(ParsingError::NoDocContentFound)
            } else {
                Ok(doc_block)
            }
        },
        Some((line_start, ch)) => {
            if ch != '@' {
                if doc_block.description.as_str().is_empty() {
                    let e = match parser.consume_until_marker() {
                        Some(p) => p,
                        None => n,
                    };
                    proof {
                        lemma_find_any_bounds(s, from + 1, markers());
                    }
                    doc_block.description = String::from_str(
                        exec_trim(content.substring_char(line_start, e)),
                    );
                    proof {
                        assert(doc_block@.param =~= db0.param);
                        assert(doc_block@.example =~= db0.example);
                    }
                }
                proof {
                    assert(from < parser.cursor());
                }
                parse_rec(content, parser.pos, doc_block)
            } else {
                match parse_annotations(content, line_start, doc_block) {
                    Err(e) => Err(e),
                    Ok((db3, c3)) => {
                        proof {
                            lemma_annotations_bounds(s, from as int, db0);
                        }
                        parse_rec(content, c3, db3)
                    },
                }
            }
        },
    }
}

impl<'a> LiquidDocs<'a> {
    /// Parse doc block content into a [`DocBlock`], or the error of the first
    /// malformed annotation.  The result is exactly what [`parse_doc_spec`]
    /// yields for the body's characters.
    pub fn parse_doc_content(content: &'a str) -> (r: Result<DocBlock, ParsingError>)
        ensures
            ({
                let pr = parse_doc_spec(content@);
                match r {
                    Ok(b) => pr is Ok && b@ == pr->Ok_0,
                    Err(e) => pr is Err && e@ == pr->Err_0,
                }
            }),
    {
        let doc_block = DocBlock::default();
        let start = exec_skip_ws(content, 0);
        proof {
            assert(doc_block@ =~~= empty_doc_block_v());
        }
        parse_rec(content, start, doc_block)
    }
}

/// Width of a character in its UTF-8 encoding.
fn utf8_width(c: char) -> (r: usize)
    ensures
        r as int == utf8_len_char(c),
{
    let u = c as u32;
    if u < 0x80 {
        1
    } else if u < 0x800 {
        2
    } else if u < 0x10000 {
        3
    } else {
        4
    }
}

} // verus!
