//! A reduced variant of the scanner and parser: the same block extraction,
//! and a lighter content parser that reads descriptions and bare `@param`
//! type names only.

use vstd::prelude::*;

use crate::liquid_docs::{empty_doc_block_v, extract_spec, kw_description, kw_param, scan_from};
use crate::text::{
    exec_count_occ, exec_find_from, exec_peek_word, exec_skip_dash, exec_skip_ws, exec_trim,
    find_from, find_tag, kw_comment, kw_doc, kw_endcomment, kw_enddoc, kw_endraw,
    kw_hash, kw_raw, lemma_find_from_bounds, lemma_find_tag_bounds, lemma_find_tag_step,
    lemma_skip_ws_bounds, lemma_tag_close_bounds, match_at, open_marker, peek_word, push_char,
    skip_dash_at, skip_ws, tag_close, trim,
};
use crate::{doc_block_v_empty, DocBlock, DocBlockV, Param, ParamType, ParamTypeV, ParamV};

verus! {

/// The reduced parser's type keywords.
pub open spec fn kw_string() -> Seq<char> {
    seq!['s', 't', 'r', 'i', 'n', 'g']
}

pub open spec fn kw_number() -> Seq<char> {
    seq!['n', 'u', 'm', 'b', 'e', 'r']
}

pub open spec fn kw_boolean() -> Seq<char> {
    seq!['b', 'o', 'o', 'l', 'e', 'a', 'n']
}

pub open spec fn kw_object() -> Seq<char> {
    seq!['o', 'b', 'j', 'e', 'c', 't']
}

/// The reduced parser's `@description` step at the `@` position `i`: the keyword and one
/// further character are consumed, the text from just past the keyword up to
/// the next `@` becomes the description, and the cursor walks as far again.
pub open spec fn twp_description_step(s: Seq<char>, i: int) -> (Seq<char>, int) {
    let c = if i + 13 <= s.len() {
        i + 13
    } else {
        s.len() as int
    };
    let start = i + 12;
    let ec = match find_from(s, c, seq!['@']) {
        Some(p) => p,
        None => s.len() as int,
    };
    let d = trim(s.subrange(start, ec));
    let c2 = if ec + (ec - start) <= s.len() {
        ec + (ec - start)
    } else {
        s.len() as int
    };
    (d, c2)
}

/// The reduced parser's `@param` step from `c`, the keyword position after its `@`: when
/// a `{` follows, one of the four built-in type names sets the type; an
/// unknown one skips to the next `@` and drops the parameter.  The first
/// component says whether a parameter is appended, and with which type.
pub open spec fn twp_param_step(s: Seq<char>, c: int) -> (Option<Option<ParamTypeV>>, int) {
    let c6 = if c + 6 <= s.len() {
        c + 6
    } else {
        s.len() as int
    };
    let w = skip_ws(s, c6);
    if w >= s.len() {
        (None, w)
    } else if s[w] == '{' {
        let w2 = skip_ws(s, w + 1);
        if peek_word(s, w2, kw_string()) {
            (Some(Some(ParamTypeV::String)), skip_ws(s, w2))
        } else if peek_word(s, w2, kw_number()) {
            (Some(Some(ParamTypeV::Number)), skip_ws(s, w2))
        } else if peek_word(s, w2, kw_boolean()) {
            (Some(Some(ParamTypeV::Boolean)), skip_ws(s, w2))
        } else if peek_word(s, w2, kw_object()) {
            (Some(Some(ParamTypeV::Object)), skip_ws(s, w2))
        } else {
            let e2 = match find_from(s, w2, seq!['@']) {
                Some(p) => p,
                None => s.len() as int,
            };
            (None, skip_ws(s, e2))
        }
    } else {
        (Some(None), skip_ws(s, w))
    }
}

pub proof fn lemma_twp_description_bounds(s: Seq<char>, i: int)
    requires
        0 <= i,
        i + 12 <= s.len(),
    ensures
        i + 12 <= twp_description_step(s, i).1 <= s.len(),
{
    let c = if i + 13 <= s.len() {
        i + 13
    } else {
        s.len() as int
    };
    lemma_find_from_bounds(s, c, seq!['@']);
}

pub proof fn lemma_twp_param_bounds(s: Seq<char>, c: int)
    requires
        0 <= c,
        c + 5 <= s.len(),
    ensures
        c < twp_param_step(s, c).1 <= s.len(),
{
    let c6 = if c + 6 <= s.len() {
        c + 6
    } else {
        s.len() as int
    };
    lemma_skip_ws_bounds(s, c6);
    let w = skip_ws(s, c6);
    if w < s.len() && s[w] == '{' {
        lemma_skip_ws_bounds(s, w + 1);
        let w2 = skip_ws(s, w + 1);
        lemma_skip_ws_bounds(s, w2);
        lemma_find_from_bounds(s, w2, seq!['@']);
        match find_from(s, w2, seq!['@']) {
            Some(p) => {
                lemma_skip_ws_bounds(s, p);
            },
            None => {
                lemma_skip_ws_bounds(s, s.len() as int);
            },
        }
    } else {
        lemma_skip_ws_bounds(s, w);
    }
}

/// The reduced content parser: accumulates scanned characters into a buffer
/// while no description is set; the buffer's trimmed content becomes the
/// description at the next `@`.
pub open spec fn twp_parse_from(s: Seq<char>, i: int, buf: Seq<char>, db: DocBlockV) -> Option<
    DocBlockV,
>
    decreases s.len() - i,
{
    if !(0 <= i < s.len()) {
        if doc_block_v_empty(db) {
            None
        } else {
            Some(db)
        }
    } else {
        let ch = s[i];
        let buf1 = if db.description.len() == 0 && ch != '@' {
            buf.push(ch)
        } else {
            buf
        };
        let taken = db.description.len() == 0 && ch == '@' && buf1.len() > 0;
        let db1 = if taken {
            DocBlockV { description: trim(buf1), ..db }
        } else {
            db
        };
        let buf2 = if taken {
            Seq::empty()
        } else {
            buf1
        };
        if ch == '@' {
            let b1 = if peek_word(s, i + 1, kw_description()) && db1.description.len() == 0 {
                let dd = twp_description_step(s, i);
                (DocBlockV { description: dd.0, ..db1 }, dd.1)
            } else {
                (db1, i + 1)
            };
            proof {
                if peek_word(s, i + 1, kw_description()) && db1.description.len() == 0 {
                    lemma_twp_description_bounds(s, i);
                }
            }
            if peek_word(s, b1.1, kw_param()) {
                let ps = twp_param_step(s, b1.1);
                let db2 = match ps.0 {
                    Some(ty) => DocBlockV {
                        param: b1.0.param.push(
                            ParamV {
                                name: Seq::empty(),
                                description: None,
                                type_: ty,
                                optional: false,
                            },
                        ),
                        ..b1.0
                    },
                    None => b1.0,
                };
                proof {
                    lemma_twp_param_bounds(s, b1.1);
                }
                twp_parse_from(s, ps.1, buf2, db2)
            } else {
                twp_parse_from(s, b1.1, buf2, b1.0)
            }
        } else {
            twp_parse_from(s, i + 1, buf2, db1)
        }
    }
}

/// The main struct that parses the content of liquid files: a character
/// cursor over the scanned text.
pub struct TwpTypes<'a> {
    content: &'a str,
    pos: usize,
}

impl<'a> TwpTypes<'a> {
    /// The character sequence being scanned.
    pub closed spec fn text(&self) -> Seq<char> {
        self.content@
    }

    /// The current cursor position, a character index.
    pub closed spec fn cursor(&self) -> int {
        self.pos as int
    }

    /// The cursor never passes the end of the text.
    pub open spec fn wf(&self) -> bool {
        self.cursor() <= self.text().len()
    }

    /// A cursor at the start of `content`.
    pub fn new(content: &'a str) -> (r: Self)
        ensures
            r.wf(),
            r.text() == content@,
            r.cursor() == 0,
    {
        TwpTypes { content, pos: 0 }
    }

    /// The character under the cursor with its position; advances by one.
    fn next(&mut self) -> (r: Option<(usize, char)>)
        requires
            old(self).wf(),
        ensures
            final(self).wf(),
            final(self).text() == old(self).text(),
            old(self).cursor() < old(self).text().len() ==> {
                &&& r is Some
                &&& (r->0).0 as int == old(self).cursor()
                &&& (r->0).1 == old(self).text()[old(self).cursor()]
                &&& final(self).cursor() == old(self).cursor() + 1
            },
            old(self).cursor() >= old(self).text().len() ==> {
                &&& r is None
                &&& final(self).cursor() == old(self).cursor()
            },
    {
        let n = self.content.unicode_len();
        if self.pos < n {
            let c = self.content.get_char(self.pos);
            let p = self.pos;
            self.pos = self.pos + 1;
            Some((p, c))
        } else {
            None
        }
    }

    /// The character under the cursor, if any, without advancing.
    fn peek(&self) -> (r: Option<char>)
        requires
            self.wf(),
        ensures
            self.cursor() < self.text().len() ==> r == Some(self.text()[self.cursor()]),
            self.cursor() >= self.text().len() ==> r is None,
    {
        let n = self.content.unicode_len();
        if self.pos < n {
            Some(self.content.get_char(self.pos))
        } else {
            None
        }
    }

    /// Move the cursor to the next non-whitespace character.
    pub fn skip_whitespace(&mut self)
        requires
            old(self).wf(),
        ensures
            final(self).wf(),
            final(self).text() == old(self).text(),
            final(self).cursor() == skip_ws(old(self).text(), old(self).cursor()),
    {
        self.pos = exec_skip_ws(self.content, self.pos);
    }

    /// Skip an optional dash character for whitespace control.
    pub fn skip_dash(&mut self)
        requires
            old(self).wf(),
        ensures
            final(self).wf(),
            final(self).text() == old(self).text(),
            final(self).cursor() == skip_dash_at(old(self).text(), old(self).cursor()),
    {
        self.pos = exec_skip_dash(self.content, self.pos);
    }

    /// Check if the following content matches a specific substring, on a word
    /// boundary and ignoring ASCII case.
    pub fn peek_matches(&self, word: &str) -> (r: bool)
        requires
            self.wf(),
        ensures
            r == peek_word(self.text(), self.cursor(), word@),
    {
        exec_peek_word(self.content, self.pos, word)
    }

    /// Consume a number of characters from the input stream.
    pub fn consume_chars(&mut self, count: usize)
        requires
            old(self).wf(),
        ensures
            final(self).wf(),
            final(self).text() == old(self).text(),
            final(self).cursor() == (if old(self).cursor() + count <= old(self).text().len() {
                old(self).cursor() + count
            } else {
                old(self).text().len() as int
            }),
    {
        let n = self.content.unicode_len();
        if count <= n - self.pos {
            self.pos = self.pos + count;
        } else {
            self.pos = n;
        }
    }

    /// Move to the position after the next `%}`, which must follow directly,
    /// up to whitespace and a whitespace-control dash.
    pub fn skip_to_tag_close(&mut self) -> (r: Option<usize>)
        requires
            old(self).wf(),
        ensures
            final(self).wf(),
            final(self).text() == old(self).text(),
            final(self).cursor() == tag_close(old(self).text(), old(self).cursor()).1,
            match r {
                Some(p) => tag_close(old(self).text(), old(self).cursor()).0 == Some(p as int),
                None => tag_close(old(self).text(), old(self).cursor()).0 is None,
            },
    {
        self.skip_whitespace();
        self.skip_dash();
        let n = self.content.unicode_len();
        if self.pos < n && self.content.get_char(self.pos) == '%' {
            self.pos = self.pos + 1;
            if self.pos < n && self.content.get_char(self.pos) == '}' {
                self.pos = self.pos + 1;
                return Some(self.pos);
            }
        }
        None
    }

    /// Find the next occurrence of a string and return its position; the
    /// cursor stops on it, or at the end when there is none.
    pub fn find_next(&mut self, target: &str) -> (r: Option<usize>)
        requires
            old(self).wf(),
        ensures
            final(self).wf(),
            final(self).text() == old(self).text(),
            target@.len() == 0 ==> r is None && final(self).cursor() == old(self).cursor(),
            target@.len() >= 1 ==> match r {
                Some(p) => {
                    &&& find_from(old(self).text(), old(self).cursor(), target@) == Some(p as int)
                    &&& final(self).cursor() == p as int
                },
                None => {
                    &&& find_from(old(self).text(), old(self).cursor(), target@) is None
                    &&& final(self).cursor() == old(self).text().len()
                },
            },
    {
        if target.unicode_len() == 0 {
            return None;
        }
        match exec_find_from(self.content, self.pos, target) {
            Some(p) => {
                self.pos = p;
                Some(p)
            },
            None => {
                self.pos = self.content.unicode_len();
                None
            },
        }
    }

    /// Find the next `{%` tag named `tag` and either return the position of
    /// its opener, or, with `return_end`, of the position after its close.
    pub fn find_tag(&mut self, tag: &str, return_end: bool) -> (r: Option<usize>)
        requires
            old(self).wf(),
        ensures
            final(self).wf(),
            final(self).text() == old(self).text(),
            final(self).cursor() == find_tag(
                old(self).text(),
                old(self).cursor(),
                tag@,
                return_end,
            ).1,
            match r {
                Some(p) => find_tag(old(self).text(), old(self).cursor(), tag@, return_end).0
                    == Some(p as int),
                None => find_tag(old(self).text(), old(self).cursor(), tag@, return_end).0 is None,
            },
    {
        loop
            invariant
                self.wf(),
                self.text() == old(self).text(),
                find_tag(self.text(), self.cursor(), tag@, return_end) == find_tag(
                    old(self).text(),
                    old(self).cursor(),
                    tag@,
                    return_end,
                ),
            decreases self.text().len() - self.cursor(),
        {
            let ghost pre = self.cursor();
            proof {
                reveal_strlit("{%");
                assert("{%"@ =~= open_marker());
            }
            match self.find_next("{%") {
                None => {
                    return None;
                },
                Some(tag_start) => {
                    proof {
                        lemma_find_tag_step(self.text(), pre, tag_start as int);
                    }
                    let current_pos = self.pos;
                    self.consume_chars(tag_start - current_pos + 2);
                    self.skip_dash();
                    self.skip_whitespace();
                    if self.peek_matches(tag) {
                        if return_end {
                            let m = tag.unicode_len();
                            self.consume_chars(m);
                            return self.skip_to_tag_close();
                        } else {
                            return Some(tag_start);
                        }
                    }
                },
            }
        }
    }

    /// Move to the position after the next closing tag named `end_tag`,
    /// scanning character by character.
    pub fn skip_to_end_tag(&mut self, end_tag: &str)
        requires
            old(self).wf(),
        ensures
            final(self).wf(),
            final(self).text() == old(self).text(),
            final(self).cursor() == find_tag(old(self).text(), old(self).cursor(), end_tag@, true).1,
    {
        loop
            invariant
                self.wf(),
                self.text() == old(self).text(),
                find_tag(self.text(), self.cursor(), end_tag@, true) == find_tag(
                    old(self).text(),
                    old(self).cursor(),
                    end_tag@,
                    true,
                ),
            decreases self.text().len() - self.cursor(),
        {
            let ghost pre = self.cursor();
            let ghost s = self.text();
            proof {
                reveal_strlit("{%");
                assert("{%"@ =~= open_marker());
            }
            match self.next() {
                None => {
                    proof {
                        assert(find_from(s, pre, open_marker()) is None);
                    }
                    return ;
                },
                Some((_, ch)) => {
                    if ch == '{' && self.peek() == Some('%') {
                        proof {
                            assert(find_from(s, pre, open_marker()) == Some(pre)) by {
                                assert(match_at(s, pre, open_marker()));
                            }
                        }
                        self.next();
                        self.skip_dash();
                        self.skip_whitespace();
                        proof {
                            lemma_find_tag_step(s, pre, pre);
                        }
                        if self.peek_matches(end_tag) {
                            let m = end_tag.unicode_len();
                            self.consume_chars(m);
                            self.skip_to_tag_close();
                            return ;
                        }
                    } else {
                        proof {
                            assert(!match_at(s, pre, open_marker()));
                        }
                    }
                },
            }
        }
    }

    /// Trim leading and trailing whitespace of the string in place.
    pub fn trim_in_place(s: &mut String)
        ensures
            final(s)@ == trim(old(s)@),
    {
        let t = String::from_str(exec_trim(s.as_str()));
        *s = t;
    }

    /// Extract a collection of all doc blocks from the given content without
    /// the wrapping doc tag; the same scan as
    /// [`crate::LiquidDocs::extract_doc_blocks`].
    pub fn extract_doc_blocks(content: &'a str) -> (r: Option<Vec<&'a str>>)
        ensures
            ({
                let ex = extract_spec(content@);
                match r {
                    None => ex is None,
                    Some(v) => {
                        &&& ex is Some
                        &&& v@.len() == ex->0.len()
                        &&& forall|k: int| 0 <= k < v@.len() ==> (#[trigger] v@[k])@ == ex->0[k]
                    },
                }
            }),
    {
        proof {
            reveal_strlit("enddoc");
            assert("enddoc"@ =~= kw_enddoc());
        }
        let possible_doc_blocks = exec_count_occ(content, 0, "enddoc");
        if possible_doc_blocks == 0 {
            return None;
        }
        match twp_scan_rec(content, 0, possible_doc_blocks) {
            None => None,
            Some(v) => {
                if v.len() == 0 {
                    None
                } else {
                    Some(v)
                }
            },
        }
    }
}

impl<'a> TwpTypes<'a> {
    /// Parse doc block content, reduced: the description and bare built-in
    /// `@param` types, nothing else.
    pub fn parse_doc_content(content: &'a str) -> (r: Option<DocBlock>)
        ensures
            ({
                let pr = twp_parse_from(content@, 0, Seq::empty(), empty_doc_block_v());
                match r {
                    Some(b) => pr is Some && b@ == pr->0,
                    None => pr is None,
                }
            }),
    {
        let doc_block = DocBlock::default();
        let description = String::new();
        proof {
            assert(doc_block@ =~~= empty_doc_block_v());
        }
        twp_parse_rec(content, 0, description, doc_block)
    }
}

/// The reduced parser's body: one recursive step per scanned character or
/// parsed annotation, threading the character buffer and the block built so
/// far.
#[verifier::rlimit(100)]
#[verifier::spinoff_prover]
fn twp_parse_rec<'a>(content: &'a str, from: usize, buf: String, db: DocBlock) -> (r: Option<
    DocBlock,
>)
    requires
        from as int <= content@.len(),
    ensures
        ({
            let pr = twp_parse_from(content@, from as int, buf@, db@);
            match r {
                Some(b) => pr is Some && b@ == pr->0,
                None => pr is None,
            }
        }),
    decreases content@.len() - from,
{
    let ghost s = content@;
    let ghost db0 = db@;
    let ghost buf0 = buf@;
    let n = content.unicode_len();
    let mut doc_block = db;
    let mut description = buf;
    let mut parser = TwpTypes { content, pos: from };
    match parser.next() {
        None => {
            if doc_block.description.as_str().is_empty() && doc_block.param.len() == 0
                && doc_block.example.len() == 0 {
                None
            } else {
                Some(doc_block)
            }
        },
        Some((idx, ch)) => {
            if doc_block.description.as_str().is_empty() && ch != '@' {
                push_char(&mut description, ch);
            }
            if doc_block.description.as_str().is_empty() && ch == '@'
                && !description.as_str().is_empty() {
                let mut taken = description;
                description = String::new();
                TwpTypes::trim_in_place(&mut taken);
                doc_block.description = taken;
                proof {
                    assert(doc_block@.param =~= db0.param);
                    assert(doc_block@.example =~= db0.example);
                }
            }
            let ghost buf1 = if db0.description.len() == 0 && ch != '@' {
                buf0.push(ch)
            } else {
                buf0
            };
            let ghost takeng = db0.description.len() == 0 && ch == '@' && buf1.len() > 0;
            let ghost db1 = if takeng {
                DocBlockV { description: trim(buf1), ..db0 }
            } else {
                db0
            };
            let ghost buf2 = if takeng {
                Seq::<char>::empty()
            } else {
                buf1
            };
            proof {
                assert(description@ =~= buf2);
                assert(doc_block@ =~= db1);
            }
            if ch == '@' {
                proof {
                    reveal_strlit("description");
                    reveal_strlit("param");
                    assert("description"@ =~= kw_description());
                    assert("param"@ =~= kw_param());
                }
                if parser.peek_matches("description") && doc_block.description.as_str().is_empty()
                    {
                    parser.consume_chars(12);
                    let start_pos = idx + 12;
                    proof {
                        reveal_strlit("@");
                        assert("@"@ =~= seq!['@']);
                    }
                    let ghost cg = parser.cursor();
                    let e = match parser.find_next("@") {
                        Some(p) => p,
                        None => n,
                    };
                    proof {
                        lemma_find_from_bounds(s, cg, seq!['@']);
                    }
                    let mut d = String::from_str(content.substring_char(start_pos, e));
                    TwpTypes::trim_in_place(&mut d);
                    doc_block.description = d;
                    parser.consume_chars(e - start_pos);
                    proof {
                        assert(doc_block@.param =~= db1.param);
                        assert(doc_block@.example =~= db1.example);
                    }
                }
                let ghost b1 = if peek_word(s, idx + 1, kw_description()) && db1.description.len()
                    == 0 {
                    let dd = twp_description_step(s, idx as int);
                    (DocBlockV { description: dd.0, ..db1 }, dd.1)
                } else {
                    (db1, idx + 1 as int)
                };
                proof {
                    assert(doc_block@ =~= b1.0);
                    assert(parser.cursor() == b1.1);
                    if peek_word(s, idx + 1, kw_description()) && db1.description.len() == 0 {
                        lemma_twp_description_bounds(s, idx as int);
                    }
                }
                if parser.peek_matches("param") {
                    proof {
                        reveal_strlit("string");
                        reveal_strlit("number");
                        reveal_strlit("boolean");
                        reveal_strlit("object");
                        assert("string"@ =~= kw_string());
                        assert("number"@ =~= kw_number());
                        assert("boolean"@ =~= kw_boolean());
                        assert("object"@ =~= kw_object());
                    }
                    parser.consume_chars(6);
                    parser.skip_whitespace();
                    let mut param = Param::default();
                    let mut is_valid = true;
                    let pk = parser.peek();
                    if pk.is_some() {
                        let ch2 = pk.unwrap();
                        if ch2 == '{' {
                            parser.next();
                            parser.skip_whitespace();
                            if parser.peek_matches("string") {
                                param.type_ = Some(ParamType::String);
                            } else if parser.peek_matches("number") {
                                param.type_ = Some(ParamType::Number);
                            } else if parser.peek_matches("boolean") {
                                param.type_ = Some(ParamType::Boolean);
                            } else if parser.peek_matches("object") {
                                param.type_ = Some(ParamType::Object);
                            } else {
                                proof {
                                    reveal_strlit("@");
                                    assert("@"@ =~= seq!['@']);
                                }
                                parser.find_next("@");
                                is_valid = false;
                            }
                        }
                        parser.skip_whitespace();
                        if is_valid {
                            let ghost before = doc_block@;
                            let ghost pv = param@;
                            doc_block.param.push(param);
                            proof {
                                assert(pv =~= ParamV {
                                    name: Seq::empty(),
                                    description: None,
                                    type_: pv.type_,
                                    optional: false,
                                });
                                assert(doc_block@.param =~= before.param.push(pv));
                                assert(doc_block@.description =~= before.description);
                                assert(doc_block@.example =~= before.example);
                            }
                        }
                    }
                    proof {
                        let ps = twp_param_step(s, b1.1);
                        let db2 = match ps.0 {
                            Some(ty) => DocBlockV {
                                param: b1.0.param.push(
                                    ParamV {
                                        name: Seq::empty(),
                                        description: None,
                                        type_: ty,
                                        optional: false,
                                    },
                                ),
                                ..b1.0
                            },
                            None => b1.0,
                        };
                        assert(doc_block@ =~= db2);
                        assert(parser.cursor() == ps.1);
                        lemma_twp_param_bounds(s, b1.1);
                    }
                }
                twp_parse_rec(content, parser.pos, description, doc_block)
            } else {
                twp_parse_rec(content, parser.pos, description, doc_block)
            }
        },
    }
}

/// The scanner body of [`TwpTypes::extract_doc_blocks`]: the same scan as the
/// main one, with the raw and comment regions skipped by the character loop
/// of [`TwpTypes::skip_to_end_tag`].
fn twp_scan_rec<'a>(content: &'a str, from: usize, left: usize) -> (r: Option<Vec<&'a str>>)
    requires
        from as int <= content@.len(),
        left >= 1,
    ensures
        ({
            let sf = scan_from(content@, from as int, left as int);
            match r {
                None => sf is None,
                Some(v) => {
                    &&& sf is Some
                    &&& v@.len() == sf->0.len()
                    &&& forall|k: int|
                        0 <= k < v@.len() ==> (#[trigger] v@[k])@ == content@.subrange(
                            sf->0[k].0,
                            sf->0[k].1,
                        )
                },
            }
        }),
    decreases content@.len() - from,
{
    let ghost s = content@;
    let mut parser = TwpTypes { content, pos: from };
    proof {
        reveal_strlit("#");
        reveal_strlit("raw");
        reveal_strlit("comment");
        reveal_strlit("doc");
        reveal_strlit("endraw");
        reveal_strlit("endcomment");
        reveal_strlit("enddoc");
        assert("#"@ =~= kw_hash());
        assert("raw"@ =~= kw_raw());
        assert("comment"@ =~= kw_comment());
        assert("doc"@ =~= kw_doc());
        assert("endraw"@ =~= kw_endraw());
        assert("endcomment"@ =~= kw_endcomment());
        assert("enddoc"@ =~= kw_enddoc());
    }
    match parser.next() {
        None => Some(Vec::new()),
        Some((_, ch)) => {
            if ch == '{' && parser.peek() == Some('%') {
                parser.next();
                parser.skip_dash();
                parser.skip_whitespace();
                let ghost w = parser.cursor();
                proof {
                    lemma_skip_ws_bounds(s, skip_dash_at(s, from + 2));
                }
                if parser.peek_matches("#") {
                    parser.skip_to_tag_close();
                    proof {
                        lemma_tag_close_bounds(s, w);
                    }
                    return twp_scan_rec(content, parser.pos, left);
                }
                if parser.peek_matches("raw") {
                    parser.skip_to_end_tag("endraw");
                    proof {
                        lemma_find_tag_bounds(s, w, kw_endraw(), true);
                    }
                    return twp_scan_rec(content, parser.pos, left);
                }
                if parser.peek_matches("comment") {
                    parser.skip_to_end_tag("endcomment");
                    proof {
                        lemma_find_tag_bounds(s, w, kw_endcomment(), true);
                    }
                    return twp_scan_rec(content, parser.pos, left);
                }
                if parser.peek_matches("doc") {
                    parser.consume_chars(3);
                    let start = match parser.skip_to_tag_close() {
                        Some(p) => p,
                        None => {
                            return None;
                        },
                    };
                    proof {
                        lemma_tag_close_bounds(s, w + 3);
                    }
                    let end = match parser.find_tag("enddoc", false) {
                        Some(p) => p,
                        None => {
                            return None;
                        },
                    };
                    proof {
                        lemma_find_tag_bounds(s, start as int, kw_enddoc(), false);
                    }
                    let block = content.substring_char(start, end);
                    if left == 1 {
                        let mut v: Vec<&'a str> = Vec::new();
                        v.push(block);
                        proof {
                            assert(v@ =~= seq![block]);
                        }
                        return Some(v);
                    }
                    match twp_scan_rec(content, parser.pos, left - 1) {
                        None => {
                            return None;
                        },
                        Some(mut rest) => {
                            rest.insert(0, block);
                            proof {
                                let sf = scan_from(s, from as int, left as int);
                                let sr = scan_from(s, parser.cursor(), left - 1);
                                assert(sf->0 =~= seq![(start as int, end as int)] + sr->0);
                            }
                            return Some(rest);
                        },
                    }
                }
                twp_scan_rec(content, parser.pos, left)
            } else {
                twp_scan_rec(content, parser.pos, left)
            }
        },
    }
}

} // verus!
