//! Extraction and parsing of `{% doc %}` documentation blocks embedded in
//! Liquid template text.
//!
//! The scanner ([`LiquidDocs::extract_doc_blocks`]) walks raw template text and
//! returns the bodies of all `doc`/`enddoc` tag pairs, skipping `raw` and
//! `comment` regions.  The content parser ([`LiquidDocs::parse_doc_content`])
//! turns one block body into a [`DocBlock`]: a description, `@param` entries
//! and `@example` sections, or a [`ParsingError`] describing the first
//! malformed annotation.

use vstd::prelude::*;

pub mod laws;
pub mod liquid_docs;
mod messages;
mod shopify_liquid_objects;
mod text;
pub mod twp_types;

pub use liquid_docs::LiquidDocs;
pub use liquid_docs::ParsingError;
pub use messages::ParseError;
pub use twp_types::TwpTypes;

verus! {

/// Mathematical content of a [`ParamType`].
pub enum ParamTypeV {
    String,
    Number,
    Boolean,
    Object,
    ArrayOf(Box<ParamTypeV>),
    Shopify(Seq<char>),
}

/// Mathematical content of a [`Param`].
#[verifier::ext_equal]
pub struct ParamV {
    pub name: Seq<char>,
    pub description: Option<Seq<char>>,
    pub type_: Option<ParamTypeV>,
    pub optional: bool,
}

/// Mathematical content of a [`DocBlock`].
#[verifier::ext_equal]
pub struct DocBlockV {
    pub description: Seq<char>,
    pub param: Seq<ParamV>,
    pub example: Seq<Seq<char>>,
}

/// The different types a parameter can be.
#[derive(Debug, PartialEq)]
pub enum ParamType {
    String,
    Number,
    Boolean,
    Object,
    ArrayOf(Box<ParamType>),
    Shopify(String),
}

/// A single `@param` annotation of a doc block.
#[derive(Debug, PartialEq)]
pub struct Param {
    pub name: String,
    pub description: Option<String>,
    pub type_: Option<ParamType>,
    pub optional: bool,
}

/// The three different things supported inside doc tags.
#[derive(Debug, PartialEq)]
pub struct DocBlock {
    pub description: String,
    pub param: Vec<Param>,
    pub example: Vec<String>,
}

pub open spec fn param_type_view(t: ParamType) -> ParamTypeV
    decreases t,
{
    match t {
        ParamType::String => ParamTypeV::String,
        ParamType::Number => ParamTypeV::Number,
        ParamType::Boolean => ParamTypeV::Boolean,
        ParamType::Object => ParamTypeV::Object,
        ParamType::ArrayOf(inner) => ParamTypeV::ArrayOf(Box::new(param_type_view(*inner))),
        ParamType::Shopify(name) => ParamTypeV::Shopify(name@),
    }
}

impl View for ParamType {
    type V = ParamTypeV;

    open spec fn view(&self) -> ParamTypeV {
        param_type_view(*self)
    }
}

impl View for Param {
    type V = ParamV;

    open spec fn view(&self) -> ParamV {
        ParamV {
            name: self.name@,
            description: match self.description {
                Some(d) => Some(d@),
                None => None,
            },
            type_: match self.type_ {
                Some(t) => Some(t@),
                None => None,
            },
            optional: self.optional,
        }
    }
}

impl View for DocBlock {
    type V = DocBlockV;

    open spec fn view(&self) -> DocBlockV {
        DocBlockV {
            description: self.description@,
            param: Seq::new(self.param@.len(), |i: int| self.param@[i]@),
            example: Seq::new(self.example@.len(), |i: int| self.example@[i]@),
        }
    }
}

/// The all-default parameter value: such a parameter is dropped, not appended.
pub open spec fn param_v_default(p: ParamV) -> bool {
    &&& p.name.len() == 0
    &&& p.description is None
    &&& p.type_ is None
    &&& !p.optional
}

/// A block with no description, no parameters and no examples carries nothing.
pub open spec fn doc_block_v_empty(b: DocBlockV) -> bool {
    &&& b.description.len() == 0
    &&& b.param.len() == 0
    &&& b.example.len() == 0
}

/// The return type for [`parse_content`]: the blocks that parsed, and the
/// diagnostic for each block that did not, in source order.
pub struct ParseResult {
    pub success: Vec<DocBlock>,
    pub errors: Vec<String>,
}

/// Mathematical content of a [`ParseResult`].
#[verifier::ext_equal]
pub struct ParseResultV {
    pub success: Seq<DocBlockV>,
    pub errors: Seq<Seq<char>>,
}

impl View for ParseResult {
    type V = ParseResultV;

    open spec fn view(&self) -> ParseResultV {
        ParseResultV {
            success: Seq::new(self.success@.len(), |i: int| self.success@[i]@),
            errors: Seq::new(self.errors@.len(), |i: int| self.errors@[i]@),
        }
    }
}

/// The per-file return type for [`parse_files`].
pub struct LiquidFile {
    pub path: String,
    pub liquid_types: Option<ParseResult>,
}

/// Input record for [`parse_files`]: a path and the file's text.
pub struct FileInput {
    pub path: String,
    pub content: String,
}

/// The blocks of `bs` from index `k` on, parsed one by one: the successes and
/// the rendered errors, each in source order.
pub open spec fn parse_blocks_spec(
    bs: Seq<Seq<char>>,
    k: int,
    acc_s: Seq<DocBlockV>,
    acc_e: Seq<Seq<char>>,
) -> (Seq<DocBlockV>, Seq<Seq<char>>)
    decreases bs.len() - k,
{
    if !(0 <= k < bs.len()) {
        (acc_s, acc_e)
    } else {
        match liquid_docs::parse_doc_spec(bs[k]) {
            Ok(b) => parse_blocks_spec(bs, k + 1, acc_s.push(b), acc_e),
            Err(e) => parse_blocks_spec(bs, k + 1, acc_s, acc_e.push(messages::message_of(e))),
        }
    }
}

/// What [`parse_content`] yields: every extracted block parsed independently.
pub open spec fn parse_content_spec(s: Seq<char>) -> (Seq<DocBlockV>, Seq<Seq<char>>) {
    match liquid_docs::extract_spec(s) {
        None => (Seq::empty(), Seq::empty()),
        Some(bs) => parse_blocks_spec(bs, 0, Seq::empty(), Seq::empty()),
    }
}

/// Helper function to parse the content of one file: each extracted block is
/// parsed on its own, and one malformed block never hides its siblings.
pub fn parse_content(input: &str) -> (r: ParseResult)
    ensures
        r@.success == parse_content_spec(input@).0,
        r@.errors == parse_content_spec(input@).1,
{
    let ghost s = input@;
    let mut result = ParseResult { success: Vec::new(), errors: Vec::new() };
    proof {
        assert(result@.success =~= Seq::<DocBlockV>::empty());
        assert(result@.errors =~= Seq::<Seq<char>>::empty());
    }
    if let Some(blocks) = LiquidDocs::extract_doc_blocks(input) {
        let ghost bs = liquid_docs::extract_spec(s)->0;
        let n = blocks.len();
        let mut i: usize = 0;
        while i < n
            invariant
                0 <= i <= n,
                n == blocks@.len(),
                liquid_docs::extract_spec(s) is Some,
                bs == liquid_docs::extract_spec(s)->0,
                blocks@.len() == bs.len(),
                forall|k: int| 0 <= k < blocks@.len() ==> (#[trigger] blocks@[k])@ == bs[k],
                parse_blocks_spec(bs, i as int, result@.success, result@.errors)
                    == parse_blocks_spec(bs, 0, Seq::empty(), Seq::empty()),
            decreases n - i,
        {
            let ghost before = result@;
            match LiquidDocs::parse_doc_content(blocks[i]) {
                Ok(block_type) => {
                    let ghost bv = block_type@;
                    result.success.push(block_type);
                    proof {
                        assert(result@.success =~= before.success.push(bv));
                        assert(result@.errors =~= before.errors);
                    }
                },
                Err(error) => {
                    result.errors.push(error.to_message());
                    proof {
                        assert(result@.success =~= before.success);
                        assert(result@.errors =~= before.errors.push(
                            messages::message_of(error@),
                        ));
                    }
                },
            }
            i += 1;
        }
    }
    result
}

/// What one file's parse reports: nothing at all, or its blocks and errors.
pub open spec fn parse_file_spec(content: Seq<char>) -> Option<ParseResultV> {
    let pr = parse_content_spec(content);
    if pr.0.len() == 0 && pr.1.len() == 0 {
        None
    } else {
        Some(ParseResultV { success: pr.0, errors: pr.1 })
    }
}

/// Parse a batch of file inputs: one result per file, in input order, with
/// `None` for a file that carries no doc content at all.
pub fn parse_files(files: Vec<FileInput>) -> (r: Vec<LiquidFile>)
    ensures
        r@.len() == files@.len(),
        forall|k: int|
            0 <= k < files@.len() ==> {
                &&& (#[trigger] r@[k]).path@ == files@[k].path@
                &&& match (r@[k].liquid_types, parse_file_spec(files@[k].content@)) {
                    (Some(pr), Some(v)) => pr@ == v,
                    (None, None) => true,
                    _ => false,
                }
            },
{
    let mut all_files: Vec<LiquidFile> = Vec::new();
    let n = files.len();
    let mut i: usize = 0;
    while i < n
        invariant
            0 <= i <= n,
            n == files@.len(),
            all_files@.len() == i,
            forall|k: int|
                0 <= k < i ==> {
                    &&& (#[trigger] all_files@[k]).path@ == files@[k].path@
                    &&& match (all_files@[k].liquid_types, parse_file_spec(files@[k].content@)) {
                        (Some(pr), Some(v)) => pr@ == v,
                        (None, None) => true,
                        _ => false,
                    }
                },
        decreases n - i,
    {
        let parse_result = parse_content(files[i].content.as_str());
        let empty_both = parse_result.success.len() == 0 && parse_result.errors.len() == 0;
        proof {
            if empty_both {
                assert(parse_result@.success.len() == 0);
                assert(parse_result@.errors.len() == 0);
            }
        }
        all_files.push(
            LiquidFile {
                path: files[i].path.clone(),
                liquid_types: if empty_both {
                    None
                } else {
                    Some(parse_result)
                },
            },
        );
        i += 1;
    }
    all_files
}

impl Default for ParamType {
    fn default() -> (r: Self)
        ensures
            r@ == ParamTypeV::String,
    {
        ParamType::String
    }
}

impl Default for Param {
    fn default() -> (r: Self)
        ensures
            param_v_default(r@),
    {
        Param { name: String::new(), description: None, type_: None, optional: false }
    }
}

impl Default for DocBlock {
    fn default() -> (r: Self)
        ensures
            doc_block_v_empty(r@),
    {
        DocBlock { description: String::new(), param: Vec::new(), example: Vec::new() }
    }
}

} // verus!
