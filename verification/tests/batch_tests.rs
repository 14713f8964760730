use liquid_doc_parser::{
    parse_content, parse_files, DocBlock, FileInput, LiquidDocs, Param, ParamType, ParseError,
    ParsingError,
};

#[test]
fn parse_content_mixed_blocks_test() {
    let input = "{% doc %}@param foo{% enddoc %} text {% doc %}@param {unknown} x{% enddoc %}";
    let result = parse_content(input);
    assert_eq!(
        result.success,
        vec![DocBlock {
            description: String::new(),
            param: vec![Param {
                name: String::from("foo"),
                description: None,
                type_: None,
                optional: false,
            }],
            example: Vec::new(),
        }]
    );
    assert_eq!(result.errors, vec![String::from("Unknown parameter type: \"unknown\"")]);
}

#[test]
fn parse_content_no_blocks_test() {
    let result = parse_content("nothing to see here");
    assert!(result.success.is_empty());
    assert!(result.errors.is_empty());
}

#[test]
fn parse_files_test() {
    let files = vec![
        FileInput {
            path: String::from("a.liquid"),
            content: String::from("{% doc %}hello{% enddoc %}"),
        },
        FileInput { path: String::from("b.liquid"), content: String::from("plain text") },
    ];
    let results = parse_files(files);
    assert_eq!(results.len(), 2);
    assert_eq!(results[0].path, "a.liquid");
    let first = results[0].liquid_types.as_ref().unwrap();
    assert_eq!(first.success.len(), 1);
    assert_eq!(first.success[0].description, "hello");
    assert!(first.errors.is_empty());
    assert_eq!(results[1].path, "b.liquid");
    assert!(results[1].liquid_types.is_none());
}

#[test]
fn parsing_error_to_message_test() {
    assert_eq!(
        ParsingError::MissingParameterName {
            line: 12,
            column: 345,
            message: String::from("@param \n")
        }
        .to_message(),
        "Missing parameter on 12:345 near this line:\n@param \n"
    );
    assert_eq!(
        ParsingError::MissingOptionalClosingBracket(String::from("@param [foo")).to_message(),
        "Missing closing bracket for parameter optionality near this line:\n@param [foo"
    );
    assert_eq!(
        ParsingError::UnexpectedParameterEnd(String::from("@param ")).to_message(),
        "Unexpected parameter end near this line:\n @param "
    );
    assert_eq!(
        ParsingError::UnknownParameterType(String::from("unknown")).to_message(),
        "Unknown parameter type: \"unknown\""
    );
    assert_eq!(ParsingError::NoDocContentFound.to_message(), "No doc content found");
}

#[test]
fn parse_error_from_test() {
    let e = ParseError::from(ParsingError::MissingParameterName {
        line: 3,
        column: 7,
        message: String::from("@param x"),
    });
    assert_eq!(e.line, 3);
    assert_eq!(e.column, 7);
    assert_eq!(e.message, "Missing parameter at position 7: @param x");

    let e = ParseError::from(ParsingError::MissingOptionalClosingBracket(String::from("@param [")));
    assert_eq!((e.line, e.column), (0, 0));
    assert_eq!(e.message, "Missing closing bracket for parameter optionality: @param [");

    let e = ParseError::from(ParsingError::UnexpectedParameterEnd(String::from("@param ")));
    assert_eq!((e.line, e.column), (0, 0));
    assert_eq!(e.message, "Unexpected parameter end: @param ");

    let e = ParseError::from(ParsingError::UnknownParameterType(String::from("foo")));
    assert_eq!((e.line, e.column), (0, 0));
    assert_eq!(e.message, "Unknown parameter type: foo");

    let e = ParseError::from(ParsingError::NoDocContentFound);
    assert_eq!((e.line, e.column), (0, 0));
    assert_eq!(e.message, "No documentation content found");
}

#[test]
fn reparse_description_round_trip_test() {
    let first = LiquidDocs::parse_doc_content("  Hello there, docs \n@param x").unwrap();
    assert_eq!(first.description, "Hello there, docs");
    let again = LiquidDocs::parse_doc_content(&first.description).unwrap();
    assert_eq!(again.description, first.description);
    assert!(again.param.is_empty());
    assert!(again.example.is_empty());
}

#[test]
fn example_dedent_relative_indentation_test() {
    let parsed = LiquidDocs::parse_doc_content("@example\n  line1\n    line2\n  line3").unwrap();
    assert_eq!(parsed.example, vec![String::from("line1\n  line2\nline3")]);
}

#[test]
fn extract_single_balanced_pair_test() {
    let body = "a body, with spaces\nand a newline";
    let text = format!("{{% doc %}}{body}{{% enddoc %}}");
    assert_eq!(LiquidDocs::extract_doc_blocks(&text), Some(vec![body]));
}

#[test]
fn platform_object_type_test() {
    let ok = LiquidDocs::parse_doc_content("@param {product} p - a product").unwrap();
    assert_eq!(ok.param[0].type_, Some(ParamType::Shopify(String::from("product"))));
    assert_eq!(
        LiquidDocs::parse_doc_content("@param {gadget} p - what now"),
        Err(ParsingError::UnknownParameterType(String::from("gadget")))
    );
}

#[test]
fn array_type_marker_test() {
    let parsed = LiquidDocs::parse_doc_content("@param {string[]} [foo] bar").unwrap();
    assert_eq!(parsed.param[0].type_, Some(ParamType::ArrayOf(Box::new(ParamType::String))));
    assert!(parsed.param[0].optional);
}

#[test]
fn unknown_type_name_test() {
    assert_eq!(
        LiquidDocs::parse_doc_content("@param {unknown} foo - bar"),
        Err(ParsingError::UnknownParameterType(String::from("unknown")))
    );
}

#[test]
fn trim_in_place_test() {
    let mut s = String::from("  \t hello world \n ");
    liquid_doc_parser::TwpTypes::trim_in_place(&mut s);
    assert_eq!(s, "hello world");
    let mut all_ws = String::from(" \t\n ");
    liquid_doc_parser::TwpTypes::trim_in_place(&mut all_ws);
    assert_eq!(all_ws, "");
}

#[test]
fn default_values_test() {
    let p: Param = Default::default();
    assert_eq!(p, Param { name: String::new(), description: None, type_: None, optional: false });
    let b: DocBlock = Default::default();
    assert_eq!(
        b,
        DocBlock { description: String::new(), param: Vec::new(), example: Vec::new() }
    );
    let t: ParamType = Default::default();
    assert_eq!(t, ParamType::String);
}
