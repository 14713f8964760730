use liquid_doc_parser::{DocBlock, LiquidDocs, Param, ParamType, ParsingError};

#[test]
fn liquid_docs_extract_doc_blocks_test() {
    assert_eq!(LiquidDocs::extract_doc_blocks("test"), None);
    assert_eq!(LiquidDocs::extract_doc_blocks("{% doc %}test{% enddoc %}test"), Some(vec!["test"]));
    assert_eq!(LiquidDocs::extract_doc_blocks("{%- doc %}test{% enddoc %}test"), Some(vec!["test"]));
    assert_eq!(LiquidDocs::extract_doc_blocks("{%- doc -%}test{% enddoc %}test"), Some(vec!["test"]));
    assert_eq!(LiquidDocs::extract_doc_blocks("{%- doc -%}test{%- enddoc %}test"), Some(vec!["test"]));
    assert_eq!(LiquidDocs::extract_doc_blocks("{%- doc -%}test{%- enddoc -%}test"), Some(vec!["test"]));
    assert_eq!(LiquidDocs::extract_doc_blocks("{% doc %}test{% enddoc1 %}test"), None);
    assert_eq!(
        LiquidDocs::extract_doc_blocks(
            "{% doc %}block1\n  line1\n  line2\n  line3\n\n{% enddoc %}test\n{% doc %}block2{% enddoc %}"
        ),
        Some(vec!["block1\n  line1\n  line2\n  line3\n\n", "block2"])
    );
    assert_eq!(LiquidDocs::extract_doc_blocks("{% doc %}\n\ntest{% enddoc %}\n\ntest"), Some(vec!["\n\ntest"]));
    assert_eq!(
        LiquidDocs::extract_doc_blocks("{%       doc  %}  test {%  enddoc         %} test"),
        Some(vec!["  test "])
    );
    assert_eq!(LiquidDocs::extract_doc_blocks("{%doc%}test{%enddoc%}test"), Some(vec!["test"]));
    assert_eq!(LiquidDocs::extract_doc_blocks("{% raw %}{% doc %}test{% enddoc %}{% endraw %}test"), None);
    assert_eq!(LiquidDocs::extract_doc_blocks("{% raw %}{% doc %}test{% enddoc %}{% endraw %}test"), None);
    assert_eq!(LiquidDocs::extract_doc_blocks("{% comment %}{% doc %}test{% enddoc %}{% endcomment %}test"), None);
    assert_eq!(LiquidDocs::extract_doc_blocks("{% doc %}{% enddoc %}"), Some(vec![""]));

    let doc = r#"
  Provides an example of a snippet description.

  @param {string} title - The title to display
  @param {number} [max_items] - Optional maximum number of items to show

  @example
  {% render 'example-snippet', title: 'Featured Products', max_items: 3 %}
"#;
    let content = format!(
        r#"{{% doc %}}{doc}{{% enddoc %}}
{{% if article.image %}}
	<div class="article-card__image">
		{{%- render 'component-image', image: article.image, aspect_ratio: 'natural', max_width: 960, sizes: sizes -%}}
		<div class="image-overlay"></div>
	</div>
{{% endif %}}
"#
    );
    assert_eq!(LiquidDocs::extract_doc_blocks(&content), Some(vec![doc]));

    let doc = r#"
  Provides an example of a snippet description.

  @example
  {% raw %}
    {% render 'example-snippet', title: 'Featured Products', max_items: 3 %}
  {% endraw %}
"#;
    let content = format!(
        r#"{{% doc %}}{doc}{{% enddoc %}}
{{% if article.image %}}
	<div class="article-card__image">
		{{% render 'example-snippet', title: 'Featured Products', max_items: 3 %}}
	</div>
{{% endif %}}
"#
    );
    assert_eq!(LiquidDocs::extract_doc_blocks(&content), Some(vec![doc]));
}

#[test]
fn liquid_docs_parse_doc_content_description_test() {
    assert_eq!(
        LiquidDocs::parse_doc_content("test"),
        Ok(DocBlock {
            description: String::from("test"),
            param: Vec::new(),
            example: Vec::new()
        })
    );

    assert_eq!(
        LiquidDocs::parse_doc_content(
            r#"
			The description 1
			With new lines
		and different indentation
end

@description The description 2
also with new lines
  and some indentation
end
"#
        ),
        Ok(DocBlock {
            description: String::from("The description 1\n\t\t\tWith new lines\n\t\tand different indentation\nend"),
            param: Vec::new(),
            example: Vec::new()
        })
    );

    assert_eq!(
        LiquidDocs::parse_doc_content(
            r#"
@description The description 2
also with new lines
  and some indentation
end
"#
        ),
        Ok(DocBlock {
            description: String::from("The description 2\nalso with new lines\n  and some indentation\nend"),
            param: Vec::new(),
            example: Vec::new()
        })
    );

    assert_eq!(
        LiquidDocs::parse_doc_content("@description - The description 3"),
        Ok(DocBlock {
            description: String::from("The description 3"),
            param: Vec::new(),
            example: Vec::new()
        })
    );
}

#[test]
fn parse_doc_content_param_complex_test() {
    assert_eq!(
        LiquidDocs::parse_doc_content(
            r#"
Description with words @ foobar
end!

@param {string}  [var1] - Optional variable 1
		@param {  number  }  var2   - Variable 2
                                  with new line
end
@example
{% render 'example-snippet', var1: 'Featured Products', var2: 3, var5: {} %}
  @param {boolean} [ var3  ]   - Variable 3
  foo @param {object} var5 Variable 5
  @param var6

@example
{% render 'example-snippet',
  var1: variant.price,
  var5: false
%}
"#
        ),
        Ok(DocBlock {
            description: String::from("Description with words @ foobar\nend!"),
            param: vec![
                Param {
                    name: String::from("var1"),
                    description: Some(String::from("Optional variable 1")),
                    type_: Some(ParamType::String),
                    optional: true,
                },
                Param {
                    name: String::from("var2"),
                    description: Some(String::from("Variable 2")),
                    type_: Some(ParamType::Number),
                    optional: false,
                },
                Param {
                    name: String::from("var3"),
                    description: Some(String::from("Variable 3")),
                    type_: Some(ParamType::Boolean),
                    optional: true,
                },
                Param {
                    name: String::from("var5"),
                    description: Some(String::from("Variable 5")),
                    type_: Some(ParamType::Object),
                    optional: false,
                },
                Param {
                    name: String::from("var6"),
                    description: None,
                    type_: None,
                    optional: false,
                },
            ],
            example: vec![
                String::from("{% render 'example-snippet', var1: 'Featured Products', var2: 3, var5: {} %}"),
                String::from("{% render 'example-snippet',\n  var1: variant.price,\n  var5: false\n%}")
            ]
        })
    );

    assert_eq!(
        LiquidDocs::parse_doc_content(
            r#"
  Intended for use @description foo in a block similar to the button block.
  more lines here
  end

  @param {string} link - link to render
  @example
  {% raw %}
    {% render 'button', link: '@/collections/all' %}
    sadsad @param asdasd
  {% endraw %}

  test @param { object    } [     block] - The block @param things and what not
  @param [foo]

  @description testing

  @example
  {% render 'button', link: '/collections/all' %}
"#
        ),
        Ok(DocBlock {
            description: String::from("Intended for use"),
            param: vec![
                Param {
                    name: String::from("link"),
                    description: Some(String::from("link to render")),
                    type_: Some(ParamType::String),
                    optional: false,
                },
                Param {
                    name: String::from("asdasd"),
                    description: None,
                    type_: None,
                    optional: false,
                },
                Param {
                    name: String::from("block"),
                    description: Some(String::from("The block @param things and what not")),
                    type_: Some(ParamType::Object),
                    optional: true,
                },
                Param {
                    name: String::from("foo"),
                    description: None,
                    type_: None,
                    optional: true,
                },
            ],
            example: vec![
                String::from("{% raw %}\n  {% render 'button', link: '@/collections/all' %}\n  sadsad"),
                String::from("{% render 'button', link: '/collections/all' %}")
            ]
        })
    );

    assert_eq!(
        LiquidDocs::parse_doc_content(
            r#"
Intended for use @ description foo in a block similar to the button block.
  more lines here
  end

  @param {string} link - link to render
  @example
  {% raw %}
    {% render 'button', link: '@/collections/all' %}
    sadsad @ param asdasd
  {% endraw %}

  test @param { object    } [     block] - The block @param things and what not
  @param [foo]

  @description testing

  @example
  {% render 'button', link: '/collections/all' %}
"#
        ),
        Ok(DocBlock {
            description: String::from(
                "Intended for use @ description foo in a block similar to the button block.\n  more lines here\n  end"
            ),
            param: vec![
                Param {
                    name: String::from("link"),
                    description: Some(String::from("link to render")),
                    type_: Some(ParamType::String),
                    optional: false,
                },
                Param {
                    name: String::from("block"),
                    description: Some(String::from("The block @param things and what not")),
                    type_: Some(ParamType::Object),
                    optional: true,
                },
                Param {
                    name: String::from("foo"),
                    description: None,
                    type_: None,
                    optional: true,
                },
            ],
            example: vec![
                String::from(
                    "{% raw %}\n  {% render 'button', link: '@/collections/all' %}\n  sadsad @ param asdasd\n{% endraw %}\n\ntest"
                ),
                String::from("{% render 'button', link: '/collections/all' %}")
            ]
        })
    );

    assert_eq!(
        LiquidDocs::parse_doc_content("Description with words\n @param {collection} foo - bar\n\n end\n"),
        Ok(DocBlock {
            description: String::from("Description with words"),
            param: vec![Param {
                name: String::from("foo"),
                description: Some(String::from("bar")),
                type_: Some(ParamType::Shopify(String::from("collection"))),
                optional: false,
            },],
            example: Vec::new(),
        })
    );
}

#[test]
fn parse_doc_content_param_param_test() {
    assert_eq!(
        LiquidDocs::parse_doc_content("@param foo"),
        Ok(DocBlock {
            description: String::new(),
            param: vec![Param {
                name: String::from("foo"),
                description: None,
                type_: None,
                optional: false,
            },],
            example: Vec::new()
        })
    );

    assert_eq!(
        LiquidDocs::parse_doc_content("Description with words\n@param foo bar"),
        Ok(DocBlock {
            description: String::from("Description with words"),
            param: vec![Param {
                name: String::from("foo"),
                description: Some(String::from("bar")),
                type_: None,
                optional: false,
            },],
            example: Vec::new()
        })
    );

    assert_eq!(
        LiquidDocs::parse_doc_content("Description with words\n@param {string} foo bar"),
        Ok(DocBlock {
            description: String::from("Description with words"),
            param: vec![Param {
                name: String::from("foo"),
                description: Some(String::from("bar")),
                type_: Some(ParamType::String),
                optional: false,
            },],
            example: Vec::new()
        })
    );

    assert_eq!(
        LiquidDocs::parse_doc_content("Description with words\n@param {string} [foo] bar"),
        Ok(DocBlock {
            description: String::from("Description with words"),
            param: vec![Param {
                name: String::from("foo"),
                description: Some(String::from("bar")),
                type_: Some(ParamType::String),
                optional: true,
            },],
            example: Vec::new()
        })
    );

    assert_eq!(
        LiquidDocs::parse_doc_content("Description with words\n@param {string[]  } [foo] bar"),
        Ok(DocBlock {
            description: String::from("Description with words"),
            param: vec![Param {
                name: String::from("foo"),
                description: Some(String::from("bar")),
                type_: Some(ParamType::ArrayOf(Box::new(ParamType::String))),
                optional: true,
            },],
            example: Vec::new()
        })
    );

    assert_eq!(
        LiquidDocs::parse_doc_content("Description with words\n@param {  number[]} [foo] bar"),
        Ok(DocBlock {
            description: String::from("Description with words"),
            param: vec![Param {
                name: String::from("foo"),
                description: Some(String::from("bar")),
                type_: Some(ParamType::ArrayOf(Box::new(ParamType::Number))),
                optional: true,
            },],
            example: Vec::new()
        })
    );

    assert_eq!(
        LiquidDocs::parse_doc_content("Description with words\n@param { boolean[] } foo bar"),
        Ok(DocBlock {
            description: String::from("Description with words"),
            param: vec![Param {
                name: String::from("foo"),
                description: Some(String::from("bar")),
                type_: Some(ParamType::ArrayOf(Box::new(ParamType::Boolean))),
                optional: false,
            },],
            example: Vec::new()
        })
    );

    assert_eq!(
        LiquidDocs::parse_doc_content("Description with words\n@param {object[]} foo bar"),
        Ok(DocBlock {
            description: String::from("Description with words"),
            param: vec![Param {
                name: String::from("foo"),
                description: Some(String::from("bar")),
                type_: Some(ParamType::ArrayOf(Box::new(ParamType::Object))),
                optional: false,
            },],
            example: Vec::new()
        })
    );
}

#[test]
fn parse_doc_content_example_indentation_test() {
    assert_eq!(
        LiquidDocs::parse_doc_content(
            r#"
@example
{% raw %}
	{% render 'card' %}
{% endraw %}
"#
        ),
        Ok(DocBlock {
            description: String::new(),
            param: Vec::new(),
            example: vec![String::from("{% raw %}\n\t{% render 'card' %}\n{% endraw %}")],
        })
    );

    assert_eq!(
        LiquidDocs::parse_doc_content(
            r#"
				@example
				{% raw %}
					{% render 'card' %}
				{% endraw %}
				"#
        ),
        Ok(DocBlock {
            description: String::new(),
            param: Vec::new(),
            example: vec![String::from("{% raw %}\n\t{% render 'card' %}\n{% endraw %}")],
        })
    );

    assert_eq!(
        LiquidDocs::parse_doc_content(
            r#"
				@example
					{% raw %}
						{% render 'card' %}
					{% endraw %}
				"#
        ),
        Ok(DocBlock {
            description: String::new(),
            param: Vec::new(),
            example: vec![String::from("{% raw %}\n\t{% render 'card' %}\n{% endraw %}")],
        })
    );

    assert_eq!(
        LiquidDocs::parse_doc_content(
            r#"
				@example
					{% raw %}
			{% render 'card' %}
	{% endraw %}
				"#
        ),
        Ok(DocBlock {
            description: String::new(),
            param: Vec::new(),
            example: vec![String::from("{% raw %}\n{% render 'card' %}\n{% endraw %}")],
        })
    );

    assert_eq!(
        LiquidDocs::parse_doc_content("@example\n{% raw %}\n{% render 'card' %}\n{% endraw %}"),
        Ok(DocBlock {
            description: String::new(),
            param: Vec::new(),
            example: vec![String::from("{% raw %}\n{% render 'card' %}\n{% endraw %}")],
        })
    );
}

#[test]
fn parse_doc_content_param_error_test() {
    assert_eq!(
        LiquidDocs::parse_doc_content("Description with words\n @param \n"),
        Err(ParsingError::MissingParameterName {
            line: 2,
            column: 2,
            message: String::from("@param \n")
        })
    );

    assert_eq!(
        LiquidDocs::parse_doc_content("Description with words\n  @param foo\n  @param \n  @param foo"),
        Err(ParsingError::MissingParameterName {
            line: 3,
            column: 3,
            message: String::from("@param \n  @param foo")
        })
    );

    assert_eq!(
        LiquidDocs::parse_doc_content("Description with words\n @param "),
        Err(ParsingError::UnexpectedParameterEnd(String::from("@param ")))
    );

    assert_eq!(LiquidDocs::parse_doc_content(""), Err(ParsingError::NoDocContentFound));

    assert_eq!(
        LiquidDocs::parse_doc_content("Description with words\n @param [foo bar"),
        Err(ParsingError::MissingOptionalClosingBracket(String::from("@param [foo bar")))
    );

    assert_eq!(
        LiquidDocs::parse_doc_content("Description with words\n @param {string foo bar"),
        Err(ParsingError::UnexpectedParameterEnd(String::from("@param {string foo bar")))
    );

    assert_eq!(
        LiquidDocs::parse_doc_content("Description with words\n @param {unknown} foo - bar\n\n end\n"),
        Err(ParsingError::UnknownParameterType(String::from("unknown")))
    );
}

#[test]
fn consume_whitespace_test() {
    let content = " \n mid    \nend!";
    let mut instance = LiquidDocs::new(content);

    instance.consume_whitespace();
    assert_eq!(instance.next(), Some((3, 'm')));
    instance.consume_whitespace();
    assert_eq!(instance.next(), Some((4, 'i')));
    instance.consume_whitespace();
    assert_eq!(instance.next(), Some((5, 'd')));
    instance.consume_whitespace();
    assert_eq!(instance.next(), Some((11, 'e')));
    instance.consume_whitespace();
    assert_eq!(instance.next(), Some((12, 'n')));
    instance.consume_whitespace();
    assert_eq!(instance.next(), Some((13, 'd')));
    instance.consume_whitespace();
    assert_eq!(instance.next(), Some((14, '!')));
    instance.consume_whitespace();
    assert_eq!(instance.next(), None);
    instance.consume_whitespace();
    assert_eq!(instance.next(), None);
}

#[test]
fn consume_whitespace_until_newline_test() {
    let content = " \n mid    \nend!";
    let mut instance = LiquidDocs::new(content);

    instance.consume_whitespace_until_newline();
    assert_eq!(instance.next(), Some((1, '\n')));
    instance.consume_whitespace_until_newline();
    assert_eq!(instance.next(), Some((3, 'm')));
    instance.consume_whitespace_until_newline();
    assert_eq!(instance.next(), Some((4, 'i')));
    instance.consume_whitespace_until_newline();
    assert_eq!(instance.next(), Some((5, 'd')));
    instance.consume_whitespace_until_newline();
    assert_eq!(instance.next(), Some((10, '\n')));
    instance.consume_whitespace_until_newline();
    assert_eq!(instance.next(), Some((11, 'e')));
    instance.consume_whitespace_until_newline();
    assert_eq!(instance.next(), Some((12, 'n')));
    instance.consume_whitespace_until_newline();
    assert_eq!(instance.next(), Some((13, 'd')));
    instance.consume_whitespace_until_newline();
    assert_eq!(instance.next(), Some((14, '!')));
    instance.consume_whitespace_until_newline();
    assert_eq!(instance.next(), None);
    instance.consume_whitespace_until_newline();
    assert_eq!(instance.next(), None);
}

#[test]
fn skip_dash_test() {
    let content = "{% tag -%}";
    let mut instance = LiquidDocs::new(content);

    instance.skip_dash();
    assert_eq!(instance.next(), Some((0, '{')));
    instance.skip_dash();
    assert_eq!(instance.next(), Some((1, '%')));
    instance.skip_dash();
    assert_eq!(instance.next(), Some((2, ' ')));
    instance.skip_dash();
    assert_eq!(instance.next(), Some((3, 't')));
    instance.skip_dash();
    assert_eq!(instance.next(), Some((4, 'a')));
    instance.skip_dash();
    assert_eq!(instance.next(), Some((5, 'g')));
    instance.skip_dash();
    assert_eq!(instance.next(), Some((6, ' ')));
    instance.skip_dash();
    assert_eq!(instance.next(), Some((8, '%')));
    instance.skip_dash();
    assert_eq!(instance.next(), Some((9, '}')));
    instance.skip_dash();
    assert_eq!(instance.next(), None);
    instance.skip_dash();
    assert_eq!(instance.next(), None);
}

#[test]
fn peek_matches_test() {
    let content = "{% liquid";
    let mut instance = LiquidDocs::new(content);

    assert_eq!(instance.peek_matches("liquid"), false);
    assert_eq!(instance.next(), Some((0, '{')));
    assert_eq!(instance.peek_matches("liquid"), false);
    assert_eq!(instance.next(), Some((1, '%')));
    assert_eq!(instance.peek_matches("liquid"), false);
    assert_eq!(instance.next(), Some((2, ' ')));
    assert_eq!(instance.peek_matches("liquid"), true);
    assert_eq!(instance.next(), Some((3, 'l')));
    assert_eq!(instance.peek_matches("liquid"), false);
    assert_eq!(instance.peek_matches("iquid"), true);
    assert_eq!(instance.peek_matches("iqui"), false);
}

#[test]
fn consume_chars_test() {
    let content = "0123456789end";
    let mut instance = LiquidDocs::new(content);

    assert_eq!(instance.next(), Some((0, '0')));
    instance.consume_chars(1);
    assert_eq!(instance.next(), Some((2, '2')));
    instance.consume_chars(5);
    assert_eq!(instance.next(), Some((8, '8')));
}

#[test]
fn skip_to_tag_close_test() {
    let content = "{% tag %}end";
    let mut instance = LiquidDocs::new(content);

    assert_eq!(instance.next(), Some((0, '{')));
    assert_eq!(instance.next(), Some((1, '%')));
    assert_eq!(instance.next(), Some((2, ' ')));
    instance.skip_to_tag_close();
    assert_eq!(instance.next(), Some((3, 't')));
    instance.skip_to_tag_close();
    assert_eq!(instance.next(), Some((4, 'a')));
    instance.skip_to_tag_close();
    assert_eq!(instance.next(), Some((5, 'g')));
    instance.skip_to_tag_close();
    assert_eq!(instance.next(), Some((9, 'e')));
    instance.skip_to_tag_close();
    assert_eq!(instance.next(), Some((10, 'n')));
}

#[test]
fn consume_until_test() {
    let content = "start @test end";

    assert_eq!(LiquidDocs::new(content).consume_until("@test"), Some(6));
    assert_eq!(LiquidDocs::new(content).consume_until("@"), Some(6));
    assert_eq!(LiquidDocs::new(content).consume_until("t"), Some(1));
    assert_eq!(LiquidDocs::new(content).consume_until("te"), Some(7));
}

#[test]
fn consume_until_either_test() {
    let content = "start @param end";
    assert_eq!(
        LiquidDocs::new(content).consume_until_either(&["@param ", "@example ", "@description "]),
        Some(6)
    );

    let content = r#"
Description with words @ foobar
end!

@param {string}  [var1] - Optional variable 1"#;
    assert_eq!(
        LiquidDocs::new(content).consume_until_either(&["@param ", "@example ", "@description "]),
        Some(39)
    );
}

#[test]
fn skip_to_tag_test() {
    let content = "{%- tag-%}stuff stuff {%-    endtag  %}";
    let mut instance = LiquidDocs::new(content);

    assert_eq!(instance.skip_to_tag("tag", false), Some(0));
    let mut instance = LiquidDocs::new(content);
    assert_eq!(instance.skip_to_tag("tag", true), Some(10));
    assert_eq!(instance.skip_to_tag("endtag", false), Some(22));
    let mut instance = LiquidDocs::new(content);
    assert_eq!(instance.skip_to_tag("endtag", true), Some(39));
}

#[test]
fn get_line_and_column_test() {
    let content = "12345\n678910\n1112131415\n1617181920";
    let instance = LiquidDocs::new(content);

    assert_eq!(&content[4..5], "5");
    assert_eq!(instance.get_line_and_column(4), (1, 5));

    assert_eq!(&content[19..21], "14");
    assert_eq!(instance.get_line_and_column(19), (3, 7));
}
