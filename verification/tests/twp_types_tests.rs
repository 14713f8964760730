use liquid_doc_parser::{DocBlock, Param, ParamType, TwpTypes};

#[test]
fn twp_types_extract_doc_blocks_test() {
    assert_eq!(TwpTypes::extract_doc_blocks("test"), None);
    assert_eq!(TwpTypes::extract_doc_blocks("{% doc %}test{% enddoc %}test"), Some(vec!["test"]));
    assert_eq!(TwpTypes::extract_doc_blocks("{%- doc %}test{% enddoc %}test"), Some(vec!["test"]));
    assert_eq!(TwpTypes::extract_doc_blocks("{%- doc -%}test{% enddoc %}test"), Some(vec!["test"]));
    assert_eq!(TwpTypes::extract_doc_blocks("{%- doc -%}test{%- enddoc %}test"), Some(vec!["test"]));
    assert_eq!(TwpTypes::extract_doc_blocks("{%- doc -%}test{%- enddoc -%}test"), Some(vec!["test"]));
    assert_eq!(TwpTypes::extract_doc_blocks("{% doc %}test{% enddoc1 %}test"), None);
    assert_eq!(
        TwpTypes::extract_doc_blocks(
            "{% doc %}block1\n  line1\n  line2\n  line3\n\n{% enddoc %}test\n{% doc %}block2{% enddoc %}"
        ),
        Some(vec!["block1\n  line1\n  line2\n  line3\n\n", "block2"])
    );
    assert_eq!(TwpTypes::extract_doc_blocks("{% doc %}\n\ntest{% enddoc %}\n\ntest"), Some(vec!["\n\ntest"]));
    assert_eq!(
        TwpTypes::extract_doc_blocks("{%       doc  %}  test {%  enddoc         %} test"),
        Some(vec!["  test "])
    );
    assert_eq!(TwpTypes::extract_doc_blocks("{%doc%}test{%enddoc%}test"), Some(vec!["test"]));
    assert_eq!(TwpTypes::extract_doc_blocks("{% raw %}{% doc %}test{% enddoc %}{% endraw %}test"), None);
    assert_eq!(TwpTypes::extract_doc_blocks("{% raw %}{% doc %}test{% enddoc %}{% endraw %}test"), None);
    assert_eq!(TwpTypes::extract_doc_blocks("{% comment %}{% doc %}test{% enddoc %}{% endcomment %}test"), None);
    assert_eq!(TwpTypes::extract_doc_blocks("{% doc %}{% enddoc %}"), Some(vec![""]));

    let doc = r#"
  Provides an example of a snippet description.

  @param {string} title - The title to display
  @param {number} [max_items] - Optional maximum number of items to show

  @example
  {% render 'example-snippet', title: 'Featured Products', max_items: 3 %}
"#;
    let content = format!(
        r#"{{% doc %}}{doc}{{% enddoc %}}
{{% if article.image %}}
	<div class="article-card__image">
		{{%- render 'component-image', image: article.image, aspect_ratio: 'natural', max_width: 960, sizes: sizes -%}}
		<div class="image-overlay"></div>
	</div>
{{% endif %}}
"#
    );

    assert_eq!(TwpTypes::extract_doc_blocks(&content), Some(vec![doc]));
}

#[test]
fn twp_types_parse_doc_content_description_test() {
    assert_eq!(TwpTypes::parse_doc_content("test"), None);
    assert_eq!(
        TwpTypes::parse_doc_content(
            r#"
			The description 1
			With new lines
		and different indentation
end

@description The description 2
also with new lines
  and some indentation
end
"#
        ),
        Some(DocBlock {
            description: String::from("The description 1\n\t\t\tWith new lines\n\t\tand different indentation\nend"),
            param: Vec::new(),
            example: Vec::new()
        })
    );
    assert_eq!(
        TwpTypes::parse_doc_content(
            r#"
@description The description 2
also with new lines
  and some indentation
end
"#
        ),
        Some(DocBlock {
            description: String::from("The description 2\nalso with new lines\n  and some indentation\nend"),
            param: Vec::new(),
            example: Vec::new()
        })
    );
}

#[test]
fn twp_parse_doc_content_param_reduced_test() {
    // The reduced parser reads only the built-in type name of a parameter; the name,
    // optionality and description stay unset.
    assert_eq!(
        TwpTypes::parse_doc_content("desc\n@param {string} x"),
        Some(DocBlock {
            description: String::from("desc"),
            param: vec![Param {
                name: String::new(),
                description: None,
                type_: Some(ParamType::String),
                optional: false,
            }],
            example: Vec::new()
        })
    );

    // An unknown type drops the parameter.
    assert_eq!(
        TwpTypes::parse_doc_content("desc\n@param {unknown} x"),
        Some(DocBlock {
            description: String::from("desc"),
            param: Vec::new(),
            example: Vec::new()
        })
    );
}

#[test]
fn find_next_test() {
    let content = "start @test end";

    assert_eq!(TwpTypes::new(content).find_next("@test"), Some(6));
    assert_eq!(TwpTypes::new(content).find_next("@"), Some(6));
    assert_eq!(TwpTypes::new(content).find_next("t"), Some(1));
    assert_eq!(TwpTypes::new(content).find_next("te"), Some(7));
}
