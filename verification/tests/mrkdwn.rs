use slack_channel::mrkdwn::document::markdown_to_slack_mrkdwn;

#[test]
fn mrkdwn_empty_passthrough() {
    assert_eq!(markdown_to_slack_mrkdwn(""), "");
}

#[test]
fn mrkdwn_plain_text_passthrough() {
    let text = "Hello world, this is a normal message.";
    assert_eq!(markdown_to_slack_mrkdwn(text), text);
}

#[test]
fn mrkdwn_bold_double_asterisk() {
    assert_eq!(markdown_to_slack_mrkdwn("**bold text**"), "*bold text*");
}

#[test]
fn mrkdwn_bold_double_underscore() {
    assert_eq!(markdown_to_slack_mrkdwn("__bold text__"), "*bold text*");
}

#[test]
fn mrkdwn_single_asterisk_to_italic() {
    // Single-asterisk *text* is standard Markdown italic.
    // Slack uses *text* for bold, so we must convert to _text_ (Slack italic).
    assert_eq!(markdown_to_slack_mrkdwn("*italic text*"), "_italic text_");
}

#[test]
fn mrkdwn_bold_and_italic_in_same_line() {
    // **bold** → *bold* (Slack bold), *italic* → _italic_ (Slack italic)
    assert_eq!(
        markdown_to_slack_mrkdwn("**bold** and *italic*"),
        "*bold* and _italic_"
    );
}

#[test]
fn mrkdwn_strikethrough() {
    assert_eq!(
        markdown_to_slack_mrkdwn("~~deleted text~~"),
        "~deleted text~"
    );
}

#[test]
fn mrkdwn_header_h1() {
    assert_eq!(markdown_to_slack_mrkdwn("# Main Title"), "*MAIN TITLE*");
}

#[test]
fn mrkdwn_header_h2() {
    assert_eq!(markdown_to_slack_mrkdwn("## Section"), "*SECTION*");
}

#[test]
fn mrkdwn_header_h3_preserves_case() {
    assert_eq!(markdown_to_slack_mrkdwn("### Sub Section"), "*Sub Section*");
}

#[test]
fn mrkdwn_link_conversion() {
    assert_eq!(
        markdown_to_slack_mrkdwn("[Click here](https://example.com)"),
        "<https://example.com|Click here>"
    );
}

#[test]
fn mrkdwn_image_link() {
    assert_eq!(
        markdown_to_slack_mrkdwn("![alt text](https://img.example.com/pic.png)"),
        "<https://img.example.com/pic.png>"
    );
}

#[test]
fn mrkdwn_bullet_dash() {
    assert_eq!(markdown_to_slack_mrkdwn("- item one"), "• item one");
}

#[test]
fn mrkdwn_bullet_asterisk() {
    assert_eq!(markdown_to_slack_mrkdwn("* item one"), "• item one");
}

#[test]
fn mrkdwn_nested_bullet() {
    assert_eq!(
        markdown_to_slack_mrkdwn("  - nested item"),
        "  • nested item"
    );
}

#[test]
fn mrkdwn_inline_code_preserved() {
    assert_eq!(
        markdown_to_slack_mrkdwn("Use `git status` to check"),
        "Use `git status` to check"
    );
}

#[test]
fn mrkdwn_code_block_preserved() {
    let input = "```rust\nfn main() {\n    println!(\"hello\");\n}\n```";
    let output = markdown_to_slack_mrkdwn(input);
    assert!(output.contains("```rust"));
    assert!(output.contains("fn main()"));
    assert!(output.contains("println!"));
}

#[test]
fn mrkdwn_no_formatting_inside_code_block() {
    let input = "```\n**bold** and *italic* inside code\n```";
    let output = markdown_to_slack_mrkdwn(input);
    assert!(
        output.contains("**bold**"),
        "bold should be preserved in code block"
    );
    assert!(
        output.contains("*italic*"),
        "italic should be preserved in code block"
    );
}

#[test]
fn mrkdwn_inline_code_not_converted() {
    let input = "Run `**not bold**` here";
    let output = markdown_to_slack_mrkdwn(input);
    assert!(output.contains("`**not bold**`"));
}

#[test]
fn mrkdwn_bare_url_wrapped() {
    assert_eq!(
        markdown_to_slack_mrkdwn("Visit https://example.com for more"),
        "Visit <https://example.com> for more"
    );
}

#[test]
fn mrkdwn_already_wrapped_url_unchanged() {
    let input = "Visit <https://example.com> for more";
    assert_eq!(markdown_to_slack_mrkdwn(input), input);
}

#[test]
fn mrkdwn_slack_link_not_double_wrapped() {
    let input = "<https://example.com|Example>";
    assert_eq!(markdown_to_slack_mrkdwn(input), input);
}

#[test]
fn mrkdwn_table_conversion() {
    let input = "| Name  | Age | Role |\n|-------|-----|------|\n| Alice | 30  | Eng  |\n| Bob   | 25  | PM   |";
    let output = markdown_to_slack_mrkdwn(input);
    assert!(output.contains("*Name*"));
    assert!(output.contains("*Age*"));
    assert!(output.contains("*Role*"));
    assert!(output.contains("• Alice | 30 | Eng"));
    assert!(output.contains("• Bob | 25 | PM"));
}

#[test]
fn mrkdwn_mixed_formatting() {
    let input = "## Summary\n\nHere is a **bold** statement with a [link](https://example.com).\n\n- First item\n- Second item with `code`";
    let output = markdown_to_slack_mrkdwn(input);
    assert!(output.contains("*SUMMARY*"));
    assert!(output.contains("*bold*"));
    assert!(output.contains("<https://example.com|link>"));
    assert!(output.contains("• First item"));
    assert!(output.contains("`code`"));
}

#[test]
fn mrkdwn_horizontal_rule_dashes() {
    assert_eq!(markdown_to_slack_mrkdwn("---"), "───────────────────────");
}

#[test]
fn mrkdwn_horizontal_rule_asterisks() {
    assert_eq!(markdown_to_slack_mrkdwn("***"), "───────────────────────");
}

#[test]
fn mrkdwn_horizontal_rule_underscores() {
    assert_eq!(markdown_to_slack_mrkdwn("___"), "───────────────────────");
}

#[test]
fn mrkdwn_horizontal_rule_long() {
    assert_eq!(
        markdown_to_slack_mrkdwn("----------"),
        "───────────────────────"
    );
}

#[test]
fn mrkdwn_horizontal_rule_with_spaces() {
    assert_eq!(markdown_to_slack_mrkdwn("- - -"), "───────────────────────");
}

#[test]
fn mrkdwn_horizontal_rule_in_context() {
    let input = "Above\n\n---\n\nBelow";
    let output = markdown_to_slack_mrkdwn(input);
    assert!(output.contains("Above"));
    assert!(output.contains("───────────────────────"));
    assert!(output.contains("Below"));
}

#[test]
fn mrkdwn_header_strips_bold_markers() {
    assert_eq!(
        markdown_to_slack_mrkdwn("## **Bold Title**"),
        "*BOLD TITLE*"
    );
}

#[test]
fn mrkdwn_header_strips_underscore_bold() {
    assert_eq!(
        markdown_to_slack_mrkdwn("## __Bold Title__"),
        "*BOLD TITLE*"
    );
}

#[test]
fn mrkdwn_bold_italic_triple_asterisk() {
    assert_eq!(
        markdown_to_slack_mrkdwn("***bold italic***"),
        "*_bold italic_*"
    );
}

#[test]
fn mrkdwn_bold_italic_in_sentence() {
    assert_eq!(
        markdown_to_slack_mrkdwn("This is ***important*** text"),
        "This is *_important_* text"
    );
}

#[test]
fn mrkdwn_italic_then_bold_same_line() {
    // *italic* first, then **bold** — both should render correctly.
    assert_eq!(
        markdown_to_slack_mrkdwn("*italic* and **bold**"),
        "_italic_ and *bold*"
    );
}

#[test]
fn mrkdwn_bold_with_nested_italic() {
    // **bold *nested italic* text** — inner *...* must become _..._
    // so the enclosing *...* (Slack bold) is not broken.
    assert_eq!(
        markdown_to_slack_mrkdwn("**bold *nested* text**"),
        "*bold _nested_ text*"
    );
}

#[test]
fn mrkdwn_multiple_bold_and_italic() {
    // Multiple bold and italic segments on the same line.
    assert_eq!(
        markdown_to_slack_mrkdwn("**a** *b* **c** *d*"),
        "*a* _b_ *c* _d_"
    );
}

#[test]
fn mrkdwn_italic_with_inline_code() {
    // Inline code inside italic should be preserved.
    assert_eq!(
        markdown_to_slack_mrkdwn("*use `git status` to check*"),
        "_use `git status` to check_"
    );
}

#[test]
fn mrkdwn_bold_then_italic_adjacent() {
    // Adjacent bold and italic without space.
    assert_eq!(
        markdown_to_slack_mrkdwn("**bold***italic*"),
        "*bold*_italic_"
    );
}

#[test]
fn mrkdwn_unmatched_single_asterisk() {
    // A lone * without a closing pair should pass through as-is.
    assert_eq!(markdown_to_slack_mrkdwn("5 * 3 = 15"), "5 * 3 = 15");
}

#[test]
fn mrkdwn_bullet_with_italic_content() {
    // `* *italic* rest` — the leading `* ` is a bullet, inner *italic*
    // should still convert to _italic_ after bullet conversion.
    assert_eq!(
        markdown_to_slack_mrkdwn("* *italic* rest"),
        "• _italic_ rest"
    );
}

#[test]
fn mrkdwn_math_asterisks_not_italic() {
    // Multiplication expressions should not be converted to italic.
    assert_eq!(
        markdown_to_slack_mrkdwn("result = a * b * c"),
        "result = a * b * c"
    );
}

#[test]
fn mrkdwn_ordered_list() {
    let input = "1. First item\n2. Second item\n3. Third item";
    let output = markdown_to_slack_mrkdwn(input);
    assert!(output.contains("1.  First item"));
    assert!(output.contains("2.  Second item"));
    assert!(output.contains("3.  Third item"));
}

#[test]
fn mrkdwn_ordered_list_double_digit() {
    assert_eq!(
        markdown_to_slack_mrkdwn("10. Tenth item"),
        "10.  Tenth item"
    );
}

#[test]
fn mrkdwn_ordered_list_nested() {
    assert_eq!(
        markdown_to_slack_mrkdwn("  1. Nested item"),
        "  1.  Nested item"
    );
}

#[test]
fn mrkdwn_ordered_list_with_formatting() {
    let input = "1. **Bold** first\n2. *Italic* second";
    let output = markdown_to_slack_mrkdwn(input);
    assert!(output.contains("1.  *Bold* first"));
    // Single-asterisk *Italic* → _Italic_ (Slack italic)
    assert!(output.contains("2.  _Italic_ second"));
}

#[test]
fn mrkdwn_realistic_llm_output() {
    let input = "\
## Summary

Here are the results:

---

**Key findings:**

1. First finding with **bold** emphasis
2. Second finding with *italic* note
3. Third finding

---

### Details

- Item A
- Item B

***Note:*** this is important.";

    let output = markdown_to_slack_mrkdwn(input);
    assert!(output.contains("*SUMMARY*"), "header should be converted");
    assert!(
        output.contains("───────────────────────"),
        "hr should be converted"
    );
    assert!(
        output.contains("*Key findings:*"),
        "bold should be converted"
    );
    assert!(
        output.contains("1.  First finding with *bold* emphasis"),
        "ordered list + bold"
    );
    assert!(
        output.contains("2.  Second finding with _italic_ note"),
        "ordered list + italic (single * → _ for Slack italic)"
    );
    assert!(output.contains("3.  Third finding"), "ordered list plain");
    assert!(output.contains("*Details*"), "h3 should be converted");
    assert!(output.contains("• Item A"), "bullets should be converted");
    assert!(
        output.contains("*_Note:_*"),
        "bold-italic should be converted"
    );
}

#[test]
fn mrkdwn_link_with_title_stripped() {
    // Markdown link with title attribute: title must be stripped.
    assert_eq!(
        markdown_to_slack_mrkdwn(r#"[Click](https://example.com "The best site")"#),
        "<https://example.com|Click>"
    );
}

#[test]
fn mrkdwn_link_with_single_quote_title() {
    assert_eq!(
        markdown_to_slack_mrkdwn("[Click](https://example.com 'Title')"),
        "<https://example.com|Click>"
    );
}

#[test]
fn mrkdwn_image_with_title_stripped() {
    assert_eq!(
        markdown_to_slack_mrkdwn(r#"![alt](https://img.example.com/pic.png "Caption")"#),
        "<https://img.example.com/pic.png>"
    );
}

#[test]
fn mrkdwn_link_without_title_unchanged() {
    // Links without title should still work.
    assert_eq!(
        markdown_to_slack_mrkdwn("[Click](https://example.com)"),
        "<https://example.com|Click>"
    );
}

#[test]
fn mrkdwn_tilde_code_block_converted() {
    // ~~~ fences should be converted to ``` for Slack.
    let input = "~~~rust\nfn main() {}\n~~~";
    let output = markdown_to_slack_mrkdwn(input);
    assert!(
        output.contains("```rust"),
        "tilde fence should become backtick fence"
    );
    assert!(
        output.contains("fn main()"),
        "code content should be preserved"
    );
    assert!(!output.contains("~~~"), "tilde fences should not remain");
}

#[test]
fn mrkdwn_tilde_code_block_no_formatting() {
    // Content inside ~~~ blocks should not be formatted.
    let input = "~~~\n**bold** and *italic*\n~~~";
    let output = markdown_to_slack_mrkdwn(input);
    assert!(
        output.contains("**bold**"),
        "bold should be preserved inside tilde code block"
    );
    assert!(
        output.contains("*italic*"),
        "italic should be preserved inside tilde code block"
    );
}

#[test]
fn mrkdwn_relative_link_emits_text_only() {
    // Relative URLs are meaningless in Slack; emit just the text.
    assert_eq!(
        markdown_to_slack_mrkdwn("[see docs](/api/reference)"),
        "see docs"
    );
}

#[test]
fn mrkdwn_anchor_link_emits_text_only() {
    assert_eq!(
        markdown_to_slack_mrkdwn("[Section](#heading-id)"),
        "Section"
    );
}

#[test]
fn mrkdwn_escaped_asterisks_literal() {
    // \* should produce a literal * and not trigger italic.
    assert_eq!(markdown_to_slack_mrkdwn(r"\*not italic\*"), "*not italic*");
}

#[test]
fn mrkdwn_escaped_double_asterisks_literal() {
    assert_eq!(
        markdown_to_slack_mrkdwn(r"\*\*not bold\*\*"),
        "**not bold**"
    );
}

#[test]
fn mrkdwn_escaped_underscore_literal() {
    assert_eq!(markdown_to_slack_mrkdwn(r"\_not italic\_"), "_not italic_");
}

#[test]
fn mrkdwn_escaped_backtick_literal() {
    assert_eq!(markdown_to_slack_mrkdwn(r"\`not code\`"), "`not code`");
}

#[test]
fn mrkdwn_escaped_backslash() {
    assert_eq!(markdown_to_slack_mrkdwn(r"\\"), r"\");
}

#[test]
fn mrkdwn_mid_word_underscores_not_bold() {
    // Per CommonMark, mid-word __ should NOT trigger bold.
    assert_eq!(markdown_to_slack_mrkdwn("Love__is__bold"), "Love__is__bold");
}

#[test]
fn mrkdwn_dunder_in_prose_not_bold() {
    // Python dunder names mid-word should not be mangled.
    // `foo.__init__` has `__` preceded by `.` (punctuation, not
    // alphanumeric), so the opening `__` IS left-flanking per
    // CommonMark.  But `method__init__call` is truly mid-word.
    assert_eq!(
        markdown_to_slack_mrkdwn("method__init__call"),
        "method__init__call"
    );
}

#[test]
fn mrkdwn_underscore_bold_at_word_boundary() {
    // __bold__ at word boundary should still convert.
    assert_eq!(
        markdown_to_slack_mrkdwn("Use __bold__ here"),
        "Use *bold* here"
    );
}

#[test]
fn mrkdwn_ampersand_escaped() {
    assert_eq!(
        markdown_to_slack_mrkdwn("AT&T is a company"),
        "AT&amp;T is a company"
    );
}

#[test]
fn mrkdwn_angle_brackets_escaped() {
    assert_eq!(
        markdown_to_slack_mrkdwn("a < b && c > d"),
        "a &lt; b &amp;&amp; c &gt; d"
    );
}

#[test]
fn mrkdwn_slack_link_not_escaped() {
    // Angle brackets in Slack link syntax must NOT be escaped.
    assert_eq!(
        markdown_to_slack_mrkdwn("[Click](https://example.com)"),
        "<https://example.com|Click>"
    );
}

#[test]
fn mrkdwn_bare_url_angles_not_escaped() {
    // Bare URL wrapping adds < > which must stay as-is.
    assert_eq!(
        markdown_to_slack_mrkdwn("Visit https://example.com today"),
        "Visit <https://example.com> today"
    );
}

#[test]
fn mrkdwn_blockquote_gt_not_escaped() {
    // > at line start is blockquote, not a control char.
    assert_eq!(markdown_to_slack_mrkdwn("> quoted text"), "> quoted text");
}

#[test]
fn mrkdwn_inline_code_not_entity_escaped() {
    // Inside inline code, & < > should NOT be escaped.
    assert_eq!(
        markdown_to_slack_mrkdwn("Use `a < b && c > d` in code"),
        "Use `a < b && c > d` in code"
    );
}

#[test]
fn mrkdwn_code_block_not_entity_escaped() {
    // Inside code blocks, & < > should NOT be escaped.
    let input = "```\na < b && c > d\n```";
    let output = markdown_to_slack_mrkdwn(input);
    assert!(
        output.contains("a < b && c > d"),
        "code block content should not be entity-escaped"
    );
}

#[test]
fn mrkdwn_mixed_escaping_with_link() {
    // Ampersand in text + link in same line.
    assert_eq!(
        markdown_to_slack_mrkdwn("Check AT&T at [their site](https://att.com)"),
        "Check AT&amp;T at <https://att.com|their site>"
    );
}
