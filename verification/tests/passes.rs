use slack_channel::mrkdwn::document::{bold_header, markdown_to_slack_mrkdwn};
use slack_channel::mrkdwn::entities::escape_slack_entities;
use slack_channel::mrkdwn::lines::strip_inline_bold;
use slack_channel::mrkdwn::spans::{convert_inline_formatting, strip_link_title};
use slack_channel::mrkdwn::tables::convert_tables;
use slack_channel::mrkdwn::urls::wrap_bare_urls;

#[test]
fn inline_code_in_headers_is_kept() {
    assert_eq!(markdown_to_slack_mrkdwn("# Use `ls -l`"), "*USE `ls -l`*");
    assert_eq!(markdown_to_slack_mrkdwn("## `__init__` and **more**"), "*`__init__` AND MORE*");
    assert_eq!(markdown_to_slack_mrkdwn("### `a` **b** `c**d`"), "*`a` b `c**d`*");
    assert_eq!(bold_header(1, "é `é` x"), "*É `é` X*");
    assert_eq!(bold_header(3, "é `é` x"), "*é `é` x*");
}

#[test]
fn bold_markers_are_stripped_outside_of_code() {
    assert_eq!(strip_inline_bold("**Title**"), "Title");
    assert_eq!(strip_inline_bold("__a__ **b**"), "a b");
    assert_eq!(strip_inline_bold("**a `**` b**"), "a `**` b");
    assert_eq!(strip_inline_bold("**a"), "**a");
    assert_eq!(strip_inline_bold("a ` **b** c"), "a ` b c");
}

#[test]
fn underscores_look_at_their_neighbours() {
    assert_eq!(convert_inline_formatting("é__x__"), "é__x__");
    assert_eq!(convert_inline_formatting("__x__é"), "__x__é");
    assert_eq!(convert_inline_formatting("__x__—"), "*x*—");
    assert_eq!(convert_inline_formatting("—__x__"), "—*x*");
    assert_eq!(convert_inline_formatting("中__x__"), "中__x__");
    assert_eq!(convert_inline_formatting("a__x__"), "a__x__");
    assert_eq!(convert_inline_formatting("(__x__)"), "(*x*)");
}

#[test]
fn link_titles_follow_white_space() {
    let strip = |raw: &str| {
        let chars: Vec<char> = raw.chars().collect();
        strip_link_title(&chars).iter().collect::<String>()
    };
    assert_eq!(strip("https://example.com\t\"Title\""), "https://example.com");
    assert_eq!(strip(" https://example.com  'T' "), "https://example.com");
    assert_eq!(strip("https://example.com (T)"), "https://example.com");
    assert_eq!(strip("https://example.com/\"x\""), "https://example.com/\"x\"");
    assert_eq!(strip("https://example.com"), "https://example.com");
}

#[test]
fn addresses_in_slack_links_are_kept() {
    for text in [
        "<https://a.io|see https://a.io>",
        "<https://a.io> and <mailto:x@y.z|http://w>",
        "`https://a.io` and `x`",
        "```\nhttps://a.io\n```",
    ] {
        assert_eq!(wrap_bare_urls(text), text);
    }
}

#[test]
fn bare_addresses_are_wrapped() {
    assert_eq!(wrap_bare_urls("(https://a.io)"), "(<https://a.io>)");
    assert_eq!(wrap_bare_urls("[https://a.io]"), "[<https://a.io>]");
    assert_eq!(wrap_bare_urls("|http://a"), "|<http://a>");
    assert_eq!(wrap_bare_urls("a ` https://b"), "a ` <https://b>");
    assert_eq!(wrap_bare_urls("https://a`b c`"), "<https://a>`b c`");
    assert_eq!(wrap_bare_urls("<https://a.io b"), "<<https://a.io> b");
}

#[test]
fn wrapping_twice_changes_nothing() {
    for text in [
        "https://ahttps://b",
        "see https://a.io, (http://b) and <https://c|d>\nhttps://e",
        "<@U https://b and https://c",
        "<https://a",
        "`https://a` https://b `c` https://d`e",
        "<@U `https://a` https://b",
        "```\nhttps://a\n``` \nhttps://b `` c",
        "http://a```",
        "\"https://a\" 'http://b'",
        "a|https://b|c ```https://d```",
    ] {
        let once = wrap_bare_urls(text);
        assert_eq!(wrap_bare_urls(&once), once);
        assert_eq!(text.lines().count(), once.lines().count());
    }
}

#[test]
fn control_characters_are_escaped_outside_of_code() {
    assert_eq!(escape_slack_entities("a ` & b"), "a ` &amp; b");
    assert_eq!(escape_slack_entities("`&` & `<`"), "`&` &amp; `<`");
    assert_eq!(escape_slack_entities("> a > b"), "> a &gt; b");
    assert_eq!(escape_slack_entities("<@U1> & <#C1|x & y>"), "<@U1> &amp; <#C1|x & y>");
    assert_eq!(escape_slack_entities("a <@ & b"), "a &lt;@ &amp; b");
}

#[test]
fn bars_in_code_end_no_cell() {
    assert_eq!(
        convert_tables("| `a|b` | c |\n|---|---|\n| `x || y` | 2 |"),
        "*`a|b`* | *c*\n• `x || y` | 2"
    );
    assert_eq!(convert_tables("| a ` | b |\n| 1 | 2 |"), "*a `* | *b*\n• 1 | 2");
}

/// What stands between pairs of backticks.
fn code_in(line: &str) -> Vec<&str> {
    let pieces: Vec<&str> = line.split('`').collect();
    (1..pieces.len().saturating_sub(1)).step_by(2).map(|k| pieces[k]).collect()
}

#[test]
fn inline_code_is_kept_on_every_line() {
    let text = "**a `**x**` b** and `<y>` & `[z](https://q)`\n\
        - item `https://u` ~~`a|b`~~ __`c & d`__\n\
        1. `# no header` *`i`*\n\
        ### Title `Code <x>` **`y*`**\n\
        [label `l*l*`](https://v.io \"t\") `w`\n\
        a lone ` here https://u.io";
    let out = markdown_to_slack_mrkdwn(text);
    assert_eq!(text.lines().count(), out.lines().count());
    for (before, after) in text.lines().zip(out.lines()) {
        assert_eq!(code_in(before), code_in(after));
    }
    assert_eq!(
        out.lines().next(),
        Some("*a `**x**` b* and `<y>` &amp; `[z](https://q)`")
    );
    assert_eq!(out.lines().last(), Some("a lone ` here <https://u.io>"));
}

#[test]
fn brackets_in_code_end_no_link() {
    assert_eq!(
        convert_inline_formatting("[see `a](b)` x](https://u.io)"),
        "<https://u.io|see `a](b)` x>"
    );
    assert_eq!(convert_inline_formatting("[a `b](https://u) c`"), "[a `b](https://u) c`");
    assert_eq!(convert_inline_formatting("![a `]` b](https://u)"), "<https://u>");
    assert_eq!(convert_inline_formatting("[a ` b](https://u)"), "<https://u|a ` b>");
}

#[test]
fn an_escaped_backtick_opens_no_code() {
    assert_eq!(convert_inline_formatting("\\`*a*\\`"), "`_a_`");
}

#[test]
fn code_in_three_backticks_is_kept() {
    for line in [
        "a ```https://b``` ",
        "a ```x & y``` b",
        "```x & y``` b",
        "a ```*x* `y` [z](https://q)``` b",
        "a ``x ` & y`` b",
    ] {
        assert_eq!(wrap_bare_urls(line), line);
        assert_eq!(escape_slack_entities(line), line);
        assert_eq!(convert_inline_formatting(line), line);
        assert_eq!(markdown_to_slack_mrkdwn(line), line);
    }
    assert_eq!(
        markdown_to_slack_mrkdwn("**see ```**x**``` now** & ```a<b```"),
        "*see ```**x**``` now* &amp; ```a<b```"
    );
    assert_eq!(
        convert_tables("| ```a|b``` | c |\n| 1 | 2 |"),
        "*```a|b```* | *c*\n• 1 | 2"
    );
    assert_eq!(bold_header(1, "a ```b `c``` d"), "*A ```b `c``` D*");
    assert_eq!(strip_inline_bold("**a ```**b**``` c**"), "a ```**b**``` c");
}

#[test]
fn backticks_that_open_no_code_are_kept() {
    assert_eq!(escape_slack_entities("a ``` & `b & c`"), "a ``` &amp; `b & c`");
    assert_eq!(wrap_bare_urls("``` x https://a"), "``` x https://a");
    assert_eq!(wrap_bare_urls("x ``` https://a"), "x ``` <https://a>");
    assert_eq!(convert_inline_formatting("``*a*`"), "``_a_`");
    assert_eq!(wrap_bare_urls("https://a``b"), "<https://a``b>");
}

#[test]
fn addresses_end_at_their_quotation_mark() {
    assert_eq!(wrap_bare_urls("\"https://a.io\""), "\"<https://a.io>\"");
    assert_eq!(wrap_bare_urls("'https://a.io'"), "'<https://a.io>'");
    assert_eq!(wrap_bare_urls("'https://a.io/\"x\"' b"), "'<https://a.io/\"x\">' b");
    assert_eq!(wrap_bare_urls("a|https://b|c"), "a|<https://b>|c");
    assert_eq!(wrap_bare_urls("\"https://a b\""), "\"<https://a> b\"");
    assert_eq!(wrap_bare_urls("https://a\"b"), "<https://a\"b>");
}

#[test]
fn a_block_is_closed_by_the_fence_that_opened_it() {
    assert_eq!(
        markdown_to_slack_mrkdwn("```\n~~~\n**a** & b\n```\n**c**"),
        "```\n~~~\n**a** & b\n```\n*c*"
    );
    assert_eq!(
        markdown_to_slack_mrkdwn("~~~\n```\n**a**\n~~~\n**c**"),
        "```\n```\n**a**\n```\n*c*"
    );
}

#[test]
fn a_shorter_fence_closes_no_block() {
    let text = "````\n```\n**a** & https://b\n```\n````";
    assert_eq!(markdown_to_slack_mrkdwn(text), text);
    assert_eq!(wrap_bare_urls(text), text);
    assert_eq!(escape_slack_entities(text), text);
    assert_eq!(markdown_to_slack_mrkdwn("```\na\n`````\n**b**"), "```\na\n`````\n*b*");
}

#[test]
fn code_at_the_start_of_a_line_opens_no_block() {
    assert_eq!(
        markdown_to_slack_mrkdwn("```x & y``` **a**\n**b** & https://c"),
        "```x & y``` *a*\n*b* &amp; <https://c>"
    );
    assert_eq!(wrap_bare_urls("```x```\nhttps://c"), "```x```\n<https://c>");
    assert_eq!(escape_slack_entities("```x```\n&"), "```x```\n&amp;");
    assert_eq!(
        wrap_bare_urls("```x\nhttps://c\n``` y\nhttps://d"),
        "```x\nhttps://c\n``` y\n<https://d>"
    );
}

#[test]
fn italic_text_has_no_white_space_at_its_ends() {
    assert_eq!(convert_inline_formatting("*\u{a0}a*"), "*\u{a0}a*");
    assert_eq!(convert_inline_formatting("*a\u{2003}*"), "*a\u{2003}*");
    assert_eq!(convert_inline_formatting("*a\u{a0}b*"), "_a\u{a0}b_");
}
