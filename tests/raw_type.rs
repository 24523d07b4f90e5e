use francois::parser::raw_type::{
    attribute, chevron_close, chevron_open, chevron_tag_close, chevron_tag_close_open, chibang,
    comment_cl, comment_op, equal, parse_quoted_string, quote,
};
use francois::parser::ParseError;

fn pair(k: &str, v: &str) -> (String, String) {
    (k.to_string(), v.to_string())
}

#[test]
fn atomic_term() {
    assert_eq!(quote("\""), Ok(("", "\"")));
    assert_eq!(quote("'dd"), Ok(("dd", "'")));

    assert_eq!(equal("="), Ok(("", "=")));
}

#[test]
fn open_start_chevron() {
    assert_eq!(chibang(" \t <!ok"), Ok(("ok", "<!")));

    assert_eq!(comment_op("<!--"), Ok(("", "--")));
}

#[test]
fn close_end_chevron() {
    assert_eq!(chevron_close("  >"), Ok(("", ">")));
}

#[test]
fn quoted_string() {
    let test = r#""je suis une chaîne de caractère ├""#;
    assert_eq!(
        parse_quoted_string(test),
        Ok(("", test.replace("\"", "").as_str()))
    );

    assert_eq!(
        parse_quoted_string(r#"'string!!' ed"#),
        Ok((" ed", "string!!"))
    );
}

#[test]
fn all_attribute() {
    assert_eq!(
        attribute(r#" class="okay boomer""#),
        Ok(("", pair("class", "okay boomer")))
    );
    assert_eq!(
        attribute(r#" class = 'okay boomer'"#),
        Ok(("", pair("class", "okay boomer")))
    );

    assert_eq!(attribute(" load=async"), Ok(("", pair("load", "async"))));

    assert_eq!(attribute(" html"), Ok(("", pair("html", "yes"))));
}

#[test]
fn delimiters_skip_leading_space() {
    assert_eq!(chevron_open("  <a"), Ok(("a", "<")));
    assert_eq!(chevron_tag_close(" />x"), Ok(("x", "/>")));
    assert_eq!(chevron_tag_close_open("\n</p>"), Ok(("p>", "</")));
    assert_eq!(comment_cl("-- >rest"), Ok(("rest", "--")));
}

#[test]
fn delimiters_refuse_other_text() {
    assert_eq!(chevron_open("a<"), Err(ParseError::NoMatch));
    assert_eq!(chevron_close("a"), Err(ParseError::NoMatch));
    assert_eq!(chibang("<a"), Err(ParseError::NoMatch));
    assert_eq!(quote("a'"), Err(ParseError::NoMatch));
    assert_eq!(equal("a"), Err(ParseError::NoMatch));
}

#[test]
fn comment_dashes_are_two_to_a_hundred() {
    assert_eq!(comment_op("<!-x"), Err(ParseError::NoMatch));
    let long = format!("<!{}", "-".repeat(120));
    let (rest, dashes) = comment_op(&long).unwrap();
    assert_eq!(dashes.len(), 100);
    assert_eq!(rest.len(), 20);
}

#[test]
fn quoted_value_keeps_the_other_quote() {
    assert_eq!(
        attribute(r#" title="it's""#),
        Ok(("", pair("title", "it's")))
    );
    assert_eq!(parse_quoted_string("\"\" x"), Ok((" x", "")));
    assert_eq!(parse_quoted_string("\"open"), Err(ParseError::NoMatch));
}

#[test]
fn attribute_needs_leading_space() {
    assert_eq!(attribute("class=\"x\""), Err(ParseError::NoMatch));
    assert_eq!(attribute(" =x"), Err(ParseError::NoMatch));
}

#[test]
fn attribute_with_no_value_form_is_malformed() {
    assert_eq!(attribute(" x=+y"), Err(ParseError::MalformedAttribute));
    assert_eq!(attribute(" x= >"), Err(ParseError::MalformedAttribute));
}

#[test]
fn quoted_form_is_checked_before_bare_word() {
    assert_eq!(attribute(r#" href="a=b" z"#), Ok((" z", pair("href", "a=b"))));
}
