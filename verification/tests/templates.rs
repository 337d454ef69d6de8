use msqueue::enum_parser;
use msqueue::flexi_parser::tokens::{Token, Tokens};
use msqueue::flexi_parser::{self, resolve_token};
use msqueue::simple_parser;
use msqueue::template::StrMap;

fn data_of(pairs: &[(&str, &str)]) -> StrMap {
    let mut data = StrMap::new();
    for (k, v) in pairs {
        data.insert(k.to_string(), v.to_string());
    }
    data
}

#[test]
fn parse_template_simple_builder() {
    let tmpl = String::from("Hello, {{ name }}!");
    let data = data_of(&[("name", "Amin")]);

    let result = enum_parser::parse(tmpl, data);
    assert_eq!("Hello, Amin!", result);
}

#[test]
fn parse_template_capacity_builder() {
    let tmpl = String::from("Hello, {{ name }}!");
    let data = data_of(&[("name", "Amin")]);

    let result = enum_parser::parse_cap(tmpl, data);
    assert_eq!("Hello, Amin!", result);
}

#[test]
fn simple_parser_parse_small_template() {
    let tmpl = String::from("Hello, {{ name }}!");
    let data = data_of(&[("name", "Amin")]);

    let result = simple_parser::parse(tmpl, data);
    assert_eq!("Hello, Amin!", result);
}

#[test]
fn mod_parse_small_template() {
    let tmpl = String::from("Hello, {{ name }}!");
    let data = data_of(&[("name", "Amin")]);

    let result = flexi_parser::parse(tmpl, data).unwrap();
    assert_eq!("Hello, Amin!", result);
}

#[test]
fn parse_ref_small_template() {
    let tmpl = String::from("Hello, {{ name }}!");
    let data = data_of(&[("name", "Amin")]);

    let result = flexi_parser::parse_ref(tmpl, data).unwrap();
    assert_eq!("Hello, Amin!", result);
}

#[test]
fn resolve_token_string_text() {
    let owned = "name".to_owned();
    let tkn = Token::Text(owned.as_str());
    let data = StrMap::new();

    let resolved = resolve_token(&tkn, &data);
    assert_eq!("name".to_owned(), resolved.unwrap());
}

#[test]
fn resolve_token_string_placeholder() {
    let owned = "name".to_owned();
    let tkn = Token::Placeholder(owned.as_str());
    let data = data_of(&[("name", "Amin")]);

    let resolved = resolve_token(&tkn, &data);
    assert_eq!("Amin".to_owned(), resolved.unwrap());
}

#[test]
fn resolve_token_str_text() {
    let tkn = Token::Text("name");
    let data = StrMap::new();

    let resolved = resolve_token(&tkn, &data);
    assert_eq!("name".to_owned(), resolved.unwrap());
}

#[test]
fn resolve_token_str_placeholder() {
    let tkn = Token::Placeholder("name");
    let data = data_of(&[("name", "Amin")]);

    let resolved = resolve_token(&tkn, &data);
    assert_eq!("Amin".to_owned(), resolved.unwrap());
}

#[test]
fn iter() {
    let tmpl = String::from("Hello {{ name }} {{surname}}, Welcome!");

    let tokens = Tokens::from(tmpl);

    let mut actual = Vec::new();
    let mut it = tokens.iter();
    while let Some(t) = it.next() {
        actual.push(t.unwrap());
    }

    let expected = vec![
        Token::Text("Hello "),
        Token::Placeholder("name"),
        Token::Text(" "),
        Token::Placeholder("surname"),
        Token::Text(", Welcome!"),
    ];

    assert_eq!(expected, actual);
}

#[test]
fn into_iter() {
    let tmpl = String::from("Hello {{ name }} {{surname}}, Welcome!");

    let tokens = Tokens::from(tmpl);

    let mut actual = Vec::new();
    let mut it = tokens.into_iter();
    while let Some(t) = it.next() {
        actual.push(t.unwrap());
    }

    let expected = vec![
        Token::Text("Hello ".to_owned()),
        Token::Placeholder("name".to_owned()),
        Token::Text(" ".to_owned()),
        Token::Placeholder("surname".to_owned()),
        Token::Text(", Welcome!".to_owned()),
    ];

    assert_eq!(expected, actual);
}

#[test]
fn iter_should_iterate_correctly() {
    let tmpl = String::from("Hello {{ name }} {{surname}}, Welcome!");

    let mut tokens = msqueue::flexi_parser::iter::Iter::new(&tmpl);
    let mut actual: Vec<Result<Token<&str>, String>> = Vec::new();
    while let Some(t) = tokens.next() {
        actual.push(t);
    }

    let expected = vec![
        Ok(Token::Text("Hello ")),
        Ok(Token::Placeholder("name")),
        Ok(Token::Text(" ")),
        Ok(Token::Placeholder("surname")),
        Ok(Token::Text(", Welcome!")),
    ];

    assert_eq!(expected, actual);
}

#[test]
fn iter_error_when_no_closing_delim() {
    let tmpl = String::from("Hello {{ name }} {{ surnamne  Welcome!");

    let mut tokens = msqueue::flexi_parser::iter::Iter::new(&tmpl);

    assert_eq!(tokens.next(), Some(Ok(Token::Text("Hello "))));
    assert_eq!(tokens.next(), Some(Ok(Token::Placeholder("name"))));
    assert_eq!(
        tokens.next(),
        Some(Err("missing closing delimiter: }}".to_owned()))
    );
    assert_eq!(tokens.next(), None);
}

#[test]
fn into_iter_should_iterate_correctly() {
    let tmpl = String::from("Hello {{ name }} {{surname}}, Welcome!");

    let mut tokens = msqueue::flexi_parser::into_iter::IntoIter::new(tmpl);
    let mut actual: Vec<Result<Token<String>, String>> = Vec::new();
    while let Some(t) = tokens.next() {
        actual.push(t);
    }

    let expected = vec![
        Ok(Token::Text("Hello ".to_owned())),
        Ok(Token::Placeholder("name".to_owned())),
        Ok(Token::Text(" ".to_owned())),
        Ok(Token::Placeholder("surname".to_owned())),
        Ok(Token::Text(", Welcome!".to_owned())),
    ];

    assert_eq!(expected, actual);
}

#[test]
fn into_iter_error_when_no_closing_delim() {
    let tmpl = String::from("Hello {{ name }} {{ surnamne  Welcome!");

    let mut tokens = msqueue::flexi_parser::into_iter::IntoIter::new(tmpl);

    assert_eq!(tokens.next(), Some(Ok(Token::Text("Hello ".to_owned()))));
    assert_eq!(
        tokens.next(),
        Some(Ok(Token::Placeholder("name".to_owned())))
    );
    assert_eq!(
        tokens.next(),
        Some(Err("missing closing delimiter: }}".to_owned()))
    );
    assert_eq!(tokens.next(), None);
}

#[test]
fn parse_reports_missing_key() {
    let tmpl = String::from("Hi {{ who }}");
    let data = StrMap::new();

    let result = flexi_parser::parse(tmpl, data);
    assert_eq!(
        result,
        Err("couldn't find data corresponding to key: who".to_owned())
    );
}

#[test]
fn parse_reports_missing_delimiter() {
    let tmpl = String::from("Hi {{ who");
    let data = data_of(&[("who", "you")]);

    let result = flexi_parser::parse(tmpl, data);
    assert_eq!(result, Err("missing closing delimiter: }}".to_owned()));
}

#[test]
fn try_parse_refuses_what_cannot_render() {
    assert_eq!(
        simple_parser::try_parse("Hi {{ who".to_string(), StrMap::new()),
        None
    );
    assert_eq!(
        enum_parser::try_parse("Hi {{ who }}".to_string(), StrMap::new()),
        None
    );
    assert_eq!(
        enum_parser::try_parse_cap("plain".to_string(), StrMap::new()),
        Some("plain".to_string())
    );
}

#[test]
fn adjacent_placeholders_render() {
    let tmpl = String::from("{{a}}{{b}}");
    let data = data_of(&[("a", "1"), ("b", "2")]);
    assert_eq!(flexi_parser::parse(tmpl, data), Ok("12".to_owned()));
}

#[test]
fn later_insert_wins_in_data() {
    let mut data = StrMap::new();
    data.insert("k".to_string(), "old".to_string());
    data.insert("k".to_string(), "new".to_string());
    assert_eq!(data.get("k"), Some(&"new".to_string()));
    assert_eq!(data.get("missing"), None);
}
