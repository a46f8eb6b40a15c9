use logfmt::Log;

#[test]
fn message_override_simple() {
    let log = Log::parse("hello msg=world").unwrap();
    assert_eq!(log.message(), "world");
    assert_eq!(log.attributes().len(), 0);
}

#[test]
fn message_override_last_wins() {
    let log = Log::parse("msg=first again msg=second").unwrap();
    assert_eq!(log.message(), "second");
    assert_eq!(log.attributes().len(), 0);
}

#[test]
fn quoted_override_key() {
    // The key "msg" wrapped in quotes also overrides.
    let log = Log::parse("\"msg\"=x").unwrap();
    assert_eq!(log.message(), "x");
    assert_eq!(log.attributes().len(), 0);
}

#[test]
fn empty_override_value_yields_empty_message() {
    // The override writes the buffer (with an empty value), so the final
    // message is that buffer, not the verbatim input; the later word is
    // discarded.
    let log = Log::parse("msg= hello").unwrap();
    assert_eq!(log.message(), "");
    assert_eq!(log.attributes().len(), 0);
}

#[test]
fn duplicate_key_updates_in_place() {
    let log = Log::parse("a=1 b=2 a=3").unwrap();
    assert_eq!(log.message(), "a=1 b=2 a=3");
    let attrs = log.attributes();
    assert_eq!(attrs.len(), 2);
    assert_eq!(attrs[0].0, "a");
    assert_eq!(attrs[0].1, "3");
    assert_eq!(attrs[1].0, "b");
    assert_eq!(attrs[1].1, "2");
}

#[test]
fn capacity_cap_diverts_to_message() {
    let mut input = String::new();
    for i in 0..26 {
        if i > 0 {
            input.push(' ');
        }
        input.push_str(&format!("k{}={}", i, i));
    }
    let log = Log::parse(&input).unwrap();
    let attrs = log.attributes();
    assert_eq!(attrs.len(), 25);
    for i in 0..25 {
        assert_eq!(attrs[i].0, format!("k{}", i));
        assert_eq!(attrs[i].1, format!("{}", i));
    }
    assert_eq!(log.message(), "k25=25");
}

#[test]
fn capacity_cap_diverts_even_existing_keys() {
    let mut input = String::new();
    for i in 0..25 {
        if i > 0 {
            input.push(' ');
        }
        input.push_str(&format!("k{}={}", i, i));
    }
    input.push_str(" k0=new");
    let log = Log::parse(&input).unwrap();
    let attrs = log.attributes();
    assert_eq!(attrs.len(), 25);
    assert_eq!(attrs[0].0, "k0");
    assert_eq!(attrs[0].1, "0");
    assert_eq!(log.message(), "k0=new");
}

#[test]
fn unclosed_string_is_an_error() {
    assert!(Log::parse("foo=\"bar baz").is_err());
}

#[test]
fn fully_quoted_token_is_one_token() {
    // A leading quote opens a span like any other quote, so the whole quoted
    // text is one token, kept verbatim in the message.
    let log = Log::parse("\"a b\"").unwrap();
    assert_eq!(log.message(), "\"a b\"");
    assert_eq!(log.attributes().len(), 0);
}

#[test]
fn odd_number_of_quotes_is_an_error() {
    assert!(Log::parse("\"msg\"=\"").is_err());
}

#[test]
fn whitespace_is_collapsed_into_the_message() {
    let log = Log::parse("  hello \t  world ").unwrap();
    assert_eq!(log.message(), "hello world");
    assert_eq!(log.attributes().len(), 0);
}

#[test]
fn unicode_whitespace_splits_tokens() {
    let log = Log::parse("a\u{3000}b").unwrap();
    assert_eq!(log.message(), "a b");
    assert_eq!(log.attributes().len(), 0);
}

#[test]
fn all_whitespace_passes_through_verbatim() {
    let log = Log::parse("   ").unwrap();
    assert_eq!(log.message(), "   ");
    assert_eq!(log.attributes().len(), 0);
}

#[test]
fn empty_input_stays_empty() {
    let log = Log::parse("").unwrap();
    assert_eq!(log.message(), "");
    assert_eq!(log.attributes().len(), 0);
}

#[test]
fn interior_quote_demotes_to_word() {
    let log = Log::parse("a\"\"b=c").unwrap();
    assert_eq!(log.message(), "a\"\"b=c");
    assert_eq!(log.attributes().len(), 0);
}

#[test]
fn unbalanced_quoting_demotes_to_word() {
    // The key ends with a quote without starting with one.
    let log = Log::parse("ab\"=c\"").unwrap();
    assert_eq!(log.message(), "ab\"=c\"");
    assert_eq!(log.attributes().len(), 0);
}

#[test]
fn long_unquoted_key_demotes_to_word() {
    let key: String = std::iter::repeat('a').take(51).collect();
    let input = format!("{}=v", key);
    let log = Log::parse(&input).unwrap();
    assert_eq!(log.message(), input);
    assert_eq!(log.attributes().len(), 0);
}

#[test]
fn key_with_disallowed_character_demotes_to_word() {
    let log = Log::parse("a!=b").unwrap();
    assert_eq!(log.message(), "a!=b");
    assert_eq!(log.attributes().len(), 0);
}

#[test]
fn non_ascii_alphanumeric_key_is_accepted() {
    let log = Log::parse("clé=1").unwrap();
    assert_eq!(log.message(), "clé=1");
    let attrs = log.attributes();
    assert_eq!(attrs.len(), 1);
    assert_eq!(attrs[0].0, "clé");
    assert_eq!(attrs[0].1, "1");
}

#[test]
fn bare_equals_makes_an_empty_attribute() {
    let log = Log::parse("a = b").unwrap();
    assert_eq!(log.message(), "a b");
    let attrs = log.attributes();
    assert_eq!(attrs.len(), 1);
    assert_eq!(attrs[0].0, "");
    assert_eq!(attrs[0].1, "");
}
