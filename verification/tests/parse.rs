use logfmt::Log;

#[test]
fn message_with_attributes() {
    let result =
        Log::parse("this is foo=bar duration=10 a value=\"with spaces\" message").unwrap();
    assert_eq!(result.message(), "this is a message");
    let attrs = result.attributes();
    assert_eq!(attrs.len(), 3);
    assert_eq!(attrs[0].0, "foo");
    assert_eq!(attrs[0].1, "bar");
    assert_eq!(attrs[1].0, "duration");
    assert_eq!(attrs[1].1, "10");
    assert_eq!(attrs[2].0, "value");
    assert_eq!(attrs[2].1, "\"with spaces\"");
}

#[test]
fn message_with_override() {
    let result =
        Log::parse("this is foo=bar a duration=10 message message=\"I am a message\"").unwrap();
    assert_eq!(result.message(), "\"I am a message\"");
    let attrs = result.attributes();
    assert_eq!(attrs.len(), 2);
    assert_eq!(attrs[0].0, "foo");
    assert_eq!(attrs[0].1, "bar");
    assert_eq!(attrs[1].0, "duration");
    assert_eq!(attrs[1].1, "10");
}

#[test]
fn attributes_only() {
    let message = "foo=bar duration=100";
    let result = Log::parse("foo=bar duration=100").unwrap();
    assert_eq!(result.message(), message);
    let attrs = result.attributes();
    assert_eq!(attrs.len(), 2);
    assert_eq!(attrs[0].0, "foo");
    assert_eq!(attrs[0].1, "bar");
    assert_eq!(attrs[1].0, "duration");
    assert_eq!(attrs[1].1, "100");
}

#[test]
fn webrequests() {
    let cases: [(&str, Vec<(&str, &str)>); 2] = [
        (
            "baseUrl=\"/\" hostname=localhost protocol=http",
            vec![("baseUrl", "\"/\""), ("hostname", "localhost"), ("protocol", "http")],
        ),
        (
            "baseUrl=\"/\" hostname=localhost protocol=http name=matthew",
            vec![
                ("baseUrl", "\"/\""),
                ("hostname", "localhost"),
                ("protocol", "http"),
                ("name", "matthew"),
            ],
        ),
    ];
    for (request, attributes) in cases {
        let log = Log::parse(request).unwrap();
        assert_eq!(log.message(), request);
        let attrs = log.attributes();
        assert_eq!(attrs.len(), attributes.len());
        for (i, (k, v)) in attributes.iter().enumerate() {
            assert_eq!(attrs[i].0, *k);
            assert_eq!(attrs[i].1, *v);
        }
    }
}
