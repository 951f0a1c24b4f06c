use rest_rs::preload::{
    parse_field_segment, parse_list_segment, parse_list_segment_all, parse_list_segment_index,
    parse_preload, parse_selector, ListSegment, ParseError, Segment, Selector,
};

#[test]
fn test_parse_preload() {
    let result = parse_preload("\"/some_field/1234/*\", \"/other_field/*/1234\"");
    let excepted = vec![
        Selector {
            segments: vec![
                Segment::Field("some_field"),
                Segment::List(ListSegment::Index(1234)),
                Segment::List(ListSegment::All),
            ],
        },
        Selector {
            segments: vec![
                Segment::Field("other_field"),
                Segment::List(ListSegment::All),
                Segment::List(ListSegment::Index(1234)),
            ],
        },
    ];

    assert_eq!(result, Ok(("", excepted)))
}

#[test]
fn test_parse_selector() {
    let result = parse_selector("/some_field/1234/*");
    let excepted = Selector {
        segments: vec![
            Segment::Field("some_field"),
            Segment::List(ListSegment::Index(1234)),
            Segment::List(ListSegment::All),
        ],
    };

    assert_eq!(result, Ok(("", excepted)))
}

#[test]
fn test_parse_field_segment() {
    let result = parse_field_segment("/some_field");
    let excepted = Segment::Field("some_field");

    assert_eq!(result, Ok(("", excepted)))
}

#[test]
fn test_parse_list_segment_all() {
    let result = parse_list_segment_all("/*");
    let excepted = ListSegment::All;

    assert_eq!(result, Ok(("", excepted)))
}

#[test]
fn test_parse_list_segment_index() {
    let result = parse_list_segment_index("/123456789");
    let excepted = ListSegment::Index(123456789);

    assert_eq!(result, Ok(("", excepted)))
}

#[test]
fn preload_stops_at_what_does_not_continue_the_list() {
    assert_eq!(parse_preload(""), Ok(("", vec![])));
    assert_eq!(parse_preload("nothing"), Ok(("nothing", vec![])));
    let result = parse_preload("\"/a\" , \"/b\", oops");
    let expected = vec![
        Selector { segments: vec![Segment::Field("a")] },
        Selector { segments: vec![Segment::Field("b")] },
    ];
    assert_eq!(result, Ok((", oops", expected)));
}

#[test]
fn index_too_large_for_u32_is_not_a_list_segment() {
    assert_eq!(parse_list_segment_index("/4294967295"), Ok(("", ListSegment::Index(4294967295))));
    assert_eq!(parse_list_segment_index("/4294967296"), Err(ParseError));
    assert_eq!(parse_list_segment("/4294967296"), Err(ParseError));
    let result = parse_selector("/4294967296");
    assert_eq!(result, Ok(("", Selector { segments: vec![Segment::Field("4294967296")] })));
}

#[test]
fn field_names_keep_their_escapes() {
    assert_eq!(parse_field_segment("/a\\\"b/c"), Ok(("/c", Segment::Field("a\\\"b"))));
    assert_eq!(parse_field_segment("/a\\x"), Err(ParseError));
    assert_eq!(parse_field_segment("/\"x"), Err(ParseError));
    assert_eq!(parse_field_segment("/"), Ok(("", Segment::Field(""))));
    assert_eq!(parse_field_segment("/ünï_cödé7 rest"), Ok((" rest", Segment::Field("ünï_cödé7"))));
}

#[test]
fn list_segments() {
    assert_eq!(parse_list_segment("/*/x"), Ok(("/x", Segment::List(ListSegment::All))));
    assert_eq!(parse_list_segment("/12x"), Ok(("x", Segment::List(ListSegment::Index(12)))));
    assert_eq!(parse_list_segment("/x"), Err(ParseError));
    assert_eq!(parse_list_segment_all("/x"), Err(ParseError));
}
