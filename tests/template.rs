use batch_rename::template::{Segment, Template, TemplateParser};

fn segments_of(template: &Template) -> Vec<Segment> {
    template.segments().cloned().collect()
}

#[test]
fn can_create_template() {
    let parser = TemplateParser::new();
    let segments = segments_of(&parser.parse("Moab Vacation {o} {n:4}"));
    let expected = vec![
        Segment::Literal(String::from("Moab Vacation ")),
        Segment::Filename(1),
        Segment::Literal(String::from(" ")),
        Segment::Numeric(4),
    ];
    assert_eq!(segments, expected);
}

#[test]
fn compiling_twice_gives_equal_segments() {
    let parser = TemplateParser::new();
    let text = "Fuzzy Bear {n:3}-{o:3} (original)";
    assert_eq!(segments_of(&parser.parse(text)), segments_of(&parser.parse(text)));
}

#[test]
fn every_specifier_is_recognised() {
    let parser = TemplateParser::new();
    let segments = segments_of(&parser.parse("{n}{N:2}{0:3}{o}{O:2}{f:3}{F:4}"));
    let expected = vec![
        Segment::Numeric(1),
        Segment::Numeric(2),
        Segment::Numeric(3),
        Segment::Filename(1),
        Segment::Filename(2),
        Segment::Filename(3),
        Segment::Filename(4),
    ];
    assert_eq!(segments, expected);
}

#[test]
fn unrecognised_token_is_dropped() {
    let parser = TemplateParser::new();
    let segments = segments_of(&parser.parse("a{x}b{q:3}c"));
    let expected = vec![
        Segment::Literal("a".to_string()),
        Segment::Literal("b".to_string()),
        Segment::Literal("c".to_string()),
    ];
    assert_eq!(segments, expected);
}

#[test]
fn malformed_tokens_stay_literal() {
    let parser = TemplateParser::new();
    for text in ["{n", "{n:}", "{n:x}", "{}", "{ n}", "n}", "{:3}", "{nn}"] {
        assert_eq!(segments_of(&parser.parse(text)), vec![Segment::Literal(text.to_string())]);
    }
}

#[test]
fn empty_template_has_no_segments() {
    let parser = TemplateParser::new();
    assert!(segments_of(&parser.parse("")).is_empty());
}

#[test]
fn brace_before_token_is_literal() {
    let parser = TemplateParser::new();
    let segments = segments_of(&parser.parse("{{n}}"));
    let expected = vec![
        Segment::Literal("{".to_string()),
        Segment::Numeric(1),
        Segment::Literal("}".to_string()),
    ];
    assert_eq!(segments, expected);
}

#[test]
fn zero_or_oversized_width_counts_as_one() {
    let parser = TemplateParser::new();
    assert_eq!(segments_of(&parser.parse("{n:0}")), vec![Segment::Numeric(1)]);
    assert_eq!(
        segments_of(&parser.parse("{o:99999999999999999999999}")),
        vec![Segment::Filename(1)]
    );
    assert_eq!(segments_of(&parser.parse("{n:007}")), vec![Segment::Numeric(7)]);
}

#[test]
fn render_pads_and_cuts() {
    let parser = TemplateParser::new();
    let template = parser.parse("{n:3}_{o:2}_{o}");
    assert_eq!(template.render(7, 0, "holiday"), "007_ho_holiday");
    assert_eq!(template.render(7, 5, "holiday"), "00007_ho_holiday");
    assert_eq!(template.render(12345, 0, "a"), "12345_a_a");
    assert_eq!(template.render(0, 0, ""), "000__");
}

#[test]
fn render_handles_non_ascii_names() {
    let parser = TemplateParser::new();
    let template = parser.parse("{o:2}-{n}");
    assert_eq!(template.render(4, 0, "ñandú"), "ña-4");
}
