use spore_vm::span::Span;

#[test]
fn contextual_formatter_shows_touched_lines() {
    let src = "\n(define x 10)\n(+ x (+ x \"string\"))\n";
    let start = src.find("(+ x \"string\")").unwrap() as u32;
    let span = Span::new(start, start + 14);
    assert_eq!(
        span.with_src(src).contextual_formatter(),
        "Source:\n  3: (+ x (+ x \"string\"))\n"
    );
}

#[test]
fn contextual_formatter_shows_every_line_of_a_long_span() {
    let src = "a\nb\nc\nd";
    let span = Span::new(3, 5);
    assert_eq!(
        span.with_src(src).contextual_formatter(),
        "Source:\n  2: b\n  3: c\n"
    );
}

#[test]
fn contextual_formatter_pads_line_numbers_to_three() {
    let src: String = (0..1005).map(|i| format!("{i}\n")).collect();
    let start = src.find("1000\n").unwrap() as u32;
    let span = Span::new(start + 1, start + 3);
    assert_eq!(span.with_src(src.as_str()).contextual_formatter(), "Source:\n1001: 1000\n");
    let start = src.find("\n9\n").unwrap() as u32 + 1;
    assert_eq!(
        Span::new(start + 1, start + 1).with_src(src.as_str()).contextual_formatter(),
        "Source:\n 10: 9\n"
    );
}

#[test]
fn span_laws_on_values() {
    let a = Span::new(2, 8);
    let b = Span::new(5, 12);
    assert_eq!(a.overlap(b), Some(Span::new(5, 8)));
    assert_eq!(a.overlap(b), b.overlap(a));
    assert_eq!(a.overlap(a), Some(a));
    assert_eq!(a.overlap(Span::new(9, 10)), None);
    assert_eq!(a.extend_end(4), a);
    assert_eq!(a.extend_end(20), Span::new(2, 20));
    assert_eq!(a.next_window(3), Span::new(8, 11));
    assert_eq!(Span::new(1, 3).with_src("abcd").as_str(), "bc");
}

#[test]
fn contextual_formatter_shows_a_line_touched_at_its_end() {
    // A line's window reaches to the start of the next line, so a span that starts there shows
    // both lines.
    let src = "ab\ncd\n";
    assert_eq!(
        Span::new(3, 4).with_src(src).contextual_formatter(),
        "Source:\n  1: ab\n  2: cd\n"
    );
}
