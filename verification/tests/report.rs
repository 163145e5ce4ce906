use redpen::diagnostics::{PanicSpots, SpanSet, Spots};
use redpen::render::{CheckPanic, EmitError, Excerpt, SourceCode, CONTEXT_LABEL, PRIMARY_LABEL, TITLE};
use redpen::span::Span;

const SOURCE: &str = "fn b() {\n    let x = 1;\n    panic();\n}\n";

fn excerpt(lo: u32, source: &str, line: usize) -> Excerpt {
    Excerpt {
        span: Span::new(lo, lo + source.len() as u32),
        source: String::from(source),
        path: String::from("src/demo.rs"),
        line,
    }
}

fn record(decl: (u32, u32), body: (u32, u32), calls: &[(u32, u32)]) -> Spots {
    Spots {
        def: 0,
        decl: Span::new(decl.0, decl.1),
        caller: Span::new(body.0, body.1),
        calls: calls.iter().map(|(lo, hi)| Span::new(*lo, *hi)).collect(),
    }
}

fn plain(text: &str) -> String {
    let mut out = String::new();
    let mut chars = text.chars();
    while let Some(c) = chars.next() {
        if c == '\u{1b}' {
            for d in chars.by_ref() {
                if d.is_ascii_alphabetic() || d == '\\' {
                    break;
                }
            }
        } else {
            out.push(c);
        }
    }
    out
}

#[test]
fn the_layout_counts_from_the_start_of_the_body() {
    let src = SourceCode::new(vec![excerpt(100, SOURCE, 7)]);
    let spots = record((100, 106), (100, 139), &[(128, 135), (113, 122)]);
    let check = CheckPanic::new(spots.decl, &spots, &src);

    let layout = check.layout().unwrap();
    assert_eq!(layout.context, (0, 6));
    assert_eq!(layout.primary, vec![(28, 35), (13, 22)]);
    assert_eq!(&SOURCE[28..35], "panic()");
}

#[test]
fn the_report_shows_the_excerpt_with_its_annotations() {
    let src = SourceCode::new(vec![excerpt(100, SOURCE, 7)]);
    let spots = record((100, 106), (100, 139), &[(128, 135)]);
    let check = CheckPanic::new(spots.decl, &spots, &src);

    let text = plain(&check.emit().unwrap());
    assert!(text.contains(TITLE), "{text}");
    assert!(text.contains(CONTEXT_LABEL), "{text}");
    assert!(text.contains(PRIMARY_LABEL), "{text}");
    assert!(text.contains("src/demo.rs:9:5"), "{text}");
    assert!(text.contains("panic();"), "{text}");
    assert!(text.contains("^^^^^^^ This may panic!"), "{text}");
    assert!(text.contains("------ For this function."), "{text}");
    assert!(text.starts_with("error: A possible panic spot is found."), "{text}");
}

#[test]
fn a_missing_excerpt_ends_the_report() {
    let src = SourceCode::new(vec![excerpt(300, SOURCE, 1)]);
    let spots = record((100, 106), (100, 139), &[(128, 135)]);
    let check = CheckPanic::new(spots.decl, &spots, &src);

    assert_eq!(check.layout().unwrap_err(), EmitError::NoSnippet(Span::new(100, 139)));
    assert_eq!(check.emit().unwrap_err(), EmitError::NoSnippet(Span::new(100, 139)));
    assert!(SourceCode::new(Vec::new()).find(Span::new(100, 139)).is_none());
}

#[test]
fn a_span_outside_the_excerpt_ends_the_report() {
    let src = SourceCode::new(vec![excerpt(100, SOURCE, 1)]);

    let before = record((90, 106), (100, 139), &[(128, 135)]);
    let check = CheckPanic::new(before.decl, &before, &src);
    assert_eq!(check.emit().unwrap_err(), EmitError::OutOfSnippet(Span::new(90, 106)));

    let beyond = record((100, 106), (100, 139), &[(128, 135), (130, 140), (90, 95)]);
    let check = CheckPanic::new(beyond.decl, &beyond, &src);
    assert_eq!(check.layout().unwrap_err(), EmitError::OutOfSnippet(Span::new(130, 140)));

    let backwards = record((100, 106), (100, 139), &[(135, 128)]);
    let check = CheckPanic::new(backwards.decl, &backwards, &src);
    assert_eq!(check.emit().unwrap_err(), EmitError::OutOfSnippet(Span::new(135, 128)));
}

#[test]
fn a_span_that_cuts_a_character_ends_the_report() {
    let source = "fn b() { \u{e9}tat(); }";
    let src = SourceCode::new(vec![excerpt(0, source, 1)]);

    let whole = record((0, 6), (0, source.len() as u32), &[(9, 16)]);
    let check = CheckPanic::new(whole.decl, &whole, &src);
    assert_eq!(check.layout().unwrap().primary, vec![(9, 16)]);
    assert!(plain(&check.emit().unwrap()).contains("\u{e9}tat();"));

    let cut = record((0, 6), (0, source.len() as u32), &[(10, 16)]);
    let check = CheckPanic::new(cut.decl, &cut, &src);
    assert_eq!(check.emit().unwrap_err(), EmitError::OutOfSnippet(Span::new(10, 16)));
}

#[test]
fn a_line_number_at_the_end_of_the_range_ends_the_report() {
    let src = SourceCode::new(vec![excerpt(100, SOURCE, usize::MAX - 5)]);
    let spots = record((100, 106), (100, 139), &[(128, 135)]);
    let check = CheckPanic::new(spots.decl, &spots, &src);
    assert_eq!(check.emit().unwrap_err(), EmitError::BadLine(Span::new(100, 139)));
}

#[test]
fn the_first_excerpt_of_a_span_is_taken() {
    let mut second = excerpt(100, SOURCE, 50);
    second.path = String::from("src/other.rs");
    let src = SourceCode::new(vec![excerpt(0, "fn a() {}", 1), excerpt(100, SOURCE, 7), second]);

    let found = src.find(Span::new(100, 139)).unwrap();
    assert_eq!((found.path.as_str(), found.line), ("src/demo.rs", 7));
    assert_eq!(src.find(Span::new(0, 9)).unwrap().source, "fn a() {}");
    assert!(src.find(Span::new(0, 8)).is_none());
}

#[test]
fn every_record_is_rendered_in_order() {
    let mut spots = PanicSpots::new();
    let mut first = SpanSet::new();
    first.insert(Span::new(128, 135));
    spots.add(4, Span::new(100, 106), Span::new(100, 139), &first);
    let mut second = SpanSet::new();
    second.insert(Span::new(9, 12));
    spots.add(2, Span::new(0, 6), Span::new(0, 15), &second);
    let src =
        SourceCode::new(vec![excerpt(0, "fn a() { b(); }", 1), excerpt(100, SOURCE, 7)]);

    let texts = spots.emit(&src).unwrap();
    assert_eq!(texts.len(), 2);
    assert!(plain(&texts[0]).contains("panic();"));
    assert!(plain(&texts[1]).contains("fn a() { b(); }"));

    let partial = SourceCode::new(vec![excerpt(100, SOURCE, 7)]);
    assert_eq!(spots.emit(&partial).unwrap_err(), EmitError::NoSnippet(Span::new(0, 15)));
    assert_eq!(PanicSpots::new().emit(&partial).unwrap(), Vec::<String>::new());
}

/// A small generator of numbers, the same on every run.
struct Numbers(u64);

impl Numbers {
    fn next(&mut self, below: u64) -> u64 {
        self.0 = self.0.wrapping_mul(6364136223846793005).wrapping_add(1442695040888963407);
        (self.0 >> 33) % below
    }
}

#[test]
fn whatever_has_a_layout_is_rendered() {
    let pieces = ["a", "fn", " ", "\n", "\r\n", "\t", "{", "}", "\u{e9}", "\u{4e16}", "\u{1f600}", "//", "", "\u{200d}"];
    let mut numbers = Numbers(2024);
    let mut rendered = 0;
    for _ in 0..1500 {
        let mut source = String::new();
        for _ in 0..numbers.next(40) {
            source.push_str(pieces[numbers.next(pieces.len() as u64) as usize]);
        }
        let len = source.len() as u32;
        let base = numbers.next(50) as u32;
        let line = match numbers.next(6) {
            0 => 0,
            1 => usize::MAX - source.len() - 9,
            _ => numbers.next(100_000) as usize,
        };
        let mut span = |numbers: &mut Numbers| {
            let lo = numbers.next(len as u64 + 2) as u32;
            let hi = lo + numbers.next((len + 2 - lo) as u64) as u32;
            (base + lo, base + hi)
        };
        let decl = span(&mut numbers);
        let calls: Vec<(u32, u32)> = (0..1 + numbers.next(5)).map(|_| span(&mut numbers)).collect();
        let excerpt = Excerpt {
            span: Span::new(base, base + len),
            source: source.clone(),
            path: String::from("src/lib.rs"),
            line,
        };
        let src = SourceCode::new(vec![excerpt]);
        let spots = record(decl, (base, base + len), &calls);
        let check = CheckPanic::new(spots.decl, &spots, &src);

        match (check.layout(), check.emit()) {
            (Ok(layout), Ok(text)) => {
                rendered += 1;
                assert!(text.contains("src/lib.rs"));
                for (lo, hi) in layout.primary.iter().chain([&layout.context]) {
                    assert!(lo <= hi && *hi <= source.len());
                    assert!(source.is_char_boundary(*lo) && source.is_char_boundary(*hi));
                }
            }
            (Err(planned), Err(given)) => assert_eq!(planned, given),
            (planned, given) => panic!("{planned:?} but {given:?}"),
        }
    }
    assert!(rendered > 100, "{rendered}");
}
