//! Robustness over many generated inputs: lexing never panics, every token
//! span is well ordered and inside the source, and each token's text is the
//! slice its span claims.
use copyforge_core::lexer::{fixed_format, free_format, lex_with_format, SourceFormat};

struct Rng(u64);

impl Rng {
    fn next(&mut self) -> u64 {
        self.0 ^= self.0 << 13;
        self.0 ^= self.0 >> 7;
        self.0 ^= self.0 << 17;
        self.0
    }
}

fn check(source: &str, format: SourceFormat) {
    let (tokens, errors) = lex_with_format(source, format);
    for t in &tokens {
        assert!(t.span.start <= t.span.end, "{t:?}");
        assert_eq!(source.get(t.span.start..t.span.end), Some(t.text), "{t:?}");
    }
    for e in &errors {
        let s = e.span();
        assert!(s.start <= s.end && s.end <= source.len(), "{e:?}");
    }
}

fn check_coverage(source: &str, format: SourceFormat) {
    let (lines, _) = match format {
        SourceFormat::Fixed => fixed_format::preprocess(source),
        SourceFormat::Free => free_format::preprocess(source),
    };
    let (tokens, errors) = lex_with_format(source, format);
    let bytes = source.as_bytes();
    for line in &lines {
        let seg = &line.segments[0];
        for j in seg.source_start..seg.source_start + seg.len {
            if bytes[j] == b' ' || bytes[j] == b'\t' {
                continue;
            }
            let by_token = tokens.iter().any(|t| t.span.start <= j && j < t.span.end);
            let by_error = errors.iter().any(|e| e.span().start <= j && j < e.span().end);
            assert!(by_token || by_error, "byte {j} of {source:?} not covered");
        }
    }
}

fn generated(rng: &mut Rng, alphabet: &[char], max_len: u64) -> String {
    let len = rng.next() % (max_len + 1);
    (0..len).map(|_| alphabet[(rng.next() % alphabet.len() as u64) as usize]).collect()
}

#[test]
fn ascii_input_never_panics_and_spans_stay_inside_source() {
    let alphabet: Vec<char> = (0u8..=0x7f).map(char::from).collect();
    let mut rng = Rng(0x9e37_79b9_7f4a_7c15);
    for _ in 0..400 {
        let src = generated(&mut rng, &alphabet, 300);
        check(&src, SourceFormat::Fixed);
        check(&src, SourceFormat::Free);
    }
}

#[test]
fn every_non_blank_byte_of_a_line_is_covered() {
    let alphabet: Vec<char> = " \t\n01259AZaz-_.,()'\"*>~é€\0".chars().collect();
    let mut rng = Rng(0x0f0f_1234_abcd_7777);
    for _ in 0..300 {
        let src = generated(&mut rng, &alphabet, 300);
        check_coverage(&src, SourceFormat::Fixed);
        check_coverage(&src, SourceFormat::Free);
    }
    check_coverage("       05 A PIC  X(3)  ~ 'open\n", SourceFormat::Fixed);
}

#[test]
fn copybook_like_input_with_multibyte_characters() {
    let alphabet: Vec<char> = " \t\n\r01259AZaz-_.,()'\"*>/D~éß€😀\u{3000}\0".chars().collect();
    let mut rng = Rng(0x1234_5678_9abc_def1);
    for _ in 0..400 {
        let src = generated(&mut rng, &alphabet, 400);
        check(&src, SourceFormat::Fixed);
        check(&src, SourceFormat::Free);
    }
}
