use spice_lsp::format::{format_source, FormatOptions, KeywordCase};

#[test]
fn aligns_instance_block() {
    let src = "* before\nR1 in out 1k\nC1 out 0 1u\nX1 a b mycell\n";
    let out = format_source(src, &FormatOptions::default());
    assert_eq!(
        out,
        "* before\nR1 in  out 1k\nC1 out 0   1u\nX1 a   b   mycell\n"
    );
}

#[test]
fn formats_continuation_joined_when_short() {
    let src = "M1 d g s b nfet W=10u L=0.18u\n+ $nfin=2\n";
    let out = format_source(src, &FormatOptions::default());
    assert_eq!(out, "M1 d g s b nfet W=10u L=0.18u $nfin=2\n");
}

#[test]
fn formats_continuation_wrap_keeps_plus() {
    let src = "M1 d g s b nfet W=10u L=0.18u\n+ $nfin=2\n";
    let opts = FormatOptions {
        max_line_width: 28,
        indent_width: 2,
        ..FormatOptions::default()
    };
    let out = format_source(src, &opts);
    assert!(
        out.lines().any(|l| l.starts_with("+  ")),
        "expected + continuation, got:\n{out}"
    );
    assert!(out.contains("$nfin=2"), "got:\n{out}");
}

#[test]
fn wraps_long_lines_with_plus() {
    let src = "M1 d g s b nfet W=10u L=0.18u AS=1e-12 AD=1e-12 PS=1u PD=1u NRD=0 NRS=0\n";
    let opts = FormatOptions {
        max_line_width: 40,
        ..FormatOptions::default()
    };
    let out = format_source(src, &opts);
    assert!(out.contains("\n+  "), "expected continuation, got:\n{out}");
    let again = format_source(&out, &opts);
    assert_eq!(out, again, "format should be idempotent");
}

#[test]
fn uppercases_directive_keywords() {
    let src = ".tran 1u 1m\n.subckt buf in out\n.ends\n";
    let out = format_source(src, &FormatOptions::default());
    assert!(out.starts_with(".TRAN 1u 1m\n"));
    assert!(out.contains(".SUBCKT buf in out\n"));
    assert!(out.contains(".ENDS\n"));
}

#[test]
fn preserves_comments_and_blank_lines() {
    let src = "* header\n\nR1 a b 1k ; note\n";
    let out = format_source(src, &FormatOptions::default());
    assert_eq!(out, "* header\n\nR1 a b 1k  ; note\n");
}

#[test]
fn idempotent_on_simple_rc() {
    let src = "* simple RC low-pass\n.param rval=1k\nV1 in 0 DC 1\nR1 in out {rval}\nC1 out 0 1u\n.tran 1u 1m\n.end\n";
    let once = format_source(src, &FormatOptions::default());
    let twice = format_source(&once, &FormatOptions::default());
    assert_eq!(once, twice);
}

#[test]
fn empty_input() {
    assert_eq!(format_source("", &FormatOptions::default()), "");
}

#[test]
fn align_columns_off() {
    let src = "R1 in out 1k\nC1 out 0 1u\n";
    let opts = FormatOptions {
        align_columns: false,
        ..FormatOptions::default()
    };
    let out = format_source(src, &opts);
    assert_eq!(out, "R1 in out 1k\nC1 out 0 1u\n");
}

#[test]
fn crlf_input_keeps_crlf() {
    let src = "R1 a b 1k\r\n* note \r\n";
    let out = format_source(src, &FormatOptions::default());
    assert_eq!(out, "R1 a b 1k\r\n* note\r\n");
}

#[test]
fn lower_and_preserve_keyword_case() {
    let src = ".TRAN 1u 1m\n";
    let lower = FormatOptions {
        keyword_case: KeywordCase::Lower,
        ..FormatOptions::default()
    };
    assert_eq!(format_source(src, &lower), ".tran 1u 1m\n");
    let keep = FormatOptions {
        keyword_case: KeywordCase::Preserve,
        ..FormatOptions::default()
    };
    assert_eq!(format_source(".Tran 1u\n", &keep), ".Tran 1u\n");
}

#[test]
fn orphan_continuation_gets_plus_head() {
    let out = format_source("+ a b\n", &FormatOptions::default());
    assert_eq!(out, "+ a b\n");
}

#[test]
fn quoted_tokens_keep_inner_spaces() {
    let out = format_source(".param s='a  b'\n", &FormatOptions::default());
    assert_eq!(out, ".PARAM s='a  b'\n");
}

#[test]
fn continuation_comment_is_kept() {
    let src = "R1 a b\n+ 1k ; load\n";
    let out = format_source(src, &FormatOptions::default());
    assert_eq!(out, "R1 a b 1k  ; load\n");
}

#[test]
fn data_rows_and_no_trailing_newline() {
    let src = ".data d\n1   2\n-3 4\n.enddata";
    let out = format_source(src, &FormatOptions::default());
    assert_eq!(out, ".DATA d\n1 2\n-3 4\n.ENDDATA");
}

#[test]
fn lone_dot_directive() {
    assert_eq!(format_source(".\n", &FormatOptions::default()), ".\n");
}

/// Deterministic pseudo-random netlists for checking that formatting is idempotent.
struct Lcg(u64);

impl Lcg {
    fn next(&mut self, n: usize) -> usize {
        self.0 = self.0.wrapping_mul(6364136223846793005).wrapping_add(1442695040888963407);
        ((self.0 >> 33) as usize) % n
    }
}

fn random_netlist(rng: &mut Lcg) -> String {
    const HEADS: [&str; 12] = [
        "R1", "c2", "X1", "M1", "V1", ".tran", ".subckt", ".ends", ".model", ".param", "+", "*",
    ];
    const WORDS: [&str; 16] = [
        "a", "out", "0", "1k", "nfet", "W=10u", "L=0.18u", "$nfin=2", "'x y'", "\"q\"", "1.5",
        "-2", "mycell", "AS=1e-12", "nœud", "'a ; b'",
    ];
    const SEPS: [&str; 5] = [" ", "  ", "\t", " \t ", "\u{a0}"];
    let mut out = String::new();
    let lines = 1 + rng.next(8);
    let crlf = rng.next(5) == 0;
    for _ in 0..lines {
        match rng.next(10) {
            0 => {}
            1 => out.push_str("  ; note | x"),
            2 => out.push_str("1.5 2.5"),
            _ => {
                if rng.next(4) == 0 {
                    out.push_str(SEPS[rng.next(SEPS.len())]);
                }
                out.push_str(HEADS[rng.next(HEADS.len())]);
                for _ in 0..rng.next(9) {
                    out.push_str(SEPS[rng.next(SEPS.len())]);
                    out.push_str(WORDS[rng.next(WORDS.len())]);
                }
                if rng.next(5) == 0 {
                    out.push_str(" ; tail comment");
                }
                if rng.next(6) == 0 {
                    out.push(' ');
                }
            }
        }
        out.push_str(if crlf { "\r\n" } else { "\n" });
    }
    if rng.next(4) == 0 {
        out.pop();
    }
    out
}

#[test]
fn formatting_is_idempotent_on_generated_netlists() {
    let option_sets = [
        FormatOptions::default(),
        FormatOptions { max_line_width: 20, ..FormatOptions::default() },
        FormatOptions { max_line_width: 40, align_columns: false, ..FormatOptions::default() },
        FormatOptions { max_line_width: 1, indent_width: 0, keyword_case: KeywordCase::Lower, ..FormatOptions::default() },
        FormatOptions { max_line_width: 30, indent_width: 4, keyword_case: KeywordCase::Preserve, align_columns: true },
    ];
    let mut rng = Lcg(7);
    for _ in 0..3000 {
        let src = random_netlist(&mut rng);
        for opts in &option_sets {
            let once = format_source(&src, opts);
            let twice = format_source(&once, opts);
            assert_eq!(twice, once, "not idempotent for {src:?} with {opts:?}");
        }
    }
}

#[test]
fn quoted_expressions_and_any_comment_text_are_stable() {
    let src = ".param x = 'a + b ; c'  ; don't\n* naïve comment ✓\nR1 in out 'w * 2' ; 5 µA\n";
    let once = format_source(src, &FormatOptions::default());
    assert_eq!(
        once,
        ".PARAM x = 'a + b ; c'  ; don't\n* naïve comment ✓\nR1 in out 'w * 2'  ; 5 µA\n"
    );
    for opts in [
        FormatOptions::default(),
        FormatOptions { max_line_width: 12, ..FormatOptions::default() },
        FormatOptions { align_columns: false, keyword_case: KeywordCase::Lower, ..FormatOptions::default() },
    ] {
        let once = format_source(src, &opts);
        let twice = format_source(&once, &opts);
        assert_eq!(twice, once, "not idempotent with {opts:?}");
    }
}

#[test]
fn non_ascii_tokens_and_whitespace_are_stable() {
    let src = "R1 nœud\u{a0}µ 1kΩ\nR22 a b 2 ; 注释\n+ w=2µ\n\u{3000}C1 x 0 1p\n";
    for opts in [
        FormatOptions::default(),
        FormatOptions { max_line_width: 14, ..FormatOptions::default() },
        FormatOptions { align_columns: false, keyword_case: KeywordCase::Lower, ..FormatOptions::default() },
    ] {
        let once = format_source(src, &opts);
        let twice = format_source(&once, &opts);
        assert_eq!(twice, once, "not idempotent with {opts:?}");
    }
    let out = format_source("R1 nœud\u{a0}µ 1kΩ\n", &FormatOptions::default());
    // columns are as wide as their widest token in bytes, padded by characters
    assert_eq!(out, "R1 nœud  µ  1kΩ\n");
}

#[test]
fn lone_dot_takes_keyword_from_continuation() {
    let opts = FormatOptions::default();
    let once = format_source(".\n+ tran 1n\n", &opts);
    assert_eq!(once, ".TRAN 1n\n");
    assert_eq!(format_source(&once, &opts), once);
    let lower = FormatOptions {
        keyword_case: KeywordCase::Lower,
        ..FormatOptions::default()
    };
    assert_eq!(format_source(".  ; run\n+ TRAN 1n\n", &lower), ".tran 1n  ; run\n");
}

#[test]
fn comment_line_splits_instance_alignment() {
    let src = "R1 a b 1k\n* c\nR22 xx y 2k\n";
    assert_eq!(format_source(src, &FormatOptions::default()), src);
}

#[test]
fn open_quote_ends_its_line_in_aligned_block() {
    let opts = FormatOptions::default();
    let once = format_source("R1 'x\n+ y\nR22 aaaa b\n", &opts);
    assert_eq!(once, "R1  'x\n+  y\nR22 aaaa b\n");
    assert_eq!(format_source(&once, &opts), once);
}

#[test]
fn open_quote_keeps_semicolon_and_later_comment() {
    let opts = FormatOptions::default();
    let once = format_source("R1 'x ; not a comment\n+ y ; tail\n", &opts);
    assert_eq!(once, "R1 'x ; not a comment\n+  y  ; tail\n");
    assert_eq!(format_source(&once, &opts), once);
}

#[test]
fn comment_after_open_quote_gets_its_own_line() {
    let opts = FormatOptions::default();
    let once = format_source("R1 a 'x\n+ ; note\n", &opts);
    assert_eq!(once, "R1 a 'x\n+    ; note\n");
    assert_eq!(format_source(&once, &opts), once);
}
