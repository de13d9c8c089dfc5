use motif_bed::emit::{decimal_string, format_match};
use motif_bed::motif::{
    collect_motifs, compile_motifs, is_valid_motif, regex_pattern, reverse_complement, trim_line,
    MotifError,
};
use motif_bed::scan::{scan_pass, scan_record, scan_starts, MotifMatch, Strand};

fn compiled(motifs: &[&str]) -> Vec<motif_bed::motif::CompiledMotif> {
    let raw: Vec<String> = motifs.iter().map(|m| m.to_string()).collect();
    compile_motifs(&raw).expect("motifs should compile")
}

#[test]
fn reverse_complement_basics() {
    assert_eq!(reverse_complement("ATG"), "CAT");
    assert_eq!(reverse_complement("AATT"), "AATT");
    assert_eq!(reverse_complement("GGCC"), "GGCC");
    assert_eq!(reverse_complement("N"), "N");
    assert_eq!(reverse_complement(""), "");
}

#[test]
fn reverse_complement_involution() {
    for m in ["ATCGN", "AATT", "GGCC", "NNATCG", "A", ""] {
        assert_eq!(reverse_complement(&reverse_complement(m)), m);
    }
}

#[test]
fn regex_pattern_substitutes_wildcards() {
    assert_eq!(regex_pattern("ANT"), "A.T");
    assert_eq!(regex_pattern("NNN"), "...");
    assert_eq!(regex_pattern("ATCG"), "ATCG");
    assert_eq!(regex_pattern(""), "");
}

#[test]
fn motif_validation() {
    assert!(is_valid_motif("ATCGN"));
    assert!(is_valid_motif(""));
    assert!(!is_valid_motif("atcg"));
    assert!(!is_valid_motif("AXT"));
    assert!(!is_valid_motif("AAT "));
}

#[test]
fn alphabet_rejection_fails_compilation() {
    let motifs = vec!["AATT".to_string(), "AxTT".to_string(), "GG".to_string()];
    assert_eq!(
        compile_motifs(&motifs).unwrap_err(),
        MotifError::InvalidMotif { index: 1 }
    );
}

#[test]
fn empty_motif_set_is_a_configuration_error() {
    let gathered = collect_motifs(&None, &vec!["".to_string(), "   ".to_string()]);
    assert!(gathered.is_empty());
    assert_eq!(compile_motifs(&gathered).unwrap_err(), MotifError::NoMotifs);
}

#[test]
fn collect_motifs_trims_and_skips_blank_lines() {
    let lines = vec![
        " GGCC ".to_string(),
        "".to_string(),
        "\t".to_string(),
        "ATN".to_string(),
    ];
    let gathered = collect_motifs(&Some("AATT".to_string()), &lines);
    assert_eq!(gathered, vec!["AATT", "GGCC", "ATN"]);
}

#[test]
fn trim_line_strips_surrounding_whitespace() {
    assert_eq!(trim_line("  AT\t"), "AT");
    assert_eq!(trim_line("GGCC"), "GGCC");
    assert_eq!(trim_line(""), "");
    assert_eq!(trim_line(" \t\r\n"), "");
}

#[test]
fn compile_motifs_builds_reverse_complements() {
    let cms = compiled(&["AATT", "ATG"]);
    assert_eq!(cms.len(), 2);
    assert_eq!(cms[0].forward, "AATT");
    assert_eq!(cms[0].reverse, "AATT");
    assert_eq!(cms[1].forward, "ATG");
    assert_eq!(cms[1].reverse, "CAT");
}

#[test]
fn coordinate_correctness_forward() {
    let matches = scan_pass("rec", "AATTGGCC", "AATT", Strand::Forward);
    assert_eq!(matches.len(), 1);
    assert_eq!(matches[0].id, "rec");
    assert_eq!(matches[0].start, 0);
    assert_eq!(matches[0].end, 4);
    assert_eq!(matches[0].label, "AATT");
    assert_eq!(matches[0].strand, Strand::Forward);
    assert_eq!(matches[0].text, "AATT");
}

#[test]
fn reverse_strand_labeling() {
    let cms = compiled(&["GGCC"]);
    assert_eq!(cms[0].reverse, "GGCC");
    let matches = scan_record("rec", "AATTGGCC", &cms);
    assert_eq!(matches.len(), 2);
    let rev = &matches[1];
    assert_eq!(rev.strand, Strand::Reverse);
    assert_eq!(rev.start, 4);
    assert_eq!(rev.end, 8);
    assert_eq!(rev.label, "GGCC");
    assert_eq!(rev.text, "GGCC");
}

#[test]
fn wildcard_matches_any_middle_symbol() {
    for text in ["AAT", "ACT", "AGT", "ATT", "ANT"] {
        let matches = scan_pass("w", text, "ANT", Strand::Forward);
        assert_eq!(matches.len(), 1, "ANT should match {text}");
        assert_eq!(matches[0].text, text);
    }
    for text in ["TAT", "ATA", "CCT", "AC", ""] {
        let matches = scan_pass("w", text, "ANT", Strand::Forward);
        assert!(matches.is_empty(), "ANT should not match {text}");
    }
}

#[test]
fn non_overlap_within_a_pass() {
    assert_eq!(scan_starts("AAAA", "AA"), vec![0, 2]);
    let matches = scan_pass("r", "AAAA", "AA", Strand::Forward);
    assert_eq!(matches.len(), 2);
    assert_eq!((matches[0].start, matches[0].end), (0, 2));
    assert_eq!((matches[1].start, matches[1].end), (2, 4));
}

#[test]
fn empty_pattern_matches_every_position() {
    assert_eq!(scan_starts("ATC", ""), vec![0, 1, 2, 3]);
    assert_eq!(scan_starts("", ""), vec![0]);
}

#[test]
fn scanner_does_not_validate_record_alphabet() {
    assert_eq!(scan_starts("AXTANT", "ANT"), vec![0, 3]);
    assert_eq!(scan_starts("AXT", "ANT"), vec![0]);
    assert_eq!(scan_starts("GXTANT", "ANT"), vec![3]);
}

#[test]
fn multi_motif_ordering() {
    let cms = compiled(&["AA", "TT"]);
    let matches = scan_record("rec", "AATT", &cms);
    let seen: Vec<(usize, usize, Strand, &str)> = matches
        .iter()
        .map(|m| (m.start, m.end, m.strand, m.label.as_str()))
        .collect();
    assert_eq!(
        seen,
        vec![
            (0, 2, Strand::Forward, "AA"),
            (2, 4, Strand::Reverse, "TT"),
            (2, 4, Strand::Forward, "TT"),
            (0, 2, Strand::Reverse, "AA"),
        ]
    );
}

#[test]
fn decimal_rendering() {
    assert_eq!(decimal_string(0), "0");
    assert_eq!(decimal_string(7), "7");
    assert_eq!(decimal_string(10), "10");
    assert_eq!(decimal_string(12345), "12345");
}

#[test]
fn format_match_emits_seven_fields() {
    let m = MotifMatch {
        id: "chr1".to_string(),
        start: 0,
        end: 4,
        label: "AATT".to_string(),
        strand: Strand::Forward,
        text: "AATT".to_string(),
    };
    assert_eq!(format_match(&m), "chr1\t0\t4\tAATT\t.\t+\tAATT");
    let r = MotifMatch {
        id: "chr2".to_string(),
        start: 17,
        end: 21,
        label: "GGCC".to_string(),
        strand: Strand::Reverse,
        text: "GGCC".to_string(),
    };
    assert_eq!(format_match(&r), "chr2\t17\t21\tGGCC\t.\t-\tGGCC");
}

#[test]
fn end_to_end_lines_for_one_record() {
    let gathered = collect_motifs(&Some("ANT".to_string()), &vec![]);
    let cms = compile_motifs(&gathered).expect("valid motif");
    let matches = scan_record("ctg7", "GATTACT", &cms);
    let lines: Vec<String> = matches.iter().map(format_match).collect();
    assert_eq!(
        lines,
        vec![
            "ctg7\t1\t4\tANT\t.\t+\tATT".to_string(),
            "ctg7\t4\t7\tANT\t.\t+\tACT".to_string(),
            "ctg7\t1\t4\tANT\t.\t-\tATT".to_string(),
            "ctg7\t4\t7\tANT\t.\t-\tACT".to_string(),
        ]
    );
}
