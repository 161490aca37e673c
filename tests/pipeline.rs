use rusticate::decimal::parse_decimal;
use rusticate::digits::{parse_usize, u128_text};
use rusticate::enrich::{enrich_hit, enrich_hits};
use rusticate::fasta::parse_fasta;
use rusticate::fields::split_bytes;
use rusticate::hit::{parse_hit_line, parse_hits};
use rusticate::metrics::{coverage_percent, coverage_sketch_of, database_name_of, gene_name_of};
use rusticate::report::{results_tsv, screen};
use rusticate::store::{Contig, SequenceStore};

const HIT_LINE: &str =
    "contig1\tgeneX|abc\t95.50\t500\t10\t1\t1\t500\t100\t599\t1e-50\t900.0";

fn contig(id: &str, len: usize) -> Contig {
    Contig { id: id.to_string(), seq: vec![b'A'; len] }
}

fn one_contig_store() -> SequenceStore {
    SequenceStore::from_contigs(vec![contig("contig1", 1000)])
}

fn lines(ls: &[&str]) -> Vec<Vec<u8>> {
    ls.iter().map(|l| l.as_bytes().to_vec()).collect()
}

fn text(v: &[u8]) -> String {
    String::from_utf8(v.to_vec()).unwrap()
}

const HEADER: &str = "#FILE\tSEQUENCE\tSTART\tEND\tGENE\t%COVERAGE\tCOVERAGE_MAP\t%IDENTITY\tDB\n";

#[test]
fn end_to_end_single_hit() {
    let store = one_contig_store();
    let hits = parse_hits(&lines(&[HIT_LINE])).ok().unwrap();
    let enriched = enrich_hits(&hits, &store, b"carddb");
    assert_eq!(enriched.len(), 1);
    let e = &enriched[0];
    assert_eq!(text(&e.coverage), "50.0");
    assert_eq!(text(&e.gene_name), "abc");
    assert_eq!(text(&e.database_name), "carddb");
    assert_eq!(e.query_length, 1000);
    let report = text(&results_tsv(&enriched, b"sample.fasta"));
    let sketch = format!("{}{}", "+".repeat(24), ".".repeat(24));
    let row = format!("sample.fasta\tcontig1\t1\t500\tabc\t50.0\t{}\t95.5\tcarddb\n", sketch);
    assert_eq!(report, format!("{}{}", HEADER, row));
    let rows: Vec<&str> = report.lines().skip(1).collect();
    assert_eq!(rows.len(), 1);
}

#[test]
fn screen_matches_steps() {
    let store = one_contig_store();
    let out = screen(&store, &lines(&[HIT_LINE]), b"carddb", b"sample.fasta").ok().unwrap();
    let hits = parse_hits(&lines(&[HIT_LINE])).ok().unwrap();
    let enriched = enrich_hits(&hits, &store, b"carddb");
    assert_eq!(out, results_tsv(&enriched, b"sample.fasta"));
}

#[test]
fn hit_fields_equal_columns() {
    let h = parse_hit_line(HIT_LINE.as_bytes()).ok().unwrap().unwrap();
    assert_eq!(h.query_id, b"contig1".to_vec());
    assert_eq!(h.subject_id, b"geneX|abc".to_vec());
    assert!(!h.percent_identity.negative);
    assert_eq!(h.percent_identity.digits, b"9550".to_vec());
    assert_eq!(h.percent_identity.exponent, -2);
    assert_eq!(h.alignment_length, 500);
    assert_eq!(h.mismatches, 10);
    assert_eq!(h.gap_opens, 1);
    assert_eq!(h.query_start, 1);
    assert_eq!(h.query_end, 500);
    assert_eq!(h.subject_start, 100);
    assert_eq!(h.subject_end, 599);
    assert_eq!(h.e_value.digits, b"1".to_vec());
    assert_eq!(h.e_value.exponent, -50);
    assert_eq!(h.bit_score.digits, b"9000".to_vec());
    assert_eq!(h.bit_score.exponent, -1);
}

#[test]
fn reverse_strand_hit_is_kept() {
    let line = "q\ts\t100\t10\t0\t0\t5\t14\t900\t891\t0.0\t20";
    let h = parse_hit_line(line.as_bytes()).ok().unwrap().unwrap();
    assert_eq!(h.subject_start, 900);
    assert_eq!(h.subject_end, 891);
}

#[test]
fn wrong_column_count_is_skipped() {
    assert!(parse_hit_line(b"").ok().unwrap().is_none());
    assert!(parse_hit_line(b"BLAST banner text").ok().unwrap().is_none());
    let thirteen = format!("{}\textra", HIT_LINE);
    assert!(parse_hit_line(thirteen.as_bytes()).ok().unwrap().is_none());
    let second = HIT_LINE.replace("geneX|abc", "geneY|def");
    let hits = parse_hits(&lines(&["", "# banner", HIT_LINE, "a\tb", &second])).ok().unwrap();
    assert_eq!(hits.len(), 2);
    assert_eq!(hits[0].subject_id, b"geneX|abc".to_vec());
    assert_eq!(hits[1].subject_id, b"geneY|def".to_vec());
}

#[test]
fn bad_number_aborts_parse() {
    let bad = HIT_LINE.replace("\t500\t10\t", "\tfive\t10\t");
    let e = parse_hit_line(bad.as_bytes()).err().unwrap();
    assert_eq!(e.line, bad.as_bytes().to_vec());
    let e = parse_hits(&lines(&[HIT_LINE, &bad, HIT_LINE])).err().unwrap();
    assert_eq!(e.line, bad.as_bytes().to_vec());
    let bad_float = HIT_LINE.replace("1e-50", "1e-x");
    assert!(parse_hits(&lines(&[&bad_float])).is_err());
    let store = one_contig_store();
    assert!(screen(&store, &lines(&[HIT_LINE, &bad]), b"db", b"f").is_err());
}

#[test]
fn coverage_full_and_half() {
    assert_eq!(text(&coverage_percent(1000, 1000)), "100.0");
    assert_eq!(text(&coverage_percent(500, 1000)), "50.0");
    assert_eq!(text(&coverage_percent(7, 14)), "50.0");
    assert_eq!(text(&coverage_percent(1, 3)), "33.3");
    assert_eq!(text(&coverage_percent(2, 3)), "66.7");
    assert_eq!(text(&coverage_percent(1, 16)), "6.2");
    assert_eq!(text(&coverage_percent(1010, 1000)), "101.0");
}

#[test]
fn coverage_of_empty_query() {
    assert_eq!(text(&coverage_percent(5, 0)), "inf");
    assert_eq!(text(&coverage_percent(0, 0)), "NaN");
}

#[test]
fn sketch_width_and_length() {
    assert_eq!(text(&coverage_sketch_of(10, 3, 5)), "..+++.....");
    assert_eq!(coverage_sketch_of(49, 1, 49).len(), 49);
    assert_eq!(coverage_sketch_of(50, 1, 50).len(), 25);
    assert_eq!(coverage_sketch_of(1000, 1, 1000).len(), 48);
    assert_eq!(coverage_sketch_of(100000, 1, 10).len(), 50);
    assert!(coverage_sketch_of(usize::MAX, 1, 10).len() <= 50);
    assert_eq!(coverage_sketch_of(0, 1, 10).len(), 0);
    assert_eq!(text(&coverage_sketch_of(3, 0, 1)), "+..");
}

#[test]
fn gene_name_normalization() {
    assert_eq!(text(&gene_name_of(b"gb|AAA12345|blaTEM-1")), "blaTEM-1");
    assert_eq!(text(&gene_name_of(b"blaTEM-1")), "blaTEM-1");
    assert_eq!(text(&gene_name_of(b"blaTEM_1")), "blaTEM-1");
    assert_eq!(text(&gene_name_of(b"a|b_c_d")), "b-c-d");
    assert_eq!(text(&gene_name_of(b"trailing|")), "");
}

#[test]
fn database_name_from_path() {
    assert_eq!(text(&database_name_of(b"/home/u/.rusticate/db/card")), "card");
    assert_eq!(text(&database_name_of(b"card")), "card");
}

#[test]
fn unknown_query_is_dropped() {
    let store = one_contig_store();
    let other = HIT_LINE.replace("contig1", "contig9");
    let hits = parse_hits(&lines(&[&other])).ok().unwrap();
    assert!(enrich_hit(&hits[0], &store, b"db").is_none());
    let report = screen(&store, &lines(&[&other, HIT_LINE, &other]), b"db", b"f").ok().unwrap();
    let report = text(&report);
    assert!(!report.contains("contig9"));
    assert_eq!(report.lines().count(), 2);
}

#[test]
fn runs_are_deterministic() {
    let store = SequenceStore::from_contigs(vec![contig("b", 200), contig("a", 100)]);
    let out = lines(&[
        "b\ts1\t99.0\t200\t0\t0\t1\t200\t1\t200\t0.0\t370",
        "a\ts2\t98.25\t50\t1\t0\t51\t100\t1\t50\t1e-20\t90.5",
    ]);
    let first = screen(&store, &out, b"db", b"in.fa").ok().unwrap();
    let second = screen(&store, &out, b"db", b"in.fa").ok().unwrap();
    assert_eq!(first, second);
    let report = text(&first);
    let rows: Vec<&str> = report.lines().skip(1).collect();
    assert!(rows[0].starts_with("in.fa\tb\t"));
    assert!(rows[1].starts_with("in.fa\ta\t"));
    assert!(rows[1].contains("\t98.2\t"));
}

#[test]
fn store_keeps_first_position_and_replaces_bases() {
    let mut store = SequenceStore::new();
    store.insert(contig("x", 3));
    store.insert(contig("y", 2));
    store.insert(Contig { id: "x".to_string(), seq: b"GATTACA".to_vec() });
    assert_eq!(store.len(), 2);
    assert_eq!(store.query_length(b"x"), Some(7));
    assert_eq!(store.query_length(b"y"), Some(2));
    assert_eq!(store.query_length(b"z"), None);
    assert_eq!(text(&store.query_text()), ">x\nGATTACA\n>y\nAA\n");
}

#[test]
fn empty_store_gives_empty_query() {
    let store = SequenceStore::from_contigs(Vec::new());
    assert_eq!(store.len(), 0);
    assert!(store.query_text().is_empty());
    let report = screen(&store, &lines(&[HIT_LINE]), b"db", b"f").ok().unwrap();
    assert_eq!(text(&report), HEADER);
}

#[test]
fn decimal_grammar() {
    let d = parse_decimal(b"-3E+2").unwrap();
    assert!(d.negative);
    assert_eq!(d.digits, b"3".to_vec());
    assert_eq!(d.exponent, 2);
    let d = parse_decimal(b".5").unwrap();
    assert_eq!(d.digits, b"5".to_vec());
    assert_eq!(d.exponent, -1);
    let d = parse_decimal(b"5.").unwrap();
    assert_eq!(d.exponent, 0);
    assert!(parse_decimal(b"+7e0").is_some());
    for bad in [&b""[..], b".", b"e5", b"1e", b"1e+", b"1.2.3", b"1e2e3", b"abc", b"--1", b"1 ", b"1e100001"] {
        assert!(parse_decimal(bad).is_none());
    }
    assert!(parse_decimal(b"1e100000").is_some());
}

#[test]
fn one_decimal_rendering() {
    let r = |s: &str| text(&parse_decimal(s.as_bytes()).unwrap().one_decimal());
    assert_eq!(r("95.50"), "95.5");
    assert_eq!(r("100.000"), "100.0");
    assert_eq!(r("99.95"), "100.0");
    assert_eq!(r("0.25"), "0.2");
    assert_eq!(r("0.35"), "0.4");
    assert_eq!(r("0.349"), "0.3");
    assert_eq!(r("0.3501"), "0.4");
    assert_eq!(r("12"), "12.0");
    assert_eq!(r("1.5e1"), "15.0");
    assert_eq!(r("1e-50"), "0.0");
    assert_eq!(r("-0.04"), "-0.0");
    assert_eq!(r("007.77"), "7.8");
    assert_eq!(r("9.96"), "10.0");
    assert_eq!(r("0.05"), "0.0");
    assert_eq!(r("0.15"), "0.2");
}

#[test]
fn unsigned_fields() {
    assert_eq!(parse_usize(b"42"), Some(42));
    assert_eq!(parse_usize(b"+42"), Some(42));
    assert_eq!(parse_usize(b"-1"), None);
    assert_eq!(parse_usize(b""), None);
    assert_eq!(parse_usize(b"+"), None);
    assert_eq!(parse_usize(b"4x"), None);
    assert_eq!(parse_usize(b"18446744073709551615"), Some(usize::MAX));
    assert_eq!(parse_usize(b"18446744073709551616"), None);
    assert_eq!(text(&u128_text(0)), "0");
    assert_eq!(text(&u128_text(1234567890)), "1234567890");
}

#[test]
fn splitting_keeps_empty_pieces() {
    let p = split_bytes(b"a\t\tb\t", b'\t', b'\t');
    assert_eq!(p, vec![b"a".to_vec(), Vec::new(), b"b".to_vec(), Vec::new()]);
    assert_eq!(split_bytes(b"", b'\t', b'\t'), vec![Vec::<u8>::new()]);
}

#[test]
fn fasta_text_fills_store_in_order() {
    let store = parse_fasta(b">c2 some description\nACGT\nAC\n>c1\nGG\n").unwrap();
    assert_eq!(store.len(), 2);
    assert_eq!(store.query_length(b"c2"), Some(6));
    assert_eq!(store.query_length(b"c1"), Some(2));
    assert_eq!(text(&store.query_text()), ">c2\nACGTAC\n>c1\nGG\n");
}

#[test]
fn fasta_edge_cases() {
    assert_eq!(parse_fasta(b"").unwrap().len(), 0);
    assert!(parse_fasta(b"ACGT\n").is_none());
    let store = parse_fasta(b">x\nAA\n>x\nCCC\n").unwrap();
    assert_eq!(store.len(), 1);
    assert_eq!(store.query_length(b"x"), Some(3));
}
