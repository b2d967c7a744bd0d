use clean_genes::fasta::{remove_gaps, Fasta, FastaEntry};
use clean_genes::fasta_text::{parse_fasta, write_fasta};

const FASTA_EMPTY: &str = "test_data/empty_file.fna";
const FASTA_NAME_1: &str = "test_data/a_ha_h3_raw_500.fna";
const FASTA_NAME_FAKE: &str = "test_data/fake_file.fna";

const SEQ_0: &str = "-----------------------------atgaagacaacca------ttattttgatactactgacccattgggcttacagtcaaaa---cccaatcaatg---acaacaacacagccacattgtgtctaggacaccatgcagtagcaaatggaacattggtaaaaacaataagtgatgatcaaattgaggtgacaaatgctacagaattagttcagagcattccaatggggaaaatatgcaacaattcgtatagaattctagat---ggaaagaattgcacattaatagatgcaatgctaggagacccccactgtgacgcctttcagtatgagaattgggacctctttatagaaagaagcagcgccttcagcaattgcta-cccatatgacatccctaactatgcatcgctccgatccattgtagcatcctcaggaacattggaattcacagcagagggattcacatggacaggtgtcactcaaaacggaagaagcggatcctgcaaaaggggatcagccgatagtttctttagccgactgaattggctaacaaaatccggaagctcttaccccacattgaatgtgacaatgcctaacaataaaaacttcgacaagctatacatctgggggatccatcacccgagctcaactaaagagcagacaaaattgtatatccaggaatcagggcgagtaacagtctcaacaaaaagaagtcaacaaacaataatccctaacattgggtctagaccatggatcagaggtcaatcaggtaggataagcatatactggaccattgtaaaacctggagatatcctaatgataaacagtaatggcaacttagttgcaccgcggggatactttaaattgaaaacagggaaaagctctgtaatgagatcagatg---tacccataga-catttgtgtgtctgaat-gtattacaccaaatggaagcatctccaacgacaagccattccaaaatgtgaacaaagttacatatggaaaatgtcccaagtatatcagacaaaacactttaaagctggccactgggatgaggaatgtaccagaaaagcaaatcagaggaatctttggggcaatagcgggattcatcgaaaacggctgggaaggaatggttgatggatggtatgggttccgataccaaaactctgaaggaacagggcaagctgcagatctaaagagcactcaagcagccatcgaccagatcaatggaaagttaaacagagtgattgaaagaaccaatgagaaattccatcaaatagagaaggaattctcagaagtagaaggaagaattcaggacttggagaaatatgtagaagacaccaaaatagacctatggtcctacaatgcagaattgctggtggctctagaaaatcaacatacaattgacttaacagatgcagaaatgaataaattgtttgagagaactagacgcctgttaagagaaaacgcagaagacatgggaggtggatgtttcaagatttaccacaaatgtaataatgcatgcattggatcaataagaaatgggacatatgaccattacatatacagagatgaagcattaaacaaccgatttcagatcaaaggtgtagagttgaaatcaggctacaaagattggatactctggatttcattcgccatatcatgcttcttaatttgcgttgttctattgggttt------------------------------------------------------------------------------------------------------";
const SEQ_16: &str = "-----------------------------atgaagactatca------ttgctttgagctacattctatgtctggttttcgctcaaaaaattcctggaaatg---acaatagcacggcaacgctgtgccttgggcaccatgcagtaccaaacggaacgatagtgaaaacaatcacaaatg";

/// Lays a sequence out on lines of at most 70 bytes, as FASTA files do.
fn wrapped(seq: &str) -> String {
    let mut out = String::new();
    let bytes = seq.as_bytes();
    for chunk in bytes.chunks(70) {
        out.push_str(std::str::from_utf8(chunk).unwrap());
        out.push('\n');
    }
    out
}

/// An alignment of seventeen H3 haemagglutinin records, their sequences
/// wrapped over several lines.
fn reg_fasta_text() -> String {
    let mut text = String::new();
    text.push_str(">MW585046{A_HA_H3}\n");
    text.push_str(&wrapped(SEQ_0));
    for i in 1..16 {
        text.push_str(&format!(">record_{}{{A_HA_H3}}\n", i));
        text.push_str(&wrapped("-----------------------------atgaagactatcattgctttgagctacattctatgtctg"));
    }
    text.push_str(">KY583624{A_HA_H3}\n");
    text.push_str(&wrapped(SEQ_16));
    text
}

fn fake_fasta_text() -> String {
    String::from("> fake_test 1 a \n---agcataag\naaaga-aga\n> fake_test 2 a\n--gggcta-\n")
}

fn test_fasta_file(fasta_name: &str, contents: &str, s: usize) -> Fasta {
    let fasta = parse_fasta(fasta_name, contents);

    assert_eq!(fasta.num_entries(), s);
    assert_eq!(fasta.filename(), fasta_name);
    fasta
}

fn test_fasta_seq(fasta: &mut Fasta, i: usize, seq: &str) {
    let seq_orig = fasta.indexed_entry(i).sequence();

    assert_eq!(std::str::from_utf8(seq_orig).unwrap(), seq);
}

fn test_fasta_defline(fasta: &mut Fasta, i: usize, defline: &str) {
    let defline_orig = fasta.indexed_entry(i).defline();

    assert_eq!(defline_orig, defline);
}

#[test]
fn test_empty_fasta() {
    test_fasta_file(FASTA_EMPTY, "", 0);
}

#[test]
fn test_reg_fasta() {
    let text = reg_fasta_text();
    let mut fasta = test_fasta_file(FASTA_NAME_1, &text, 17);
    test_fasta_defline(&mut fasta, 0, "MW585046{A_HA_H3}");
    test_fasta_seq(&mut fasta, 0, SEQ_0);
    test_fasta_defline(&mut fasta, 16, "KY583624{A_HA_H3}");
    test_fasta_seq(&mut fasta, 16, SEQ_16);
}

#[test]
fn test_fake_fasta() {
    let text = fake_fasta_text();
    let mut fasta = test_fasta_file(FASTA_NAME_FAKE, &text, 2);
    test_fasta_seq(&mut fasta, 0, "---agcataagaaaga-aga");
    test_fasta_defline(&mut fasta, 0, " fake_test 1 a ");
    test_fasta_seq(&mut fasta, 1, "--gggcta-");
    test_fasta_defline(&mut fasta, 1, " fake_test 2 a");
}

#[test]
fn parse_numbers_records_in_order() {
    let fasta = parse_fasta("x.fna", ">a\nAC\n>b\nGT\n>c\nTT\n");
    for i in 0..3 {
        assert_eq!(fasta.indexed_entry(i).entry_num(), i);
    }
}

#[test]
fn parse_drops_defline_without_sequence() {
    let fasta = parse_fasta("x.fna", ">a\n>b\nACGT\n>c\n");
    assert_eq!(fasta.num_entries(), 1);
    assert_eq!(fasta.indexed_entry(0).defline(), "b");
    assert_eq!(fasta.indexed_entry(0).sequence(), b"ACGT");
    assert_eq!(fasta.indexed_entry(0).entry_num(), 0);
}

#[test]
fn parse_handles_crlf_line_endings() {
    let fasta = parse_fasta("x.fna", ">a b\r\nAC\r\nGT\r\n");
    assert_eq!(fasta.num_entries(), 1);
    assert_eq!(fasta.indexed_entry(0).defline(), "a b");
    assert_eq!(fasta.indexed_entry(0).sequence(), b"ACGT");
}

#[test]
fn parse_keeps_carriage_return_of_unterminated_last_line() {
    let fasta = parse_fasta("x.fna", ">a\nAC\r");
    assert_eq!(fasta.indexed_entry(0).sequence(), b"AC\r");
}

#[test]
fn parse_sequence_before_any_defline() {
    let fasta = parse_fasta("x.fna", "ACG\n>b\nT");
    assert_eq!(fasta.num_entries(), 2);
    assert_eq!(fasta.indexed_entry(0).defline(), "");
    assert_eq!(fasta.indexed_entry(0).sequence(), b"ACG");
    assert_eq!(fasta.indexed_entry(1).defline(), "b");
    assert_eq!(fasta.indexed_entry(1).sequence(), b"T");
}

#[test]
fn parse_keeps_non_ascii_defline() {
    let fasta = parse_fasta("x.fna", ">séquence α\nAC\n");
    assert_eq!(fasta.indexed_entry(0).defline(), "séquence α");
}

#[test]
fn write_fasta_renders_each_record() {
    let mut fasta = Fasta::new("out.fna");
    fasta.add(FastaEntry::new(String::from("first"), b"ATGTAG".to_vec(), 0));
    fasta.add(FastaEntry::new(String::from("second"), b"A-G".to_vec(), 1));
    let text = write_fasta(&fasta);
    assert_eq!(text, b">first\nATGTAG\n>second\nA-G\n".to_vec());
}

#[test]
fn write_then_parse_gives_the_records_back() {
    let fasta = parse_fasta("x.fna", ">one\nACGT\nTT\n>two\n--A\n");
    let text = write_fasta(&fasta);
    let again = parse_fasta("x.fna", std::str::from_utf8(&text).unwrap());
    assert_eq!(again.num_entries(), 2);
    assert_eq!(again.indexed_entry(0).sequence(), b"ACGTTT");
    assert_eq!(again.indexed_entry(1).defline(), "two");
    assert_eq!(again.indexed_entry(1).sequence(), b"--A");
}

#[test]
fn remove_gaps_drops_only_gaps() {
    assert_eq!(remove_gaps(b"--AT-G-"), b"ATG".to_vec());
    assert_eq!(remove_gaps(b"----"), Vec::<u8>::new());
    assert_eq!(remove_gaps(b""), Vec::<u8>::new());
}

#[test]
fn fasta_accessors() {
    let mut fasta = Fasta::new("a.fna");
    assert_eq!(fasta.filename(), "a.fna");
    assert_eq!(fasta.num_entries(), 0);
    fasta.add(FastaEntry::new(String::from("d"), b"AC".to_vec(), 0));
    assert_eq!(fasta.num_entries(), 1);
    let e = fasta.indexed_entry(0);
    assert_eq!(e.defline(), "d");
    assert_eq!(e.sequence(), b"AC");
    assert_eq!(e.entry_num(), 0);
}
