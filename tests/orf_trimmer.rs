use clean_genes::fasta::{Fasta, FastaEntry};
use clean_genes::fasta_text::parse_fasta;
use clean_genes::orf::{
    find_first_stops, find_group_start, find_group_start_weighted, find_starts, perform_trimming,
    trim_to_orf, OrfTrimError, RankWeights,
};

/// Nine short aligned sequences: mixed case, ambiguity codes, gaps and one
/// sequence of `N` only, eight of them with a start codon at offset 2.
const FAKE_SHORT: &str = ">seq_0 upper case\n\
CCATGATGTAGCC\n\
>seq_1 early stop\n\
CCATGTGATAACC\n\
>seq_2 gapped\n\
CCATG--ATGACC\n\
>seq_3 lower case\n\
ccatgatgtagcc\n\
>seq_4 mixed case\n\
CCatGAtGTAGCC\n\
>seq_5 ambiguity codes\n\
CCATGWKDTAGCC\n\
>seq_6 ambiguity codes\n\
CCATGKSMTAACC\n\
>seq_7 unknown\n\
NNNNNNNNNNNNN\n\
>seq_8 shifted start\n\
ATGNG--TTGACC\n";

fn fake_short() -> Fasta {
    parse_fasta("fake_short.fna", FAKE_SHORT)
}

fn one_sequence(seq: &[u8]) -> Fasta {
    let mut fasta = Fasta::new("one.fna");
    fasta.add(FastaEntry::new(String::from("only"), seq.to_vec(), 0));
    fasta
}

#[test]
fn good_starts() {
    let fake_fasta_short: Fasta = fake_short();
    let starts = find_starts(&fake_fasta_short, fake_fasta_short.num_entries());
    assert_eq!(
        starts.unwrap(),
        Vec::from([
            Vec::from([2, 5]),
            Vec::from([2]),
            Vec::from([2, 7]),
            Vec::from([2, 5]),
            Vec::from([2, 5]),
            Vec::from([2]),
            Vec::from([2]),
            Vec::from([]),
            Vec::from([0])
        ])
    );
}

#[test]
fn no_starts() {
    let no_fasta: Fasta = Fasta::new("fakeFile.fna");
    let starts = find_starts(&no_fasta, no_fasta.num_entries());
    assert_eq!(
        starts.unwrap_err().message(),
        "Failed to find start codons in input alignment"
    );
}

#[test]
fn good_group_starts() {
    let fake_fasta_short: Fasta = fake_short();
    let starts = find_starts(&fake_fasta_short, fake_fasta_short.num_entries());
    let group_start = find_group_start(&starts.unwrap());
    assert_eq!(group_start.unwrap(), 2);
}

#[test]
fn no_group_starts() {
    let group_start = find_group_start(&Vec::from([Vec::new()]));
    assert_eq!(
        group_start.unwrap_err().message(),
        "Failed to find a group start codon"
    );
}

#[test]
fn good_first_stops() {
    let fake_fasta_short: Fasta = fake_short();
    let starts = find_starts(&fake_fasta_short, fake_fasta_short.num_entries());
    let group_start = find_group_start(&starts.unwrap()).unwrap();
    let first_stops = find_first_stops(&fake_fasta_short, group_start);

    assert_eq!(first_stops.unwrap(), Vec::from([8, 5, 8, 8, 8, 8]));
}

#[test]
fn bad_first_stop() {
    let fake_fasta_short: Fasta = fake_short();
    let group_start = 70;
    let first_stops = find_first_stops(&fake_fasta_short, group_start);

    assert_eq!(
        first_stops.unwrap_err().message(),
        "Failed to find any stop codons in the frame of the group start codon at locus 71"
    );
}

#[test]
fn full_trim_small() {
    let fake_fasta_short: Fasta = fake_short();
    let trimmed_fasta = trim_to_orf(&fake_fasta_short, "./output.fasta").unwrap();
    assert_eq!(trimmed_fasta.num_entries(), 9);
    for i in 0..trimmed_fasta.num_entries() {
        let entry = trimmed_fasta.indexed_entry(i);
        match entry.entry_num() {
            0 => assert_eq!(entry.sequence(), b"ATGATGTAG"),
            1 => assert_eq!(entry.sequence(), b"ATGTGATAA"),
            2 => assert_eq!(entry.sequence(), b"ATG--ATGA"),
            3 => assert_eq!(entry.sequence(), b"atgatgtag"),
            4 => assert_eq!(entry.sequence(), b"atGAtGTAG"),
            5 => assert_eq!(entry.sequence(), b"ATGWKDTAG"),
            6 => assert_eq!(entry.sequence(), b"ATGKSMTAA"),
            7 => assert_eq!(entry.sequence(), b"NNNNNNNNN"),
            8 => assert_eq!(entry.sequence(), b"GNG--TTGA"),
            _ => panic!(),
        }
    }
}

#[test]
fn trimmed_collection_keeps_names_and_takes_output_name() {
    let trimmed = trim_to_orf(&fake_short(), "./output.fasta").unwrap();
    assert_eq!(trimmed.filename(), "./output.fasta");
    assert_eq!(trimmed.indexed_entry(2).defline(), "seq_2 gapped");
    assert_eq!(trimmed.indexed_entry(8).entry_num(), 8);
}

#[test]
fn empty_alignment_fails_with_no_start_codons() {
    let empty = Fasta::new("empty.fna");
    assert_eq!(trim_to_orf(&empty, "out").unwrap_err(), OrfTrimError::NoStartCodons);
}

#[test]
fn alignment_without_hits_fails_with_no_start_codons() {
    let fasta = parse_fasta("x.fna", ">a\nCCCTAG\n>b\nGG--A\n");
    assert_eq!(find_starts(&fasta, 2).unwrap_err(), OrfTrimError::NoStartCodons);
    assert_eq!(trim_to_orf(&fasta, "out").unwrap_err(), OrfTrimError::NoStartCodons);
}

#[test]
fn start_beyond_every_sequence_fails_with_no_stop_codons() {
    let fasta = fake_short();
    assert_eq!(find_first_stops(&fasta, 70).unwrap_err(), OrfTrimError::NoStopCodons(71));
}

#[test]
fn no_stop_in_frame_fails_the_trim() {
    let fasta = one_sequence(b"ATGCCCGGG");
    assert_eq!(trim_to_orf(&fasta, "out").unwrap_err(), OrfTrimError::NoStopCodons(1));
}

#[test]
fn trimming_an_empty_collection_fails() {
    let empty = Fasta::new("empty.fna");
    let r = perform_trimming(&empty, 0, 3, "out");
    assert_eq!(r.unwrap_err(), OrfTrimError::TrimFailed);
    assert_eq!(OrfTrimError::TrimFailed.message(), "Failed to trim fasta");
}

#[test]
fn retrimming_changes_nothing() {
    let once = trim_to_orf(&fake_short(), "once").unwrap();
    // the consensus was start 2, stop 8: the new frame starts at 0, stops at 6
    let twice = perform_trimming(&once, 0, 6, "twice").unwrap();
    assert_eq!(twice.num_entries(), once.num_entries());
    for i in 0..once.num_entries() {
        assert_eq!(twice.indexed_entry(i).sequence(), once.indexed_entry(i).sequence());
    }
}

#[test]
fn window_lengths() {
    let mut fasta = Fasta::new("w.fna");
    fasta.add(FastaEntry::new(String::from("long"), b"AAATGCCCTAGTTTT".to_vec(), 0));
    fasta.add(FastaEntry::new(String::from("cut"), b"AAATGCCCT".to_vec(), 1));
    fasta.add(FastaEntry::new(String::from("short"), b"AA".to_vec(), 2));
    let out = perform_trimming(&fasta, 2, 8, "out").unwrap();
    // min(15, 11) - 2, min(9, 11) - 2, and nothing for a sequence not reaching the start
    assert_eq!(out.indexed_entry(0).sequence(), b"ATGCCCTAG");
    assert_eq!(out.indexed_entry(1).sequence(), b"ATGCCCT");
    assert_eq!(out.indexed_entry(2).sequence().len(), 0);
}

#[test]
fn gaps_do_not_shift_the_frame() {
    let plain = one_sequence(b"ATGCCCTAGCC");
    let gapped = one_sequence(b"ATG-CC--CT-AGCC");
    assert_eq!(find_first_stops(&plain, 0).unwrap(), vec![6]);
    // the same TAG codon, its first byte now at offset 9
    assert_eq!(find_first_stops(&gapped, 0).unwrap(), vec![9]);
}

#[test]
fn gap_inside_codon_is_skipped() {
    let fasta = one_sequence(b"ATGT-AA");
    assert_eq!(find_first_stops(&fasta, 0).unwrap(), vec![3]);
}

#[test]
fn out_of_frame_stop_is_not_taken() {
    let fasta = one_sequence(b"ATGCTAGCCTGA");
    assert_eq!(find_first_stops(&fasta, 0).unwrap(), vec![9]);
}

#[test]
fn votes_favour_early_hits() {
    // offset 4: 8 + 8 + 4 = 20; offset 1: 4 + 8 = 12
    let starts = vec![vec![4, 9], vec![4, 1], vec![1, 4]];
    assert_eq!(find_group_start(&starts).unwrap(), 4);
    // 8 each: the tie goes to the smaller offset
    let tied = vec![vec![4, 1], vec![1, 4]];
    assert_eq!(find_group_start(&tied).unwrap(), 1);
    // one more sequence whose first hit is 4 lifts 4 above 1
    let more = vec![vec![4, 1], vec![1, 4], vec![4]];
    assert_eq!(find_group_start(&more).unwrap(), 4);
}

#[test]
fn hits_after_the_fourth_cast_no_vote() {
    let starts = vec![vec![1, 2, 3, 4, 5]];
    assert_eq!(find_group_start(&starts).unwrap(), 1);
    let w = RankWeights { first: 0, second: 0, third: 0, fourth: 0 };
    assert_eq!(find_group_start_weighted(&starts, w).unwrap_err(), OrfTrimError::NoGroupStart);
}

#[test]
fn other_weights_change_the_winner() {
    let starts = vec![vec![3, 6], vec![3, 6], vec![6]];
    assert_eq!(find_group_start(&starts).unwrap(), 3);
    let w = RankWeights { first: 1, second: 5, third: 0, fourth: 0 };
    assert_eq!(find_group_start_weighted(&starts, w).unwrap(), 6);
    assert_eq!(RankWeights::standard(), RankWeights { first: 8, second: 4, third: 2, fourth: 1 });
}

#[test]
fn rna_start_and_stop_codons() {
    let fasta = one_sequence(b"GAUGCCCUAA");
    assert_eq!(find_starts(&fasta, 1).unwrap(), vec![vec![1]]);
    let out = trim_to_orf(&fasta, "out").unwrap();
    assert_eq!(out.indexed_entry(0).sequence(), b"AUGCCCUAA");
}

#[test]
fn error_messages() {
    assert_eq!(OrfTrimError::NoStopCodons(0).message(),
        "Failed to find any stop codons in the frame of the group start codon at locus 0");
    assert_eq!(OrfTrimError::NoStopCodons(1205).message(),
        "Failed to find any stop codons in the frame of the group start codon at locus 1205");
}
