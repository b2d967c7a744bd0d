//! The ORF-consensus engine: start-codon voting, in-frame stop search and
//! trimming of every sequence to the consensus window.

use crate::fasta::{EntryView, Fasta, FastaEntry, FastaView, GAP};
use crate::mode::{lemma_mode_exists, mode_of, mode_vec_usize};
use std::collections::HashMap;
use vstd::prelude::*;

verus! {

broadcast use vstd::std_specs::hash::group_hash_axioms;

/// The ways a trim can fail.
#[derive(Debug, Clone, Copy, PartialEq, Eq, Structural)]
pub enum OrfTrimError {
    NoStartCodons,
    NoGroupStart,
    /// Carries the 1-based locus of the group start codon.
    NoStopCodons(usize),
    TrimFailed,
}

/// The decimal digits of `n`, most significant first.
pub open spec fn decimal(n: nat) -> Seq<char>
    decreases n,
{
    if n < 10 {
        seq![((n + 48) as u8) as char]
    } else {
        decimal(n / 10).push(((n % 10 + 48) as u8) as char)
    }
}

/// Relies on `ToString::to_string` of `usize`: its `Display` writes the
/// decimal digits with no sign and no padding.
#[verifier::external_body]
fn decimal_string(n: usize) -> (r: String)
    ensures
        r@ == decimal(n as nat),
{
    n.to_string()
}

/// The text that describes a failure.
pub open spec fn error_message(e: OrfTrimError) -> Seq<char> {
    match e {
        OrfTrimError::NoStartCodons => "Failed to find start codons in input alignment"@,
        OrfTrimError::NoGroupStart => "Failed to find a group start codon"@,
        OrfTrimError::NoStopCodons(pos) =>
            "Failed to find any stop codons in the frame of the group start codon at locus "@
                + decimal(pos as nat),
        OrfTrimError::TrimFailed => "Failed to trim fasta"@,
    }
}

impl OrfTrimError {
    /// Describes the failure in words.
    pub fn message(&self) -> (r: String)
        ensures
            r@ == error_message(*self),
    {
        match self {
            OrfTrimError::NoStartCodons => "Failed to find start codons in input alignment".to_owned(),
            OrfTrimError::NoGroupStart => "Failed to find a group start codon".to_owned(),
            OrfTrimError::NoStopCodons(pos) => {
                let head =
                    "Failed to find any stop codons in the frame of the group start codon at locus "
                        .to_owned();
                let digits = decimal_string(*pos);
                head.concat(digits.as_str())
            },
            OrfTrimError::TrimFailed => "Failed to trim fasta".to_owned(),
        }
    }
}

/// The vote that a start-codon hit casts, by its rank within its sequence.
/// Hits after the fourth cast no vote.
#[derive(Debug, Clone, Copy, PartialEq, Eq, Structural)]
pub struct RankWeights {
    pub first: u8,
    pub second: u8,
    pub third: u8,
    pub fourth: u8,
}

pub const FIRST_HIT_WEIGHT: u8 = 8;

pub const SECOND_HIT_WEIGHT: u8 = 4;

pub const THIRD_HIT_WEIGHT: u8 = 2;

pub const FOURTH_HIT_WEIGHT: u8 = 1;

impl RankWeights {
    /// The weighting used by `find_group_start`: 8, 4, 2, 1.
    pub fn standard() -> (r: RankWeights)
        ensures
            r == standard_weights(),
    {
        RankWeights {
            first: FIRST_HIT_WEIGHT,
            second: SECOND_HIT_WEIGHT,
            third: THIRD_HIT_WEIGHT,
            fourth: FOURTH_HIT_WEIGHT,
        }
    }

    /// The vote of the hit at 0-based `rank`.
    pub open spec fn weight(self, rank: int) -> nat {
        if rank == 0 {
            self.first as nat
        } else if rank == 1 {
            self.second as nat
        } else if rank == 2 {
            self.third as nat
        } else if rank == 3 {
            self.fourth as nat
        } else {
            0
        }
    }

    fn weight_of(&self, rank: usize) -> (r: u8)
        ensures
            r as nat == self.weight(rank as int),
    {
        if rank == 0 {
            self.first
        } else if rank == 1 {
            self.second
        } else if rank == 2 {
            self.third
        } else if rank == 3 {
            self.fourth
        } else {
            0
        }
    }
}

pub open spec fn standard_weights() -> RankWeights {
    RankWeights {
        first: FIRST_HIT_WEIGHT,
        second: SECOND_HIT_WEIGHT,
        third: THIRD_HIT_WEIGHT,
        fourth: FOURTH_HIT_WEIGHT,
    }
}

// ---------------------------------------------------------------------------
// Codons
// ---------------------------------------------------------------------------

/// ASCII upper case of a byte; other bytes are left as they are.
pub open spec fn upper(b: u8) -> u8 {
    if 97 <= b <= 122 {
        (b - 32) as u8
    } else {
        b
    }
}

fn upper_byte(b: u8) -> (r: u8)
    ensures
        r == upper(b),
{
    if 97 <= b && b <= 122 {
        b - 32
    } else {
        b
    }
}

/// `ATG` or `AUG`, in either case.
pub open spec fn is_start_codon(a: u8, b: u8, c: u8) -> bool {
    &&& upper(a) == 65
    &&& (upper(b) == 84 || upper(b) == 85)
    &&& upper(c) == 71
}

/// `TAG`, `TGA`, `TAA`, `UAG`, `UGA` or `UAA`, in either case.
pub open spec fn is_stop_codon(a: u8, b: u8, c: u8) -> bool {
    &&& (upper(a) == 84 || upper(a) == 85)
    &&& ((upper(b) == 65 && (upper(c) == 71 || upper(c) == 65)) || (upper(b) == 71 && upper(c)
        == 65))
}

fn start_codon_at(a: u8, b: u8, c: u8) -> (r: bool)
    ensures
        r == is_start_codon(a, b, c),
{
    let (a, b, c) = (upper_byte(a), upper_byte(b), upper_byte(c));
    a == 65 && (b == 84 || b == 85) && c == 71
}

fn stop_codon_at(a: u8, b: u8, c: u8) -> (r: bool)
    ensures
        r == is_stop_codon(a, b, c),
{
    let (a, b, c) = (upper_byte(a), upper_byte(b), upper_byte(c));
    (a == 84 || a == 85) && ((b == 65 && (c == 71 || c == 65)) || (b == 71 && c == 65))
}

// ---------------------------------------------------------------------------
// Start-codon scanning
// ---------------------------------------------------------------------------

/// The offsets below `n` at which a start codon begins in `s`, in order.
pub open spec fn starts_below(s: Seq<u8>, n: int) -> Seq<usize>
    decreases n,
{
    if n <= 0 {
        Seq::empty()
    } else if n + 2 <= s.len() && is_start_codon(s[n - 1], s[n], s[n + 1]) {
        starts_below(s, n - 1).push((n - 1) as usize)
    } else {
        starts_below(s, n - 1)
    }
}

/// Every offset at which a start codon begins in `s`, in every reading frame.
pub open spec fn start_hits(s: Seq<u8>) -> Seq<usize> {
    starts_below(s, s.len() as int)
}

/// The start hits of each sequence.
pub open spec fn hit_table(seqs: Seq<Seq<u8>>) -> Seq<Seq<usize>> {
    seqs.map_values(|s: Seq<u8>| start_hits(s))
}

/// Some sequence has a start hit.
pub open spec fn any_hits(table: Seq<Seq<usize>>) -> bool {
    exists|i: int| 0 <= i < table.len() && #[trigger] table[i].len() > 0
}

proof fn lemma_starts_below_range(s: Seq<u8>, n: int)
    requires
        s.len() <= usize::MAX,
    ensures
        forall|j: int|
            0 <= j < starts_below(s, n).len() ==> #[trigger] starts_below(s, n)[j] + 3 <= s.len(),
    decreases n,
{
    if n > 0 {
        lemma_starts_below_range(s, n - 1);
        let prev = starts_below(s, n - 1);
        assert forall|j: int|
            0 <= j < starts_below(s, n).len() implies #[trigger] starts_below(s, n)[j] + 3
            <= s.len() by {
            if j < prev.len() {
                assert(starts_below(s, n)[j] == prev[j]);
            }
        }
    }
}

/// Identifies all start codons in all reading frames for a Fasta object
pub fn find_starts(inp_fasta: &Fasta, num_seqs: usize) -> (r: Result<Vec<Vec<usize>>, OrfTrimError>)
    requires
        num_seqs == inp_fasta@.entries.len(),
    ensures
        r matches Ok(t) ==> t.deep_view() == hit_table(inp_fasta@.sequences()),
        r is Err ==> r == Err::<Vec<Vec<usize>>, OrfTrimError>(OrfTrimError::NoStartCodons),
        r is Ok <==> any_hits(hit_table(inp_fasta@.sequences())),
{
    let ghost seqs = inp_fasta@.sequences();
    let mut starts: Vec<Vec<usize>> = Vec::new();
    let mut any = false;
    let mut e: usize = 0;
    while e < num_seqs
        invariant
            num_seqs == inp_fasta@.entries.len(),
            seqs == inp_fasta@.sequences(),
            e <= num_seqs,
            starts.deep_view() =~= hit_table(seqs).take(e as int),
            any <==> any_hits(hit_table(seqs).take(e as int)),
        decreases num_seqs - e,
    {
        let seq = inp_fasta.indexed_entry(e).sequence();
        let ghost sq = seq@;
        assert(sq == seqs[e as int]);
        let len = seq.len();
        let mut hits: Vec<usize> = Vec::new();
        let mut i: usize = 0;
        while i < len
            invariant
                len == sq.len(),
                sq == seq@,
                i <= len,
                hits@ == starts_below(sq, i as int),
            decreases len - i,
        {
            if len - i >= 3 && start_codon_at(seq[i], seq[i + 1], seq[i + 2]) {
                hits.push(i);
            }
            i = i + 1;
        }
        let ghost old_starts = starts.deep_view();
        let ghost tab = hit_table(seqs);
        if hits.len() > 0 {
            any = true;
        }
        assert(hits.deep_view() =~= hits@);
        starts.push(hits);
        proof {
            assert(tab.take(e + 1) =~= tab.take(e as int).push(start_hits(sq)));
            assert(starts.deep_view() =~= old_starts.push(hits@));
            if any_hits(tab.take(e + 1)) && !any_hits(tab.take(e as int)) {
                let q = choose|q: int|
                    0 <= q < tab.take(e + 1).len() && #[trigger] tab.take(e + 1)[q].len() > 0;
                if q < e {
                    assert(tab.take(e as int)[q].len() > 0);
                }
            }
            if any_hits(tab.take(e as int)) {
                let q = choose|q: int|
                    0 <= q < tab.take(e as int).len() && #[trigger] tab.take(e as int)[q].len()
                        > 0;
                assert(tab.take(e + 1)[q].len() > 0);
            }
            if hits@.len() > 0 {
                assert(tab.take(e + 1)[e as int].len() > 0);
            }
        }
        e = e + 1;
    }
    assert(hit_table(seqs).take(num_seqs as int) =~= hit_table(seqs));
    if any {
        Ok(starts)
    } else {
        Err(OrfTrimError::NoStartCodons)
    }
}

// ---------------------------------------------------------------------------
// Stop-codon scanning
// ---------------------------------------------------------------------------

/// The offsets in `[g, n)` of `s` that hold no gap, in order.
pub open spec fn positions_below(s: Seq<u8>, g: int, n: int) -> Seq<usize>
    decreases n - g,
{
    if n <= g {
        Seq::empty()
    } else if s[n - 1] != GAP {
        positions_below(s, g, n - 1).push((n - 1) as usize)
    } else {
        positions_below(s, g, n - 1)
    }
}

/// The offsets from `g` on of `s` that hold no gap, in order: the stream that
/// the reading frame of a start at `g` is counted over.
pub open spec fn residue_positions(s: Seq<u8>, g: int) -> Seq<usize> {
    positions_below(s, g, s.len() as int)
}

/// The bytes of `s` from `g` on with the gaps left out.
pub open spec fn residues(s: Seq<u8>, g: int) -> Seq<u8> {
    residue_positions(s, g).map_values(|j: usize| s[j as int])
}

/// The index of the first stop codon among the triplets `k, k + 1, ...` of
/// the residue stream `r`.
pub open spec fn first_stop_from(r: Seq<u8>, k: nat) -> Option<nat>
    decreases r.len() - 3 * k,
{
    if 3 * k + 3 > r.len() {
        None
    } else if is_stop_codon(r[3 * k as int], r[3 * k as int + 1], r[3 * k as int + 2]) {
        Some(k)
    } else {
        first_stop_from(r, k + 1)
    }
}

/// The index of the triplet that is the first in-frame stop codon of `s`
/// for a start at `g`, counted over non-gap residues only.
pub open spec fn stop_codon_index(s: Seq<u8>, g: int) -> Option<nat> {
    first_stop_from(residues(s, g), 0)
}

/// The offset in `s` of the first byte of its first in-frame stop codon for
/// a start at `g`.
pub open spec fn first_stop(s: Seq<u8>, g: int) -> Option<usize> {
    match stop_codon_index(s, g) {
        Some(k) => Some(residue_positions(s, g)[3 * k as int]),
        None => None,
    }
}

/// The first stops of the sequences that have one, in order.
pub open spec fn stop_list(seqs: Seq<Seq<u8>>, g: int) -> Seq<usize>
    decreases seqs.len(),
{
    if seqs.len() == 0 {
        Seq::empty()
    } else {
        match first_stop(seqs.last(), g) {
            Some(p) => stop_list(seqs.drop_last(), g).push(p),
            None => stop_list(seqs.drop_last(), g),
        }
    }
}

/// Collects, in order, the offsets in `[g, len)` of `seq` that hold no gap.
fn non_gap_positions(seq: &Vec<u8>, g: usize) -> (r: Vec<usize>)
    ensures
        r@ == residue_positions(seq@, g as int),
        forall|q: int| 0 <= q < r@.len() ==> g <= #[trigger] r@[q] < seq@.len(),
{
    let len = seq.len();
    let mut pos: Vec<usize> = Vec::new();
    let mut j: usize = g;
    if j > len {
        j = len;
    }
    assert(positions_below(seq@, g as int, j as int) =~= Seq::<usize>::empty());
    while j < len
        invariant
            len == seq@.len(),
            g <= j || j == len,
            j <= len,
            j < g ==> pos@.len() == 0,
            pos@ == positions_below(seq@, g as int, j as int),
            forall|q: int| 0 <= q < pos@.len() ==> g <= #[trigger] pos@[q] < j,
        decreases len - j,
    {
        if seq[j] != GAP {
            pos.push(j);
        }
        j = j + 1;
    }
    pos
}

/// The first stop of `seq` for a start at `g`, if it has one.
fn first_stop_of(seq: &Vec<u8>, g: usize) -> (r: Option<usize>)
    ensures
        r == first_stop(seq@, g as int),
{
    let ghost s = seq@;
    let pos = non_gap_positions(seq, g);
    let ghost rs = residues(s, g as int);
    assert(rs.len() == pos@.len());
    let mut c: usize = 0;
    let ghost mut k: nat = 0;
    while pos.len() - c >= 3
        invariant
            s == seq@,
            pos@ == residue_positions(s, g as int),
            rs == residues(s, g as int),
            rs.len() == pos@.len(),
            forall|q: int| 0 <= q < pos@.len() ==> g <= #[trigger] pos@[q] < s.len(),
            c == 3 * k,
            c <= pos@.len(),
            first_stop_from(rs, 0) == first_stop_from(rs, k),
        decreases pos@.len() - c,
    {
        let (a, b, d) = (seq[pos[c]], seq[pos[c + 1]], seq[pos[c + 2]]);
        assert(a == rs[3 * k as int] && b == rs[3 * k as int + 1] && d == rs[3 * k as int + 2]);
        if stop_codon_at(a, b, d) {
            return Some(pos[c]);
        }
        c = c + 3;
        proof {
            k = k + 1;
        }
    }
    None
}

/// Identifies the common stop codon locus. Uses the determined common start
/// codon locus to define the reading frame and then identifies the first stop
/// codon for each sequence in that frame
pub fn find_first_stops(inp_fasta: &Fasta, group_start: usize) -> (r: Result<Vec<usize>, OrfTrimError>)
    requires
        group_start < usize::MAX,
    ensures
        r matches Ok(v) ==> v@ == stop_list(inp_fasta@.sequences(), group_start as int),
        r is Err ==> r == Err::<Vec<usize>, OrfTrimError>(
            OrfTrimError::NoStopCodons((group_start + 1) as usize),
        ),
        r is Ok <==> stop_list(inp_fasta@.sequences(), group_start as int).len() > 0,
{
    let ghost seqs = inp_fasta@.sequences();
    let n = inp_fasta.num_entries();
    let mut first_stops: Vec<usize> = Vec::new();
    let mut e: usize = 0;
    while e < n
        invariant
            n == inp_fasta@.entries.len(),
            seqs == inp_fasta@.sequences(),
            e <= n,
            first_stops@ == stop_list(seqs.take(e as int), group_start as int),
        decreases n - e,
    {
        let seq = inp_fasta.indexed_entry(e).sequence();
        assert(seq@ == seqs[e as int]);
        assert(seqs.take(e + 1).drop_last() =~= seqs.take(e as int));
        if group_start < seq.len() {
            match first_stop_of(seq, group_start) {
                Some(p) => first_stops.push(p),
                None => {},
            }
        } else {
            assert(positions_below(seq@, group_start as int, seq@.len() as int)
                =~= Seq::<usize>::empty());
        }
        e = e + 1;
    }
    assert(seqs.take(n as int) =~= seqs);
    if first_stops.len() == 0 {
        Err(OrfTrimError::NoStopCodons(group_start + 1))
    } else {
        Ok(first_stops)
    }
}

// ---------------------------------------------------------------------------
// Group-start voting
// ---------------------------------------------------------------------------

/// The votes that the first `n` hits of one sequence cast for offset `p`.
pub open spec fn prefix_score(hits: Seq<usize>, w: RankWeights, p: usize, n: int) -> nat
    decreases n,
{
    if n <= 0 {
        0
    } else {
        prefix_score(hits, w, p, n - 1) + if hits[n - 1] == p {
            w.weight(n - 1)
        } else {
            0
        }
    }
}

/// The votes that one sequence's hits cast for offset `p`.
pub open spec fn hit_score(hits: Seq<usize>, w: RankWeights, p: usize) -> nat {
    prefix_score(hits, w, p, hits.len() as int)
}

/// The votes that all sequences' hits cast for offset `p`.
pub open spec fn table_score(table: Seq<Seq<usize>>, w: RankWeights, p: usize) -> nat
    decreases table.len(),
{
    if table.len() == 0 {
        0
    } else {
        table_score(table.drop_last(), w, p) + hit_score(table.last(), w, p)
    }
}

/// Some offset receives a vote.
pub open spec fn has_votes(table: Seq<Seq<usize>>, w: RankWeights) -> bool {
    exists|p: usize| table_score(table, w, p) > 0
}

/// `g` has a vote, no offset has more, and among the offsets with as many it
/// is the smallest.
pub open spec fn is_group_start(table: Seq<Seq<usize>>, w: RankWeights, g: usize) -> bool {
    &&& table_score(table, w, g) > 0
    &&& forall|p: usize| #[trigger] table_score(table, w, p) <= table_score(table, w, g)
    &&& forall|p: usize| #[trigger] table_score(table, w, p) == table_score(table, w, g) ==> g <= p
}

/// The consensus start offset of a hit table, if any offset has a vote.
pub open spec fn group_start_of(table: Seq<Seq<usize>>, w: RankWeights) -> Option<usize> {
    if has_votes(table, w) {
        Some(choose|g: usize| is_group_start(table, w, g))
    } else {
        None
    }
}

proof fn lemma_prefix_score_bound(hits: Seq<usize>, w: RankWeights, p: usize, n: int)
    ensures
        prefix_score(hits, w, p, n) <= 1020,
        0 <= n <= 4 ==> prefix_score(hits, w, p, n) <= 255 * n,
    decreases n,
{
    if n > 0 {
        lemma_prefix_score_bound(hits, w, p, n - 1);
    }
}

proof fn lemma_table_score_bound(table: Seq<Seq<usize>>, w: RankWeights, p: usize)
    ensures
        table_score(table, w, p) <= 1020 * table.len(),
    decreases table.len(),
{
    if table.len() > 0 {
        lemma_table_score_bound(table.drop_last(), w, p);
        lemma_prefix_score_bound(table.last(), w, p, table.last().len() as int);
    }
}

proof fn lemma_group_start_unique(table: Seq<Seq<usize>>, w: RankWeights, a: usize, b: usize)
    requires
        is_group_start(table, w, a),
        is_group_start(table, w, b),
    ensures
        a == b,
{
    assert(table_score(table, w, a) <= table_score(table, w, b));
    assert(table_score(table, w, b) <= table_score(table, w, a));
}

/// Identifies the common start codon locus under the given rank weights: the
/// offset with the highest total vote, the smallest such offset on a tie.
pub fn find_group_start_weighted(starts: &Vec<Vec<usize>>, w: RankWeights) -> (r: Result<
    usize,
    OrfTrimError,
>)
    ensures
        match group_start_of(starts.deep_view(), w) {
            Some(g) => r == Ok::<usize, OrfTrimError>(g),
            None => r == Err::<usize, OrfTrimError>(OrfTrimError::NoGroupStart),
        },
        r matches Ok(g) ==> is_group_start(starts.deep_view(), w, g),
        r is Ok <==> has_votes(starts.deep_view(), w),
{
    let ghost t = starts.deep_view();
    let mut scores: HashMap<usize, u128> = HashMap::new();
    let mut keys: Vec<usize> = Vec::new();
    let n = starts.len();
    let mut s: usize = 0;
    while s < n
        invariant
            n == t.len(),
            t == starts.deep_view(),
            s <= n,
            forall|p: usize| #[trigger] scores@.contains_key(p) <==> keys@.contains(p),
            forall|p: usize| #[trigger]
                scores@.contains_key(p) ==> scores@[p] == table_score(t.take(s as int), w, p),
            forall|p: usize|
                !(#[trigger] scores@.contains_key(p)) ==> table_score(t.take(s as int), w, p) == 0,
        decreases n - s,
    {
        let hits = &starts[s];
        let ghost h = hits@;
        assert(h == t[s as int]);
        let m = hits.len();
        let mut i: usize = 0;
        while i < m
            invariant
                n == t.len(),
                t == starts.deep_view(),
                s < n,
                h == t[s as int],
                h == hits@,
                m == h.len(),
                i <= m,
                forall|p: usize| #[trigger] scores@.contains_key(p) <==> keys@.contains(p),
                forall|p: usize| #[trigger]
                    scores@.contains_key(p) ==> scores@[p] == table_score(t.take(s as int), w, p)
                        + prefix_score(h, w, p, i as int),
                forall|p: usize|
                    !(#[trigger] scores@.contains_key(p)) ==> table_score(t.take(s as int), w, p)
                        + prefix_score(h, w, p, i as int) == 0,
            decreases m - i,
        {
            let x = hits[i];
            let v = w.weight_of(i);
            let ghost old_keys = keys@;
            let ghost old_scores = scores@;
            proof {
                lemma_table_score_bound(t.take(s as int), w, x);
                lemma_prefix_score_bound(h, w, x, i as int);
                assert(1020 * s <= 1020 * (usize::MAX as int)) by (nonlinear_arith)
                    requires
                        s <= usize::MAX,
                ;
            }
            match scores.get(&x) {
                Some(c) => {
                    let c = *c;
                    assert(scores@.contains_key(x));
                    scores.insert(x, c + v as u128);
                },
                None => {
                    scores.insert(x, v as u128);
                    keys.push(x);
                    assert(keys@[keys@.len() - 1] == x);
                },
            }
            proof {
                assert forall|p: usize| #[trigger] scores@.contains_key(p) <==> keys@.contains(p) by {
                    if keys@.contains(p) && !old_keys.contains(p) {
                        let j = choose|j: int| 0 <= j < keys@.len() && keys@[j] == p;
                        if j < old_keys.len() {
                            assert(old_keys[j] == p);
                        }
                    }
                    if old_keys.contains(p) {
                        let j = choose|j: int| 0 <= j < old_keys.len() && old_keys[j] == p;
                        assert(keys@[j] == p);
                    }
                }
            }
            i = i + 1;
        }
        proof {
            assert(t.take(s + 1).drop_last() =~= t.take(s as int));
            assert(t.take(s + 1).last() == h);
        }
        s = s + 1;
    }
    assert(t.take(n as int) =~= t);
    let mut best_key: usize = 0;
    let mut best_score: u128 = 0;
    let mut j: usize = 0;
    while j < keys.len()
        invariant
            t == starts.deep_view(),
            j <= keys@.len(),
            forall|p: usize| #[trigger] scores@.contains_key(p) <==> keys@.contains(p),
            forall|p: usize| #[trigger] scores@.contains_key(p) ==> scores@[p] == table_score(t, w, p),
            forall|p: usize| !(#[trigger] scores@.contains_key(p)) ==> table_score(t, w, p) == 0,
            best_score > 0 ==> best_score == table_score(t, w, best_key),
            forall|k: int|
                0 <= k < j ==> table_score(t, w, #[trigger] keys@[k]) < best_score || (table_score(
                    t,
                    w,
                    keys@[k],
                ) == best_score && (best_score == 0 || best_key <= keys@[k])),
        decreases keys@.len() - j,
    {
        let k = keys[j];
        assert(keys@.contains(k));
        let c = *scores.get(&k).unwrap();
        if c > best_score || (c == best_score && c > 0 && k < best_key) {
            best_key = k;
            best_score = c;
        }
        j = j + 1;
    }
    if best_score == 0 {
        proof {
            assert forall|p: usize| table_score(t, w, p) == 0 by {
                if scores@.contains_key(p) {
                    let k = choose|k: int| 0 <= k < keys@.len() && keys@[k] == p;
                }
            }
        }
        Err(OrfTrimError::NoGroupStart)
    } else {
        proof {
            assert forall|p: usize| #[trigger] table_score(t, w, p) <= table_score(t, w, best_key) by {
                if scores@.contains_key(p) {
                    let k = choose|k: int| 0 <= k < keys@.len() && keys@[k] == p;
                }
            }
            assert forall|p: usize| #[trigger]
                table_score(t, w, p) == table_score(t, w, best_key) implies best_key <= p by {
                if scores@.contains_key(p) {
                    let k = choose|k: int| 0 <= k < keys@.len() && keys@[k] == p;
                }
            }
            assert(is_group_start(t, w, best_key));
            lemma_group_start_unique(t, w, best_key, choose|g: usize| is_group_start(t, w, g));
        }
        Ok(best_key)
    }
}

/// Identifies the common start codon locus based on the location and
/// consistency of available start codons, with the standard rank weights.
pub fn find_group_start(starts: &Vec<Vec<usize>>) -> (r: Result<usize, OrfTrimError>)
    ensures
        match group_start_of(starts.deep_view(), standard_weights()) {
            Some(g) => r == Ok::<usize, OrfTrimError>(g),
            None => r == Err::<usize, OrfTrimError>(OrfTrimError::NoGroupStart),
        },
        r matches Ok(g) ==> is_group_start(starts.deep_view(), standard_weights(), g),
        r is Ok <==> has_votes(starts.deep_view(), standard_weights()),
{
    find_group_start_weighted(starts, RankWeights::standard())
}


// ---------------------------------------------------------------------------
// Trimming
// ---------------------------------------------------------------------------

/// One past the last offset of the window that ends with the codon at `stop`,
/// cut to a sequence of length `len`.
pub open spec fn window_end(len: int, stop: int) -> int {
    if stop + 3 < len {
        stop + 3
    } else {
        len
    }
}

/// The bytes of `s` at the offsets `i` with `start <= i < stop + 3`.
pub open spec fn window(s: Seq<u8>, start: int, stop: int) -> Seq<u8> {
    if start < window_end(s.len() as int, stop) {
        s.subrange(start, window_end(s.len() as int, stop))
    } else {
        Seq::empty()
    }
}

/// A record cut to the window: same defline and ordinal.
pub open spec fn trim_entry(e: EntryView, start: int, stop: int) -> EntryView {
    EntryView {
        defline: e.defline,
        sequence: window(e.sequence, start, stop),
        entry_num: e.entry_num,
    }
}

/// Every record of `f` cut to the window, in a collection named `name`.
pub open spec fn trimmed(f: FastaView, start: int, stop: int, name: Seq<char>) -> FastaView {
    FastaView {
        filename: name,
        entries: f.entries.map_values(|e: EntryView| trim_entry(e, start, stop)),
    }
}

/// Copies the window of `seq` for `start` and `stop`.
fn cut_window(seq: &Vec<u8>, start: usize, stop: usize) -> (r: Vec<u8>)
    ensures
        r@ == window(seq@, start as int, stop as int),
{
    let len = seq.len();
    let end = if stop >= len || len - stop <= 3 {
        len
    } else {
        stop + 3
    };
    let mut out: Vec<u8> = Vec::new();
    let mut i: usize = start;
    if start < end {
        while i < end
            invariant
                len == seq@.len(),
                end == window_end(len as int, stop as int),
                start <= i <= end,
                end <= len,
                out@ == seq@.subrange(start as int, i as int),
            decreases end - i,
        {
            out.push(seq[i]);
            i = i + 1;
            assert(out@ =~= seq@.subrange(start as int, i as int));
        }
    } else {
        assert(out@ =~= Seq::<u8>::empty());
    }
    out
}

/// Does the actual trimming step, taking in the Fasta object, the group start
/// and stop codons (the locus at which to trim), and the name of the output
/// file and returns a trimmed Fasta object with a new name matching the name
/// of the output file
pub fn perform_trimming(inp_fasta: &Fasta, start: usize, stop: usize, out_fasta_name: &str) -> (r:
    Result<Fasta, OrfTrimError>)
    ensures
        r matches Ok(f) ==> f@ == trimmed(inp_fasta@, start as int, stop as int, out_fasta_name@),
        r is Err ==> r == Err::<Fasta, OrfTrimError>(OrfTrimError::TrimFailed),
        r is Err <==> inp_fasta@.entries.len() == 0,
{
    let ghost target = trimmed(inp_fasta@, start as int, stop as int, out_fasta_name@);
    let mut trimmed_fasta = Fasta::new(out_fasta_name);
    let n = inp_fasta.num_entries();
    let mut e: usize = 0;
    while e < n
        invariant
            n == inp_fasta@.entries.len(),
            target == trimmed(inp_fasta@, start as int, stop as int, out_fasta_name@),
            e <= n,
            trimmed_fasta@.filename == out_fasta_name@,
            trimmed_fasta@.entries =~= target.entries.take(e as int),
        decreases n - e,
    {
        let entry = inp_fasta.indexed_entry(e);
        let trimmed_sequence = cut_window(entry.sequence(), start, stop);
        let trimmed_entry = FastaEntry::new(entry.defline(), trimmed_sequence, entry.entry_num());
        trimmed_fasta.add(trimmed_entry);
        assert(target.entries.take(e + 1) =~= target.entries.take(e as int).push(
            target.entries[e as int],
        ));
        e = e + 1;
    }
    assert(target.entries.take(n as int) =~= target.entries);
    if trimmed_fasta.num_entries() == 0 {
        Err(OrfTrimError::TrimFailed)
    } else {
        Ok(trimmed_fasta)
    }
}


// ---------------------------------------------------------------------------
// The whole run
// ---------------------------------------------------------------------------

/// What a trim of `f` into a collection named `name` gives: each step in
/// turn, the first failure ending the run.
pub open spec fn orf_trim(f: FastaView, name: Seq<char>) -> Result<FastaView, OrfTrimError> {
    let table = hit_table(f.sequences());
    if !any_hits(table) {
        Err(OrfTrimError::NoStartCodons)
    } else {
        match group_start_of(table, standard_weights()) {
            None => Err(OrfTrimError::NoGroupStart),
            Some(g) => {
                let stops = stop_list(f.sequences(), g as int);
                if stops.len() == 0 {
                    Err(OrfTrimError::NoStopCodons((g + 1) as usize))
                } else {
                    match mode_of(stops) {
                        None => Err(OrfTrimError::TrimFailed),
                        Some(m) => if f.entries.len() == 0 {
                            Err(OrfTrimError::TrimFailed)
                        } else {
                            Ok(trimmed(f, g as int, m as int, name))
                        },
                    }
                }
            },
        }
    }
}

proof fn lemma_prefix_score_hit(hits: Seq<usize>, w: RankWeights, p: usize, n: int)
    requires
        prefix_score(hits, w, p, n) > 0,
        n <= hits.len(),
    ensures
        hits.contains(p),
    decreases n,
{
    if n > 0 && hits[n - 1] != p {
        lemma_prefix_score_hit(hits, w, p, n - 1);
    }
}

proof fn lemma_table_score_hit(table: Seq<Seq<usize>>, w: RankWeights, p: usize)
    requires
        table_score(table, w, p) > 0,
    ensures
        exists|i: int| 0 <= i < table.len() && #[trigger] table[i].contains(p),
    decreases table.len(),
{
    if hit_score(table.last(), w, p) > 0 {
        lemma_prefix_score_hit(table.last(), w, p, table.last().len() as int);
        assert(table[table.len() - 1].contains(p));
    } else {
        lemma_table_score_hit(table.drop_last(), w, p);
        let i = choose|i: int|
            0 <= i < table.drop_last().len() && #[trigger] table.drop_last()[i].contains(p);
        assert(table[i].contains(p));
    }
}

/// A group start found among the start hits of `f` leaves room for a codon
/// after it.
proof fn lemma_group_start_in_range(f: &Fasta, g: usize)
    requires
        is_group_start(hit_table(f@.sequences()), standard_weights(), g),
    ensures
        g < usize::MAX,
{
    let table = hit_table(f@.sequences());
    lemma_table_score_hit(table, standard_weights(), g);
    let i = choose|i: int| 0 <= i < table.len() && #[trigger] table[i].contains(g);
    let s = f@.sequences()[i];
    f.lemma_sequence_lengths();
    assert(s.len() == f@.entries[i].sequence.len());
    lemma_starts_below_range(s, s.len() as int);
    let j = choose|j: int| 0 <= j < table[i].len() && table[i][j] == g;
    assert(start_hits(s)[j] + 3 <= s.len());
}

/// The main function of the trimming engine. Takes a Fasta object as input
/// and returns a Fasta object trimmed to what is determined to be the group
/// start and stop codons
pub fn trim_to_orf(inp_fasta: &Fasta, out_fasta: &str) -> (r: Result<Fasta, OrfTrimError>)
    ensures
        match r {
            Ok(f) => orf_trim(inp_fasta@, out_fasta@) == Ok::<FastaView, OrfTrimError>(f@),
            Err(e) => orf_trim(inp_fasta@, out_fasta@) == Err::<FastaView, OrfTrimError>(e),
        },
{
    let num_seqs = inp_fasta.num_entries();
    let starts = match find_starts(inp_fasta, num_seqs) {
        Ok(t) => t,
        Err(e) => return Err(e),
    };
    let group_start = match find_group_start(&starts) {
        Ok(g) => g,
        Err(e) => return Err(e),
    };
    proof {
        lemma_group_start_in_range(inp_fasta, group_start);
    }
    let first_stops = match find_first_stops(inp_fasta, group_start) {
        Ok(v) => v,
        Err(e) => return Err(e),
    };
    let group_stop = match mode_vec_usize(&first_stops) {
        Some(m) => m,
        None => return Err(OrfTrimError::TrimFailed),
    };
    perform_trimming(inp_fasta, group_start, group_stop, out_fasta)
}


// ---------------------------------------------------------------------------
// Lemmas on trimming, stop search and voting
// ---------------------------------------------------------------------------

/// Trimming an already trimmed alignment again, with the window now starting
/// at 0 and the stop moved by the same amount, changes nothing.
pub proof fn lemma_retrim_idempotent(f: FastaView, start: int, stop: int, name: Seq<char>)
    requires
        0 <= start <= stop,
    ensures
        trimmed(trimmed(f, start, stop, name), 0, stop - start, name) == trimmed(
            f,
            start,
            stop,
            name,
        ),
{
    let once = trimmed(f, start, stop, name);
    let twice = trimmed(once, 0, stop - start, name);
    assert forall|i: int| 0 <= i < f.entries.len() implies #[trigger] twice.entries[i]
        == once.entries[i] by {
        let w = once.entries[i].sequence;
        assert(window(w, 0, stop - start) =~= w);
    }
    assert(twice.entries =~= once.entries);
}

/// The window of a sequence longer than `start` holds
/// `min(length, stop + 3) - start` bytes; that of a shorter one is empty.
pub proof fn lemma_window_length(s: Seq<u8>, start: int, stop: int)
    requires
        0 <= start <= stop,
    ensures
        s.len() > start ==> window(s, start, stop).len() == (if s.len() < stop + 3 {
            s.len() as int
        } else {
            stop + 3
        }) - start,
        s.len() <= start ==> window(s, start, stop).len() == 0,
{
}

proof fn lemma_positions_below_range(s: Seq<u8>, g: int, n: int)
    requires
        0 <= g,
        n <= s.len() <= usize::MAX,
    ensures
        forall|q: int|
            0 <= q < positions_below(s, g, n).len() ==> g <= #[trigger] positions_below(s, g, n)[q]
                < n,
    decreases n - g,
{
    if n > g {
        lemma_positions_below_range(s, g, n - 1);
        let prev = positions_below(s, g, n - 1);
        assert forall|q: int| 0 <= q < positions_below(s, g, n).len() implies g
            <= #[trigger] positions_below(s, g, n)[q] < n by {
            if q < prev.len() {
                assert(positions_below(s, g, n)[q] == prev[q]);
            }
        }
    }
}

/// A first stop lies in its sequence, at or after the start.
proof fn lemma_first_stop_range(s: Seq<u8>, g: int)
    requires
        0 <= g,
        s.len() <= usize::MAX,
    ensures
        first_stop(s, g) matches Some(p) ==> g <= p < s.len(),
{
    if let Some(k) = stop_codon_index(s, g) {
        lemma_first_stop_from_bound(residues(s, g), 0);
        lemma_positions_below_range(s, g, s.len() as int);
    }
}

proof fn lemma_first_stop_from_bound(r: Seq<u8>, k: nat)
    ensures
        first_stop_from(r, k) matches Some(j) ==> 3 * j + 3 <= r.len(),
    decreases r.len() - 3 * k,
{
    if 3 * k + 3 <= r.len() && !is_stop_codon(r[3 * k as int], r[3 * k as int + 1], r[3 * k as int + 2]) {
        lemma_first_stop_from_bound(r, k + 1);
    }
}

/// Each entry of a stop list is the first stop of one of the sequences.
proof fn lemma_stop_list_source(seqs: Seq<Seq<u8>>, g: int, j: int)
    requires
        0 <= j < stop_list(seqs, g).len(),
    ensures
        exists|i: int|
            0 <= i < seqs.len() && first_stop(#[trigger] seqs[i], g) == Some(stop_list(seqs, g)[j]),
    decreases seqs.len(),
{
    let prev = stop_list(seqs.drop_last(), g);
    if j < prev.len() {
        lemma_stop_list_source(seqs.drop_last(), g, j);
        let i = choose|i: int|
            0 <= i < seqs.drop_last().len() && first_stop(#[trigger] seqs.drop_last()[i], g) == Some(
                prev[j],
            );
        assert(seqs[i] == seqs.drop_last()[i]);
        assert(stop_list(seqs, g)[j] == prev[j]);
    } else {
        assert(seqs[seqs.len() - 1] == seqs.last());
    }
}

/// A successful trim keeps every record, and at least one of them keeps a
/// non-empty window: the sequences that the start does not reach are cut to
/// nothing, and the run fails when no sequence reaches it.
pub proof fn lemma_trim_keeps_a_window(f: FastaView, name: Seq<char>)
    requires
        forall|i: int| 0 <= i < f.entries.len() ==> #[trigger] f.entries[i].sequence.len() <= usize::MAX,
        orf_trim(f, name) is Ok,
    ensures
        orf_trim(f, name) matches Ok(out) ==> out.entries.len() == f.entries.len() && exists|i: int|
            0 <= i < out.entries.len() && #[trigger] out.entries[i].sequence.len() > 0,
{
    let table = hit_table(f.sequences());
    let g = group_start_of(table, standard_weights()).unwrap();
    let stops = stop_list(f.sequences(), g as int);
    let m = mode_of(stops).unwrap();
    lemma_mode_exists(stops);
    let j = choose|j: int| 0 <= j < stops.len() && stops[j] == m;
    lemma_stop_list_source(f.sequences(), g as int, j);
    let i = choose|i: int|
        0 <= i < f.sequences().len() && first_stop(#[trigger] f.sequences()[i], g as int) == Some(
            stops[j],
        );
    let s = f.sequences()[i];
    assert(s == f.entries[i].sequence);
    lemma_first_stop_range(s, g as int);
    assert(g <= m < s.len());
    let out = trimmed(f, g as int, m as int, name);
    assert(orf_trim(f, name) == Ok::<FastaView, OrfTrimError>(out));
    assert(out.entries[i].sequence == window(s, g as int, m as int));
    assert(out.entries[i].sequence.len() > 0);
}

/// Shifts by one the offsets at or past `q`: where they land once a byte is
/// inserted at `q`.
pub open spec fn shift_from(ps: Seq<usize>, q: int) -> Seq<usize> {
    ps.map_values(|j: usize| if j >= q { (j + 1) as usize } else { j })
}

proof fn lemma_positions_after_insert(s: Seq<u8>, g: int, q: int, n: int)
    requires
        0 <= g <= q <= s.len(),
        s.len() < usize::MAX,
        0 <= n <= s.len(),
    ensures
        positions_below(s.insert(q, GAP), g, if n <= q { n } else { n + 1 }) == shift_from(
            positions_below(s, g, n),
            q,
        ),
    decreases n,
{
    let s2 = s.insert(q, GAP);
    if n <= g {
        assert(positions_below(s, g, n) =~= Seq::<usize>::empty());
        assert(shift_from(positions_below(s, g, n), q) =~= Seq::<usize>::empty());
    } else if n <= q {
        lemma_positions_after_insert(s, g, q, n - 1);
        lemma_positions_below_range(s, g, n - 1);
        assert(s2[n - 1] == s[n - 1]);
        assert(shift_from(positions_below(s, g, n), q) =~= positions_below(s2, g, n));
    } else if n == q + 1 {
        lemma_positions_after_insert(s, g, q, q);
        lemma_positions_below_range(s, g, q);
        assert(s2[q] == GAP);
        assert(s2[q + 1] == s[q]);
        assert(positions_below(s2, g, q + 1) == positions_below(s2, g, q));
        assert(shift_from(positions_below(s, g, n), q) =~= positions_below(s2, g, n + 1));
    } else {
        lemma_positions_after_insert(s, g, q, n - 1);
        lemma_positions_below_range(s, g, n - 1);
        assert(s2[n] == s[n - 1]);
        assert(shift_from(positions_below(s, g, n), q) =~= positions_below(s2, g, n + 1));
    }
}

/// The first stop is a function of the non-gap residues from the start on:
/// two sequences with the same residues have their first stop at the same
/// codon, whatever gaps lie between.
pub proof fn lemma_stop_depends_on_residues(s1: Seq<u8>, g1: int, s2: Seq<u8>, g2: int)
    requires
        residues(s1, g1) == residues(s2, g2),
    ensures
        stop_codon_index(s1, g1) == stop_codon_index(s2, g2),
{
}

/// Inserting a gap at or after the start leaves the residue stream as it
/// was, so the same codon is found as the first stop; only its offset moves
/// by one when it lies past the gap.
pub proof fn lemma_gap_insertion_keeps_stop(s: Seq<u8>, g: int, q: int)
    requires
        0 <= g <= q <= s.len(),
        s.len() < usize::MAX,
    ensures
        residues(s.insert(q, GAP), g) == residues(s, g),
        stop_codon_index(s.insert(q, GAP), g) == stop_codon_index(s, g),
        first_stop(s.insert(q, GAP), g) == match first_stop(s, g) {
            Some(p) => Some(if p >= q { (p + 1) as usize } else { p }),
            None => None,
        },
{
    let s2 = s.insert(q, GAP);
    lemma_positions_after_insert(s, g, q, s.len() as int);
    lemma_positions_below_range(s, g, s.len() as int);
    let ps = residue_positions(s, g);
    assert(residue_positions(s2, g) == shift_from(ps, q));
    assert(residues(s2, g) =~= residues(s, g)) by {
        assert forall|i: int| 0 <= i < ps.len() implies #[trigger] residues(s2, g)[i] == residues(
            s,
            g,
        )[i] by {
            let j = ps[i] as int;
            if j >= q {
                assert(s2[j + 1] == s[j]);
            } else {
                assert(s2[j] == s[j]);
            }
        }
    }
    if let Some(k) = stop_codon_index(s, g) {
        lemma_first_stop_from_bound(residues(s, g), 0);
    }
}

proof fn lemma_prefix_score_grows(hits: Seq<usize>, w: RankWeights, p: usize, n: int)
    requires
        1 <= n,
        hits.len() > 0,
        hits[0] == p,
    ensures
        prefix_score(hits, w, p, n) >= w.first,
    decreases n,
{
    if n > 1 {
        lemma_prefix_score_grows(hits, w, p, n - 1);
    } else {
        assert(prefix_score(hits, w, p, 0) == 0);
    }
}

/// Adding a sequence whose first start hit is at `p` raises the vote for `p`
/// by at least the weight of a first hit, and never lowers it.
pub proof fn lemma_vote_monotone(table: Seq<Seq<usize>>, w: RankWeights, hits: Seq<usize>, p: usize)
    requires
        hits.len() > 0,
        hits[0] == p,
    ensures
        table_score(table.push(hits), w, p) >= table_score(table, w, p) + w.first,
        table_score(table.push(hits), w, p) >= table_score(table, w, p),
{
    assert(table.push(hits).drop_last() =~= table);
    lemma_prefix_score_grows(hits, w, p, hits.len() as int);
}


proof fn lemma_prefix_score_not_first(hits: Seq<usize>, w: RankWeights, q: usize, n: int)
    requires
        hits.len() > 0,
        hits[0] != q,
        n <= hits.len(),
    ensures
        prefix_score(hits, w, q, n) <= w.second + w.third + w.fourth,
        n <= 1 ==> prefix_score(hits, w, q, n) == 0,
        n <= 2 ==> prefix_score(hits, w, q, n) <= w.second,
        n <= 3 ==> prefix_score(hits, w, q, n) <= w.second + w.third,
    decreases n,
{
    if n > 0 {
        lemma_prefix_score_not_first(hits, w, q, n - 1);
    }
}

/// Where a first hit outweighs the second, third and fourth together (as
/// with the standard weights), adding a sequence whose first hit is the
/// consensus start keeps it the consensus start.
pub proof fn lemma_consensus_start_kept(
    table: Seq<Seq<usize>>,
    w: RankWeights,
    hits: Seq<usize>,
    p: usize,
)
    requires
        w.first > w.second + w.third + w.fourth,
        is_group_start(table, w, p),
        hits.len() > 0,
        hits[0] == p,
    ensures
        is_group_start(table.push(hits), w, p),
{
    let t2 = table.push(hits);
    assert(t2.drop_last() =~= table);
    lemma_vote_monotone(table, w, hits, p);
    assert forall|q: usize| q != p implies #[trigger] table_score(t2, w, q) < table_score(t2, w, p) by {
        lemma_prefix_score_not_first(hits, w, q, hits.len() as int);
        assert(table_score(table, w, q) <= table_score(table, w, p));
    }
}

} // verus!
