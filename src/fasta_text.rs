//! The FASTA text format: reading records out of text and writing them back.
//!
//! A record starts at a line that begins with `>`; the rest of that line is
//! its defline. The lines up to the next such line are joined, byte for byte,
//! into its sequence. Lines end at `\n`, and a `\r` just before a `\n` is not
//! part of the line. A defline that no sequence byte follows gives no record.

use crate::fasta::{EntryView, Fasta, FastaEntry, FastaView};
use vstd::prelude::*;
use vstd::string::StringSliceAdditionalSpecFns;
use vstd::utf8::*;

verus! {

pub const NEWLINE: u8 = 10;

pub const CARRIAGE_RETURN: u8 = 13;

pub const DEFLINE_MARKER: u8 = 62;

/// Where the reader stands: the defline and sequence bytes of the record
/// being read, and the records finished so far, as (defline, sequence) pairs.
pub struct ParseState {
    pub defline: Seq<u8>,
    pub seq: Seq<u8>,
    pub records: Seq<(Seq<u8>, Seq<u8>)>,
}

pub open spec fn initial_state() -> ParseState {
    ParseState { defline: Seq::empty(), seq: Seq::empty(), records: Seq::empty() }
}

/// Closes the record being read, if it has sequence bytes.
pub open spec fn flush(st: ParseState) -> ParseState {
    if st.seq.len() > 0 {
        ParseState {
            defline: st.defline,
            seq: Seq::empty(),
            records: st.records.push((st.defline, st.seq)),
        }
    } else {
        st
    }
}

/// A line without the `\r` that ended it before its `\n`.
pub open spec fn strip_cr(line: Seq<u8>) -> Seq<u8> {
    if line.len() > 0 && line.last() == CARRIAGE_RETURN {
        line.drop_last()
    } else {
        line
    }
}

/// Takes in one line: a defline starts a new record, any other line adds to
/// the sequence.
pub open spec fn read_line(st: ParseState, line: Seq<u8>) -> ParseState {
    if line.len() > 0 && line[0] == DEFLINE_MARKER {
        let f = flush(st);
        ParseState { defline: line.subrange(1, line.len() as int), seq: f.seq, records: f.records }
    } else {
        ParseState { defline: st.defline, seq: st.seq + line, records: st.records }
    }
}

/// Reads `b` from offset `p` on, the current line having started at `ls`.
pub open spec fn scan(b: Seq<u8>, p: int, st: ParseState, ls: int) -> ParseState
    decreases b.len() - p,
{
    if p >= b.len() {
        if ls < b.len() {
            read_line(st, b.subrange(ls, b.len() as int))
        } else {
            st
        }
    } else if b[p] == NEWLINE {
        scan(b, p + 1, read_line(st, strip_cr(b.subrange(ls, p))), p + 1)
    } else {
        scan(b, p + 1, st, ls)
    }
}

/// The (defline, sequence) pairs of the records in the text `b`.
pub open spec fn fasta_records(b: Seq<u8>) -> Seq<(Seq<u8>, Seq<u8>)> {
    flush(scan(b, 0, initial_state(), 0)).records
}

/// The records as a collection holds them, numbered in order.
pub open spec fn record_entries(records: Seq<(Seq<u8>, Seq<u8>)>) -> Seq<EntryView> {
    Seq::new(
        records.len(),
        |i: int|
            EntryView {
                defline: decode_utf8(records[i].0),
                sequence: records[i].1,
                entry_num: i as nat,
            },
    )
}

/// In valid UTF-8, the byte after a one-byte character that starts at a
/// character boundary starts a character too.
proof fn lemma_boundary_after_ascii(b: Seq<u8>, i: int)
    requires
        valid_utf8(b),
        0 <= i < b.len(),
        is_char_boundary(b, i),
        is_leading_byte_width_1(b[i]),
    ensures
        is_char_boundary(b, i + 1),
    decreases b.len(),
{
    let k = length_of_first_scalar(b);
    let t = pop_first_scalar(b);
    assert(1 <= k <= b.len());
    if i == 0 {
        assert(k == 1);
        assert(is_char_boundary(t, 0));
    } else {
        assert(valid_utf8(t));
        assert(i - k >= 0);
        assert(t[i - k] == b[i]);
        lemma_boundary_after_ascii(t, i - k);
    }
}

/// Appends `b[from..to]` to `v`.
fn append_range(v: &mut Vec<u8>, b: &[u8], from: usize, to: usize)
    requires
        from <= to <= b@.len(),
    ensures
        final(v)@ == old(v)@ + b@.subrange(from as int, to as int),
{
    let mut i: usize = from;
    while i < to
        invariant
            from <= i <= to,
            to <= b@.len(),
            v@ == old(v)@ + b@.subrange(from as int, i as int),
        decreases to - i,
    {
        v.push(b[i]);
        i = i + 1;
        assert(v@ =~= old(v)@ + b@.subrange(from as int, i as int));
    }
}

/// The text of `contents` at bytes `[from, to)`, where `from - 1` holds a
/// defline marker and `to` is the end of the text or holds a line ending.
fn defline_text(contents: &str, from: usize, to: usize) -> (r: String)
    requires
        1 <= from <= to <= contents.spec_bytes().len(),
        contents.spec_bytes()[from - 1] == DEFLINE_MARKER,
        to == contents.spec_bytes().len() || contents.spec_bytes()[to as int] == NEWLINE
            || contents.spec_bytes()[to as int] == CARRIAGE_RETURN,
    ensures
        r@ == decode_utf8(contents.spec_bytes().subrange(from as int, to as int)),
{
    let ghost b = contents.spec_bytes();
    proof {
        encode_utf8_valid_utf8(contents@);
        is_char_boundary_iff_not_is_continuation_byte(b, from - 1);
        lemma_boundary_after_ascii(b, from - 1);
    }
    let (_, rest) = contents.split_at(from);
    let ghost rb = rest.spec_bytes();
    proof {
        valid_utf8_split(b, from as int);
        assert(rb =~= b.subrange(from as int, b.len() as int));
        if to == b.len() {
            is_char_boundary_start_end_of_seq(rb);
        } else {
            assert(rb[to - from] == b[to as int]);
            is_char_boundary_iff_not_is_continuation_byte(rb, to - from);
        }
    }
    let (d, _) = rest.split_at(to - from);
    proof {
        assert(d.spec_bytes() =~= b.subrange(from as int, to as int));
        encode_utf8_decode_utf8(d@);
    }
    d.to_owned()
}


/// The reader's working state: the collection so far and the record being
/// read, with the spec state that they stand for.
struct Reader {
    fasta: Fasta,
    defline: String,
    seq: Vec<u8>,
    count: usize,
    st: Ghost<ParseState>,
}

impl Reader {
    spec fn inv(&self) -> bool {
        &&& self.defline@ == decode_utf8(self.st@.defline)
        &&& self.seq@ == self.st@.seq
        &&& self.count == self.st@.records.len()
        &&& self.fasta@.entries == record_entries(self.st@.records)
    }

    /// How many records have been or are being read.
    spec fn started(&self) -> int {
        self.st@.records.len() + if self.st@.seq.len() > 0 {
            1int
        } else {
            0
        }
    }

    fn flush_record(&mut self)
        requires
            old(self).inv(),
            old(self).started() <= usize::MAX,
        ensures
            final(self).inv(),
            final(self).st@ == flush(old(self).st@),
            final(self).fasta@.filename == old(self).fasta@.filename,
            final(self).started() == old(self).started(),
    {
        if self.seq.len() > 0 {
            let mut seq: Vec<u8> = Vec::new();
            std::mem::swap(&mut seq, &mut self.seq);
            let entry = FastaEntry::new(self.defline.clone(), seq, self.count);
            self.fasta.add(entry);
            self.count = self.count + 1;
            self.st = Ghost(flush(self.st@));
            assert(self.fasta@.entries =~= record_entries(self.st@.records));
        }
    }

    /// Takes in the line at bytes `[from, to)` of `contents`.
    fn take_line(&mut self, contents: &str, from: usize, to: usize)
        requires
            old(self).inv(),
            from <= to <= contents.spec_bytes().len(),
            to == contents.spec_bytes().len() || contents.spec_bytes()[to as int] == NEWLINE
                || contents.spec_bytes()[to as int] == CARRIAGE_RETURN,
            old(self).started() <= from,
        ensures
            final(self).inv(),
            final(self).st@ == read_line(
                old(self).st@,
                contents.spec_bytes().subrange(from as int, to as int),
            ),
            final(self).fasta@.filename == old(self).fasta@.filename,
            final(self).started() <= to,
    {
        let b = contents.as_bytes();
        let ghost line = b@.subrange(from as int, to as int);
        if from < to && b[from] == DEFLINE_MARKER {
            self.flush_record();
            self.defline = defline_text(contents, from + 1, to);
            let ghost f = self.st@;
            self.st = Ghost(
                ParseState {
                    defline: line.subrange(1, line.len() as int),
                    seq: f.seq,
                    records: f.records,
                },
            );
            assert(line.subrange(1, line.len() as int) =~= b@.subrange(from + 1, to as int));
        } else {
            append_range(&mut self.seq, b, from, to);
            let ghost st = self.st@;
            self.st = Ghost(
                ParseState { defline: st.defline, seq: st.seq + line, records: st.records },
            );
        }
    }
}

/// Reads FASTA text into a collection named `filename`, numbering the
/// records from 0 in the order they come.
pub fn parse_fasta(filename: &str, contents: &str) -> (r: Fasta)
    ensures
        r@ == (FastaView {
            filename: filename@,
            entries: record_entries(fasta_records(contents.spec_bytes())),
        }),
        r@.wf(),
{
    let b = contents.as_bytes();
    let ghost bs = b@;
    let len = b.len();
    let mut rd = Reader {
        fasta: Fasta::new(filename),
        defline: String::new(),
        seq: Vec::new(),
        count: 0,
        st: Ghost(initial_state()),
    };
    assert(rd.fasta@.entries =~= record_entries(rd.st@.records));
    assert(decode_utf8(Seq::<u8>::empty()) =~= Seq::<char>::empty());
    let mut ls: usize = 0;
    let mut p: usize = 0;
    while p < len
        invariant
            bs == contents.spec_bytes(),
            b@ == bs,
            len == bs.len(),
            ls <= p <= len,
            scan(bs, 0, initial_state(), 0) == scan(bs, p as int, rd.st@, ls as int),
            rd.inv(),
            rd.started() <= ls,
            rd.fasta@.filename == filename@,
        decreases len - p,
    {
        if b[p] == NEWLINE {
            let ce = if p > ls && b[p - 1] == CARRIAGE_RETURN {
                p - 1
            } else {
                p
            };
            let ghost line = bs.subrange(ls as int, p as int);
            assert(b@.subrange(ls as int, ce as int) == strip_cr(line)) by {
                if p > ls && b@[p - 1] == CARRIAGE_RETURN {
                    assert(line.drop_last() =~= bs.subrange(ls as int, ce as int));
                }
            }
            rd.take_line(contents, ls, ce);
            ls = p + 1;
        }
        p = p + 1;
    }
    if ls < len {
        rd.take_line(contents, ls, len);
    }
    rd.flush_record();
    proof {
        assert(rd.fasta@.entries == record_entries(fasta_records(bs)));
    }
    rd.fasta
}


/// The text of one record: a `>` line with its defline, then its sequence
/// on one line.
pub open spec fn entry_text(e: EntryView) -> Seq<u8> {
    seq![DEFLINE_MARKER] + encode_utf8(e.defline) + seq![NEWLINE] + e.sequence + seq![NEWLINE]
}

/// The text of records, in order.
pub open spec fn fasta_text(entries: Seq<EntryView>) -> Seq<u8>
    decreases entries.len(),
{
    if entries.len() == 0 {
        Seq::empty()
    } else {
        fasta_text(entries.drop_last()) + entry_text(entries.last())
    }
}

/// Writes a Fasta object as FASTA text, one record after another in order.
pub fn write_fasta(fasta_obj: &Fasta) -> (r: Vec<u8>)
    ensures
        r@ == fasta_text(fasta_obj@.entries),
{
    let n = fasta_obj.num_entries();
    let mut out: Vec<u8> = Vec::new();
    let mut e: usize = 0;
    while e < n
        invariant
            n == fasta_obj@.entries.len(),
            e <= n,
            out@ == fasta_text(fasta_obj@.entries.take(e as int)),
        decreases n - e,
    {
        let entry = fasta_obj.indexed_entry(e);
        let ghost before = out@;
        let defline = entry.defline();
        let db = defline.as_str().as_bytes();
        let sq = entry.sequence();
        out.push(DEFLINE_MARKER);
        append_range(&mut out, db, 0, db.len());
        out.push(NEWLINE);
        append_range(&mut out, sq.as_slice(), 0, sq.len());
        out.push(NEWLINE);
        proof {
            let es = fasta_obj@.entries;
            assert(es.take(e + 1).drop_last() =~= es.take(e as int));
            assert(db@.subrange(0, db@.len() as int) =~= encode_utf8(es[e as int].defline));
            assert(sq@.subrange(0, sq@.len() as int) =~= es[e as int].sequence);
            assert(out@ =~= before + entry_text(es[e as int]));
        }
        e = e + 1;
    }
    assert(fasta_obj@.entries.take(n as int) =~= fasta_obj@.entries);
    out
}

} // verus!
