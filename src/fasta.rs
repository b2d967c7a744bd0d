//! The sequence store: FASTA records and the collection that holds them.

use vstd::prelude::*;

verus! {

/// What a record holds: its defline, its bytes and its ordinal.
pub struct EntryView {
    pub defline: Seq<char>,
    pub sequence: Seq<u8>,
    pub entry_num: nat,
}

/// What a collection holds: its name and its records in order.
pub struct FastaView {
    pub filename: Seq<char>,
    pub entries: Seq<EntryView>,
}

impl FastaView {
    /// Each record's ordinal is its position in the collection.
    pub open spec fn wf(self) -> bool {
        forall|i: int| 0 <= i < self.entries.len() ==> #[trigger] self.entries[i].entry_num == i
    }

    /// The byte sequences of the records, in order.
    pub open spec fn sequences(self) -> Seq<Seq<u8>> {
        self.entries.map_values(|e: EntryView| e.sequence)
    }
}

/// Represents a defline-sequence pair from a fasta file
#[derive(Clone, Debug)]
pub struct FastaEntry {
    defline: String,
    sequence: Vec<u8>,
    entry_number: usize,
}

impl View for FastaEntry {
    type V = EntryView;

    closed spec fn view(&self) -> EntryView {
        EntryView {
            defline: self.defline@,
            sequence: self.sequence@,
            entry_num: self.entry_number as nat,
        }
    }
}

impl FastaEntry {
    /// Constructor for FastaEntry
    pub fn new(defline: String, sequence: Vec<u8>, entry_number: usize) -> (r: FastaEntry)
        ensures
            r@ == (EntryView {
                defline: defline@,
                sequence: sequence@,
                entry_num: entry_number as nat,
            }),
    {
        FastaEntry { defline, sequence, entry_number }
    }

    /// Returns the defline of this FastaEntry
    pub fn defline(&self) -> (r: String)
        ensures
            r@ == self@.defline,
    {
        self.defline.clone()
    }

    /// Returns the position of this FastaEntry in the Fasta's data vector. Positions start at 0.
    pub fn entry_num(&self) -> (r: usize)
        ensures
            r as nat == self@.entry_num,
    {
        self.entry_number
    }

    /// Returns the sequence associated with this FastaEntry
    pub fn sequence(&self) -> (r: &Vec<u8>)
        ensures
            r@ == self@.sequence,
    {
        &self.sequence
    }
}

/// Represents a fasta file. Contains a filename and a vector of FastaEntrys
#[derive(Debug)]
pub struct Fasta {
    filename: String,
    data: Vec<FastaEntry>,
}

impl View for Fasta {
    type V = FastaView;

    closed spec fn view(&self) -> FastaView {
        FastaView { filename: self.filename@, entries: self.data@.map_values(|e: FastaEntry| e@) }
    }
}

impl Fasta {
    /// Constructor for Fasta
    pub fn new(filename: &str) -> (r: Fasta)
        ensures
            r@ == (FastaView { filename: filename@, entries: Seq::empty() }),
    {
        let r = Fasta { filename: filename.to_string(), data: Vec::new() };
        assert(r@.entries =~= Seq::empty());
        r
    }

    /// Returns the filename of the Fasta
    pub fn filename(&self) -> (r: &str)
        ensures
            r@ == self@.filename,
    {
        self.filename.as_str()
    }

    /// Add a FastaEntry to this Fasta
    pub fn add(&mut self, new_entry: FastaEntry)
        ensures
            final(self)@ == (FastaView {
                filename: old(self)@.filename,
                entries: old(self)@.entries.push(new_entry@),
            }),
    {
        self.data.push(new_entry);
        assert(self@.entries =~= old(self)@.entries.push(new_entry@));
    }

    /// Returns the number of FastaEntrys in this Fasta
    pub fn num_entries(&self) -> (r: usize)
        ensures
            r == self@.entries.len(),
    {
        self.data.len()
    }

    /// Every record's sequence is held in memory, so its length fits in usize.
    pub proof fn lemma_sequence_lengths(&self)
        ensures
            forall|i: int|
                0 <= i < self@.entries.len() ==> #[trigger] self@.entries[i].sequence.len()
                    <= usize::MAX,
    {
        assert forall|i: int| 0 <= i < self@.entries.len() implies #[trigger] self@.entries[
            i
        ].sequence.len() <= usize::MAX by {
            assert(self@.entries[i] == self.data@[i]@);
            assert(self.data@[i].sequence@.len() == self.data@[i].sequence.len());
        }
    }

    /// Returns a specific FastaEntry using its position in the data vector. Position starts with 0.
    pub fn indexed_entry(&self, num_entry: usize) -> (r: &FastaEntry)
        requires
            num_entry < self@.entries.len(),
        ensures
            r@ == self@.entries[num_entry as int],
    {
        &self.data[num_entry]
    }
}


/// The alignment gap character, `-`.
pub const GAP: u8 = 45;

/// `s` with its gap characters left out.
pub open spec fn without_gaps(s: Seq<u8>) -> Seq<u8>
    decreases s.len(),
{
    if s.len() == 0 {
        Seq::empty()
    } else if s.last() == GAP {
        without_gaps(s.drop_last())
    } else {
        without_gaps(s.drop_last()).push(s.last())
    }
}

/// Returns the bytes with the gap characters removed, in order.
pub fn remove_gaps(the_vec: &[u8]) -> (r: Vec<u8>)
    ensures
        r@ == without_gaps(the_vec@),
{
    let mut out: Vec<u8> = Vec::new();
    let mut i: usize = 0;
    while i < the_vec.len()
        invariant
            i <= the_vec@.len(),
            out@ == without_gaps(the_vec@.take(i as int)),
        decreases the_vec@.len() - i,
    {
        assert(the_vec@.take(i + 1).drop_last() =~= the_vec@.take(i as int));
        if the_vec[i] != GAP {
            out.push(the_vec[i]);
        }
        i = i + 1;
    }
    assert(the_vec@.take(i as int) =~= the_vec@);
    out
}

} // verus!
