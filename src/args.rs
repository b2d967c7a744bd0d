//! The run's parameters and the checks on each of them.

use vstd::prelude::*;
use vstd::string::StringSliceAdditionalSpecFns;
use vstd::utf8::*;

verus! {

/// The module that trims an alignment to its consensus ORF.
pub const TRIM_TO_ORF: &'static str = "TrimToORF";

/// A module name that is accepted and does nothing yet.
pub const PLACEHOLDER: &'static str = "placeholder";

/// The output file used when none is given.
pub const DEFAULT_OUT_FASTA: &'static str = "./output.fasta";

/// What a `Config` holds.
pub struct ConfigView {
    pub inp_fasta: Seq<char>,
    pub out_fasta: Seq<char>,
    pub module: Seq<char>,
}

/// Contains the parameters set by all user arguments
#[derive(Debug)]
pub struct Config {
    inp_fasta: String,
    out_fasta: String,
    module: String,
}

impl View for Config {
    type V = ConfigView;

    closed spec fn view(&self) -> ConfigView {
        ConfigView { inp_fasta: self.inp_fasta@, out_fasta: self.out_fasta@, module: self.module@ }
    }
}

impl Config {
    pub fn new(inp_fasta: String, out_fasta: String, module: String) -> (r: Config)
        ensures
            r@ == (ConfigView { inp_fasta: inp_fasta@, out_fasta: out_fasta@, module: module@ }),
    {
        Config { inp_fasta, out_fasta, module }
    }

    /// Returns a reference to the chosen module(s)
    pub fn module(&self) -> (r: &str)
        ensures
            r@ == self@.module,
    {
        self.module.as_str()
    }

    /// Returns a reference the name of the input fasta file
    pub fn inp_fasta(&self) -> (r: &str)
        ensures
            r@ == self@.inp_fasta,
    {
        self.inp_fasta.as_str()
    }

    /// Returns a reference to the name of the output fasta file
    pub fn out_fasta(&self) -> (r: &str)
        ensures
            r@ == self@.out_fasta,
    {
        self.out_fasta.as_str()
    }
}

/// The outcome of a check, as views: the accepted value or the message.
pub open spec fn outcome_view(r: Result<String, String>) -> Result<Seq<char>, Seq<char>> {
    match r {
        Ok(s) => Ok(s@),
        Err(m) => Err(m@),
    }
}

/// An input file name is accepted when it is not empty and names a file
/// that exists.
pub open spec fn filename_check(name: Seq<char>, exists: bool) -> Result<Seq<char>, Seq<char>> {
    if name.len() == 0 {
        Err("Filename cannot be empty"@)
    } else if !exists {
        Err("Filename does not exist"@)
    } else {
        Ok(name)
    }
}

/// A module name is accepted when it is one of the known modules.
pub open spec fn module_check(module: Seq<char>) -> Result<Seq<char>, Seq<char>> {
    if module.len() == 0 {
        Err("Module name cannot be empty"@)
    } else if module != TRIM_TO_ORF@ && module != PLACEHOLDER@ {
        Err("'"@ + module + "' not a known module"@)
    } else {
        Ok(module)
    }
}

/// An output file name is accepted when it is not empty.
pub open spec fn out_fasta_check(name: Seq<char>) -> Result<Seq<char>, Seq<char>> {
    if name.len() == 0 {
        Err("Filename cannot be empty"@)
    } else {
        Ok(name)
    }
}

/// Compares two texts.
fn same_text(a: &str, b: &str) -> (r: bool)
    ensures
        r == (a@ == b@),
{
    let x = a.as_bytes();
    let y = b.as_bytes();
    proof {
        encode_utf8_decode_utf8(a@);
        encode_utf8_decode_utf8(b@);
    }
    if x.len() != y.len() {
        assert(a.spec_bytes() != b.spec_bytes());
        return false;
    }
    let mut i: usize = 0;
    while i < x.len()
        invariant
            x@ == a.spec_bytes(),
            y@ == b.spec_bytes(),
            x@.len() == y@.len(),
            i <= x@.len(),
            forall|j: int| 0 <= j < i ==> x@[j] == y@[j],
        decreases x@.len() - i,
    {
        if x[i] != y[i] {
            assert(x@ != y@);
            assert(a.spec_bytes() != b.spec_bytes());
            return false;
        }
        i = i + 1;
    }
    assert(x@ =~= y@);
    true
}

/// Confirms that a filename was provided and, as `exists` tells, names a
/// file that exists
pub fn validate_filename(name: &str, exists: bool) -> (r: Result<String, String>)
    ensures
        outcome_view(r) == filename_check(name@, exists),
{
    if name.is_empty() {
        Err("Filename cannot be empty".to_owned())
    } else if !exists {
        Err("Filename does not exist".to_owned())
    } else {
        Ok(name.to_owned())
    }
}

/// Confirms that a module name was provided and is recognized
pub fn validate_modules(module: &str) -> (r: Result<String, String>)
    ensures
        outcome_view(r) == module_check(module@),
{
    if module.is_empty() {
        Err("Module name cannot be empty".to_owned())
    } else if !same_text(module, TRIM_TO_ORF) && !same_text(module, PLACEHOLDER) {
        let quoted = "'".to_owned().concat(module);
        Err(quoted.concat("' not a known module"))
    } else {
        Ok(module.to_owned())
    }
}

/// Confirms that an output filename was provided
pub fn validate_out_fasta(name: &str) -> (r: Result<String, String>)
    ensures
        outcome_view(r) == out_fasta_check(name@),
{
    if name.is_empty() {
        Err("Filename cannot be empty".to_owned())
    } else {
        Ok(name.to_owned())
    }
}

} // verus!
