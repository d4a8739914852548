use vstd::prelude::*;
use vstd::string::StringSliceAdditionalSpecFns;

verus! {

/// The run's arguments: key column names, both input files with their
/// delimiters, and the report file.
pub struct Cli {
    pub key_cols: Vec<String>,
    pub left_file: String,
    pub right_file: String,
    pub left_delim: u8,
    pub right_delim: u8,
    pub out_file: String,
}

/// Splits a delimiter argument: exactly one byte is accepted.
pub fn parse_delim(x: &str) -> (r: Result<u8, &'static str>)
    ensures
        r is Ok <==> x.spec_bytes().len() == 1,
        r is Ok ==> r->Ok_0 == x.spec_bytes()[0],
        r is Err ==> r->Err_0@ == "delimiter can only be a single ASCII character"@,
{
    if x.len() == 1 {
        Ok(x.as_bytes()[0])
    } else {
        let m = "delimiter can only be a single ASCII character";
        proof {
            reveal_strlit("delimiter can only be a single ASCII character");
        }
        Err(m)
    }
}

} // verus!
