use vstd::prelude::*;

verus! {

/// The value `str::parse::<usize>` reads from a text, if any.
pub uninterp spec fn parsed_usize(s: Seq<char>) -> Option<usize>;

/// Relies on `str::parse::<usize>`: the outcome depends on the text alone.
#[verifier::external_body]
fn parse_usize(s: &str) -> (r: Option<usize>)
    ensures
        r == parsed_usize(s@),
{
    s.parse::<usize>().ok()
}

/// Side length used when none is given.
pub const DEFAULT_SIZE: usize = 10;

/// Smallest side length accepted from the command line.
pub const MIN_SIZE: usize = 3;

/// Why a size argument was refused.
#[derive(Clone, Copy, Debug, PartialEq, Eq, Structural)]
pub enum ArgError {
    NotANumber,
    TooSmall,
}

/// The side length that a parsed argument stands for: at least `MIN_SIZE`.
pub fn check_dimension(parsed: Option<usize>) -> (r: Result<usize, ArgError>)
    ensures
        r == (match parsed {
            None => Err(ArgError::NotANumber),
            Some(v) => if v < MIN_SIZE { Err(ArgError::TooSmall) } else { Ok(v) },
        }),
{
    match parsed {
        None => Err(ArgError::NotANumber),
        Some(v) => if v < MIN_SIZE { Err(ArgError::TooSmall) } else { Ok(v) },
    }
}

/// Reads one size argument: `DEFAULT_SIZE` when absent, else a decimal
/// number no smaller than `MIN_SIZE`.
pub fn parse(arg: Option<&String>) -> (r: Result<usize, ArgError>)
    ensures
        arg is None ==> r == Ok::<usize, ArgError>(DEFAULT_SIZE),
        arg matches Some(s) ==> r == (match parsed_usize(s@) {
            None => Err(ArgError::NotANumber),
            Some(v) => if v < MIN_SIZE { Err(ArgError::TooSmall) } else { Ok(v) },
        }),
{
    match arg {
        None => Ok(DEFAULT_SIZE),
        Some(s) => check_dimension(parse_usize(s.as_str())),
    }
}

} // verus!
