//! Run configuration: grid dimensions, animation delay, and the search
//! algorithm, together with the validation the command-line boundary applies
//! before the core is invoked.

use vstd::prelude::*;
use vstd::string::StringSliceAdditionalSpecFns;

verus! {


/// ASCII codes used by the validators.
pub const B_PLUS: u8 = 43;

pub const B_ZERO: u8 = 48;

pub const B_NINE: u8 = 57;

pub const B_UPPER_B: u8 = 66;

pub const B_UPPER_D: u8 = 68;

pub const B_UPPER_F: u8 = 70;

pub const B_UPPER_S: u8 = 83;

pub const B_LOWER_A: u8 = 97;

pub const B_LOWER_Z: u8 = 122;

/// Error for an algorithm name that is neither `DFS` nor `BFS`.
#[derive(Debug, Clone, PartialEq, Eq, Structural)]
pub struct ParseAlgoError {}

impl ParseAlgoError {
    /// The description a caller may print for this error.
    pub fn message(&self) -> (r: &'static str)
        ensures
            r@ == "provided string was not `DFS` or `BFS`"@,
    {
        "provided string was not `DFS` or `BFS`"
    }
}

/// The search algorithms a caller can name. Only breadth-first search is
/// implemented; depth-first search is a recognized name reserved for a
/// future variant.
#[derive(Copy, Clone, Debug, Eq, PartialEq, Structural)]
pub enum SearchAlgo {
    DFS,
    BFS,
}

impl SearchAlgo {
    /// Parse an algorithm name: exactly the string `DFS` or `BFS`.
    pub fn from_str(s: &str) -> (r: Result<SearchAlgo, ParseAlgoError>)
        ensures
            r == Ok::<SearchAlgo, ParseAlgoError>(SearchAlgo::DFS) <==> s.spec_bytes() =~= seq![
                B_UPPER_D,
                B_UPPER_F,
                B_UPPER_S,
            ],
            r == Ok::<SearchAlgo, ParseAlgoError>(SearchAlgo::BFS) <==> s.spec_bytes() =~= seq![
                B_UPPER_B,
                B_UPPER_F,
                B_UPPER_S,
            ],
            r is Err <==> !(s.spec_bytes() =~= seq![B_UPPER_D, B_UPPER_F, B_UPPER_S]) && !(s.spec_bytes()
                =~= seq![B_UPPER_B, B_UPPER_F, B_UPPER_S]),
    {
        let b: &[u8] = s.as_bytes();
        if b.len() == 3 && b[0] == B_UPPER_D && b[1] == B_UPPER_F && b[2] == B_UPPER_S {
            Ok(SearchAlgo::DFS)
        } else if b.len() == 3 && b[0] == B_UPPER_B && b[1] == B_UPPER_F && b[2] == B_UPPER_S {
            Ok(SearchAlgo::BFS)
        } else {
            Err(ParseAlgoError {  })
        }
    }
}

/// What a run needs: the grid dimensions, the algorithm, and the delay in
/// milliseconds between animation steps.
#[derive(Copy, Clone, Debug)]
pub struct Config {
    pub n_rows: usize,
    pub n_cols: usize,
    pub algo: SearchAlgo,
    pub step_delay: usize,
}

impl Config {
    pub fn new(n_rows: usize, n_cols: usize, algo: SearchAlgo, step_delay: usize) -> (c: Config)
        ensures
            c.n_rows == n_rows,
            c.n_cols == n_cols,
            c.algo == algo,
            c.step_delay == step_delay,
    {
        Config { n_rows, n_cols, algo, step_delay }
    }
}

impl Default for Config {
    /// An 8 by 15 grid, breadth-first search, 80 ms between steps.
    fn default() -> (c: Config)
        ensures
            c.n_rows == 8,
            c.n_cols == 15,
            c.algo == SearchAlgo::BFS,
            c.step_delay == 80,
    {
        Config { n_rows: 8, n_cols: 15, algo: SearchAlgo::BFS, step_delay: 80 }
    }
}

/// `b` is an ASCII decimal digit.
pub open spec fn is_ascii_digit(b: u8) -> bool {
    B_ZERO <= b <= B_NINE
}

/// The bytes with a single leading plus sign, if any, removed.
pub open spec fn digits_of(bs: Seq<u8>) -> Seq<u8> {
    if bs.len() >= 1 && bs[0] == B_PLUS {
        bs.drop_first()
    } else {
        bs
    }
}

/// `bs` is a decimal numeral in the shape `usize::from_str` accepts: an
/// optional leading plus sign, then one or more digits.
pub open spec fn is_numeral(bs: Seq<u8>) -> bool {
    &&& digits_of(bs).len() >= 1
    &&& forall|i: int|
        0 <= i < digits_of(bs).len() ==> is_ascii_digit(#[trigger] digits_of(bs)[i])
}

/// The value of a string of decimal digits, most significant first.
pub open spec fn digits_value(ds: Seq<u8>) -> int
    decreases ds.len(),
{
    if ds.len() == 0 {
        0
    } else {
        digits_value(ds.drop_last()) * 10 + (ds.last() - B_ZERO)
    }
}

proof fn lemma_digits_value_nonneg(ds: Seq<u8>)
    requires
        forall|i: int| 0 <= i < ds.len() ==> is_ascii_digit(#[trigger] ds[i]),
    ensures
        digits_value(ds) >= 0,
    decreases ds.len(),
{
    if ds.len() > 0 {
        assert(forall|i: int|
            0 <= i < ds.drop_last().len() ==> is_ascii_digit(#[trigger] ds.drop_last()[i]));
        lemma_digits_value_nonneg(ds.drop_last());
    }
}

/// A prefix of a digit string never has a larger value than the whole.
proof fn lemma_digits_value_mono(ds: Seq<u8>, k: int)
    requires
        0 <= k <= ds.len(),
        forall|i: int| 0 <= i < ds.len() ==> is_ascii_digit(#[trigger] ds[i]),
    ensures
        digits_value(ds.take(k)) <= digits_value(ds),
    decreases ds.len() - k,
{
    if k == ds.len() {
        assert(ds.take(k) =~= ds);
    } else {
        assert(forall|i: int|
            0 <= i < ds.take(k).len() ==> is_ascii_digit(#[trigger] ds.take(k)[i]));
        lemma_digits_value_nonneg(ds.take(k));
        assert(ds.take(k + 1).drop_last() =~= ds.take(k));
        assert(digits_value(ds.take(k + 1)) == digits_value(ds.take(k)) * 10 + (ds[k] - B_ZERO));
        lemma_digits_value_mono(ds, k + 1);
    }
}

/// Parse a decimal numeral the way `usize::from_str` reads it: `Some` exactly
/// when the string is a numeral whose value fits in `usize`.
#[verifier::loop_isolation(false)]
pub fn parse_usize(s: &str) -> (r: Option<usize>)
    ensures
        r is Some <==> (is_numeral(s.spec_bytes()) && digits_value(digits_of(s.spec_bytes()))
            <= usize::MAX),
        (match r {
            Some(n) => n as int == digits_value(digits_of(s.spec_bytes())),
            None => true,
        }),
{
    let b: &[u8] = s.as_bytes();
    let ghost bs = s.spec_bytes();
    let ghost ds = digits_of(bs);
    let mut i: usize = 0;
    if b.len() >= 1 && b[0] == B_PLUS {
        i = 1;
    }
    proof {
        assert(ds =~= bs.subrange(i as int, bs.len() as int));
    }
    let start: usize = i;
    if i >= b.len() {
        return None;
    }
    let mut acc: usize = 0;
    while i < b.len()
        invariant
            start <= i <= b@.len(),
            forall|j: int| start <= j < i ==> is_ascii_digit(#[trigger] bs[j]),
            acc as int == digits_value(bs.subrange(start as int, i as int)),
        decreases b@.len() - i,
    {
        let c: u8 = b[i];
        if c < B_ZERO || c > B_NINE {
            proof {
                assert(ds[i - start] == bs[i as int]);
            }
            return None;
        }
        let d: usize = (c - B_ZERO) as usize;
        proof {
            assert(bs.subrange(start as int, i as int + 1).drop_last() =~= bs.subrange(
                start as int,
                i as int,
            ));
            assert(digits_value(bs.subrange(start as int, i as int + 1)) == acc * 10 + d);
        }
        let acc10: usize = match acc.checked_mul(10) {
            Some(v) => v,
            None => {
                proof {
                    if is_numeral(bs) {
                        let k = i - start + 1;
                        assert(ds.take(k) =~= bs.subrange(start as int, i as int + 1));
                        lemma_digits_value_mono(ds, k);
                    }
                }
                return None;
            },
        };
        let acc2: usize = match acc10.checked_add(d) {
            Some(v) => v,
            None => {
                proof {
                    if is_numeral(bs) {
                        let k = i - start + 1;
                        assert(ds.take(k) =~= bs.subrange(start as int, i as int + 1));
                        lemma_digits_value_mono(ds, k);
                    }
                }
                return None;
            },
        };
        acc = acc2;
        i = i + 1;
    }
    proof {
        assert(ds =~= bs.subrange(start as int, i as int));
        assert(forall|j: int| 0 <= j < ds.len() ==> is_ascii_digit(#[trigger] ds[j]));
    }
    Some(acc)
}

/// The command-line validator for numeric arguments: accepts exactly the
/// strings that parse as a `usize`.
pub fn is_number(s: &str) -> (r: bool)
    ensures
        r <==> (is_numeral(s.spec_bytes()) && digits_value(digits_of(s.spec_bytes()))
            <= usize::MAX),
{
    parse_usize(s).is_some()
}

/// ASCII upper-casing of one byte.
pub open spec fn upper_byte(b: u8) -> u8 {
    if B_LOWER_A <= b <= B_LOWER_Z {
        (b - 32) as u8
    } else {
        b
    }
}

fn upper_byte_exec(b: u8) -> (r: u8)
    ensures
        r == upper_byte(b),
{
    if b >= B_LOWER_A && b <= B_LOWER_Z {
        b - 32
    } else {
        b
    }
}

/// The command-line validator for the algorithm argument: accepts a string
/// that upper-cases (ASCII) to `DFS` or `BFS`.
pub fn is_algo(s: &str) -> (r: bool)
    ensures
        r <==> (s.spec_bytes().map_values(|b: u8| upper_byte(b)) =~= seq![B_UPPER_D, B_UPPER_F, B_UPPER_S]
            || s.spec_bytes().map_values(|b: u8| upper_byte(b)) =~= seq![B_UPPER_B, B_UPPER_F, B_UPPER_S]),
{
    let b: &[u8] = s.as_bytes();
    let ghost up = s.spec_bytes().map_values(|x: u8| upper_byte(x));
    if b.len() != 3 {
        return false;
    }
    let b0 = upper_byte_exec(b[0]);
    let b1 = upper_byte_exec(b[1]);
    let b2 = upper_byte_exec(b[2]);
    proof {
        assert(up.len() == 3);
        assert(up[0] == b0 && up[1] == b1 && up[2] == b2);
    }
    let r = (b0 == B_UPPER_D || b0 == B_UPPER_B) && b1 == B_UPPER_F && b2 == B_UPPER_S;
    proof {
        if r {
            if b0 == B_UPPER_D {
                assert(up =~= seq![B_UPPER_D, B_UPPER_F, B_UPPER_S]);
            } else {
                assert(up =~= seq![B_UPPER_B, B_UPPER_F, B_UPPER_S]);
            }
        }
    }
    r
}

} // verus!
