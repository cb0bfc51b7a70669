//! Corpus selection: which entry a request is served from, and where that
//! entry lives on disk.
//!
//! The corpus is a directory of files named `0.dat` through `count-1.dat`.
//! Counting the entries and reading the chosen file are I/O and stay with
//! the caller; the selection decision and the path arithmetic are here.

use vstd::prelude::*;

use crate::errors::ErrorKind;

verus! {

/// Relies on `rand::Rng::gen_range` on the thread-local generator: for the
/// nonempty range `0..n` it returns a uniformly drawn value of that range,
/// and panics only on an empty range, which the precondition rules out.
/// The draw is random, so no two calls need agree; callers get only the
/// bound, which holds of every outcome.
#[verifier::external_body]
fn random_below(n: usize) -> (r: usize)
    requires
        n > 0,
    ensures
        r < n,
{
    rand::Rng::gen_range(&mut rand::thread_rng(), 0..n)
}

/// Picks the corpus index to serve: a random index below `count`.  An empty
/// corpus is the one failure: there is nothing to pick, and the request is
/// answered with an I/O-kind error rather than a crash.
pub fn pick_index(count: usize) -> (r: Result<usize, ErrorKind>)
    ensures
        count == 0 <==> r is Err,
        r matches Err(e) ==> e == ErrorKind::Io,
        r matches Ok(i) ==> i < count,
{
    if count == 0 {
        Err(ErrorKind::Io)
    } else {
        Ok(random_below(count))
    }
}

/// The decimal numeral of `n`, most significant digit first, no sign and no
/// leading zeros (a single `0` for zero).
pub open spec fn decimal(n: nat) -> Seq<u8>
    decreases n,
{
    if n < 10 {
        seq![(48 + n) as u8]
    } else {
        decimal(n / 10).push((48 + n % 10) as u8)
    }
}

/// Writes `n` as its decimal numeral.
pub fn decimal_bytes(n: usize) -> (r: Vec<u8>)
    ensures
        r@ == decimal(n as nat),
    decreases n,
{
    if n < 10 {
        let mut v: Vec<u8> = Vec::new();
        v.push(48 + (n as u8));
        proof {
            assert(v@ =~= decimal(n as nat));
        }
        v
    } else {
        let mut v = decimal_bytes(n / 10);
        v.push(48 + ((n % 10) as u8));
        v
    }
}

/// The path of corpus entry `index` under `base`: the base path, a slash,
/// the decimal index, and the `.dat` extension.
pub open spec fn corpus_path(base: Seq<u8>, index: nat) -> Seq<u8> {
    base + seq![47u8] + decimal(index) + seq![46u8, 100u8, 97u8, 116u8]
}

/// Builds the path of corpus entry `index` under `base`.
pub fn corpus_file_path(base: &Vec<u8>, index: usize) -> (r: Vec<u8>)
    ensures
        r@ == corpus_path(base@, index as nat),
{
    let mut out: Vec<u8> = Vec::new();
    crate::codec::push_all(&mut out, base);
    out.push(47u8);
    let digits = decimal_bytes(index);
    proof {
        assert(base@.push(47u8) =~= base@ + seq![47u8]);
    }
    crate::codec::push_all(&mut out, &digits);
    out.push(46u8);
    out.push(100u8);
    out.push(97u8);
    out.push(116u8);
    proof {
        assert(out@ =~= corpus_path(base@, index as nat));
    }
    out
}

} // verus!
