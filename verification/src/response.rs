//! Response assembly: the textual envelope a connection is answered with.
//!
//! The envelope only resembles an HTTP response: a status line, then the
//! serialized L factor after `A=`, a blank line, and the serialized U factor
//! after `B=`.  Any failure while producing the factors is answered with
//! the one generic server-error line and an empty body, so a bad request
//! never takes the server down with it.

use vstd::prelude::*;

use crate::errors::ErrorKind;

verus! {

/// The bytes of `"HTTP/1.1 200 OK\r\n\r\nA="`.
pub open spec fn ok_prefix() -> Seq<u8> {
    seq![
        72u8,
        84u8,
        84u8,
        80u8,
        47u8,
        49u8,
        46u8,
        49u8,
        32u8,
        50u8,
        48u8,
        48u8,
        32u8,
        79u8,
        75u8,
        13u8,
        10u8,
        13u8,
        10u8,
        65u8,
        61u8,
    ]
}

/// The bytes of `"\r\n\r\nB="`.
pub open spec fn body_divider() -> Seq<u8> {
    seq![13u8, 10u8, 13u8, 10u8, 66u8, 61u8]
}

/// The bytes of `"\r\n\r\n"`.
pub open spec fn body_end() -> Seq<u8> {
    seq![13u8, 10u8, 13u8, 10u8]
}

/// The bytes of `"HTTP/1.1 500 Internal Server Error\r\n\r\n"`.
pub open spec fn error_bytes() -> Seq<u8> {
    seq![
        72u8,
        84u8,
        84u8,
        80u8,
        47u8,
        49u8,
        46u8,
        49u8,
        32u8,
        53u8,
        48u8,
        48u8,
        32u8,
        73u8,
        110u8,
        116u8,
        101u8,
        114u8,
        110u8,
        97u8,
        108u8,
        32u8,
        83u8,
        101u8,
        114u8,
        118u8,
        101u8,
        114u8,
        32u8,
        69u8,
        114u8,
        114u8,
        111u8,
        114u8,
        13u8,
        10u8,
        13u8,
        10u8,
    ]
}

/// A success envelope around the two serialized factors.
pub open spec fn success_bytes(l: Seq<u8>, u: Seq<u8>) -> Seq<u8> {
    ok_prefix() + l + body_divider() + u + body_end()
}

/// Builds the success envelope around the serialized factors.
pub fn success_response(l_text: &Vec<u8>, u_text: &Vec<u8>) -> (r: Vec<u8>)
    ensures
        r@ == success_bytes(l_text@, u_text@),
{
    let mut out: Vec<u8> = vec![
        72u8, 84u8, 84u8, 80u8, 47u8, 49u8, 46u8, 49u8, 32u8, 50u8, 48u8, 48u8, 32u8, 79u8, 75u8,
        13u8, 10u8, 13u8, 10u8, 65u8, 61u8,
    ];
    proof {
        assert(out@ =~= ok_prefix());
    }
    crate::codec::push_all(&mut out, l_text);
    let divider: Vec<u8> = vec![13u8, 10u8, 13u8, 10u8, 66u8, 61u8];
    proof {
        assert(divider@ =~= body_divider());
    }
    crate::codec::push_all(&mut out, &divider);
    crate::codec::push_all(&mut out, u_text);
    let tail: Vec<u8> = vec![13u8, 10u8, 13u8, 10u8];
    proof {
        assert(tail@ =~= body_end());
    }
    crate::codec::push_all(&mut out, &tail);
    proof {
        assert(out@ =~= success_bytes(l_text@, u_text@));
    }
    out
}

/// Builds the generic server-error envelope.
pub fn error_response() -> (r: Vec<u8>)
    ensures
        r@ == error_bytes(),
{
    let out: Vec<u8> = vec![
        72u8, 84u8, 84u8, 80u8, 47u8, 49u8, 46u8, 49u8, 32u8, 53u8, 48u8, 48u8, 32u8, 73u8, 110u8,
        116u8, 101u8, 114u8, 110u8, 97u8, 108u8, 32u8, 83u8, 101u8, 114u8, 118u8, 101u8, 114u8,
        32u8, 69u8, 114u8, 114u8, 111u8, 114u8, 13u8, 10u8, 13u8, 10u8,
    ];
    proof {
        assert(out@ =~= error_bytes());
    }
    out
}

/// One outcome, one response: a computed pair of serialized factors becomes
/// the success envelope, any failure becomes the generic error envelope --
/// never a crash, whatever the error's kind.
pub fn respond(outcome: Result<(Vec<u8>, Vec<u8>), ErrorKind>) -> (r: Vec<u8>)
    ensures
        outcome matches Ok(p) ==> r@ == success_bytes(p.0@, p.1@),
        outcome is Err ==> r@ == error_bytes(),
{
    match outcome {
        Ok(p) => success_response(&p.0, &p.1),
        Err(_) => error_response(),
    }
}

} // verus!
