use vstd::prelude::*;

verus! {

/// The liveness check, `zPING\0` in ASCII.
pub open spec fn ping_bytes() -> Seq<u8> {
    seq![122u8, 80u8, 73u8, 78u8, 71u8, 0u8]
}

/// The version query, `zVERSION\0` in ASCII.
pub open spec fn version_bytes() -> Seq<u8> {
    seq![122u8, 86u8, 69u8, 82u8, 83u8, 73u8, 79u8, 78u8, 0u8]
}

/// The header that opens a streamed scan, `zINSTREAM\0` in ASCII.
pub open spec fn instream_bytes() -> Seq<u8> {
    seq![122u8, 73u8, 78u8, 83u8, 84u8, 82u8, 69u8, 65u8, 77u8, 0u8]
}

/// The bytes of the liveness check.
pub fn ping_request() -> (r: Vec<u8>)
    ensures
        r@ == ping_bytes(),
{
    let r: Vec<u8> = vec![122u8, 80u8, 73u8, 78u8, 71u8, 0u8];
    assert(r@ =~= ping_bytes());
    r
}

/// The bytes of the version query.
pub fn version_request() -> (r: Vec<u8>)
    ensures
        r@ == version_bytes(),
{
    let r: Vec<u8> = vec![122u8, 86u8, 69u8, 82u8, 83u8, 73u8, 79u8, 78u8, 0u8];
    assert(r@ =~= version_bytes());
    r
}

/// The header written before the chunks of a streamed scan.
pub fn instream_header() -> (r: Vec<u8>)
    ensures
        r@ == instream_bytes(),
{
    let r: Vec<u8> = vec![122u8, 73u8, 78u8, 83u8, 84u8, 82u8, 69u8, 65u8, 77u8, 0u8];
    assert(r@ =~= instream_bytes());
    r
}

} // verus!
