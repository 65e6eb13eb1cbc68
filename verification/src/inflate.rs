use vstd::prelude::*;

verus! {

/// The result of inflating a zlib-wrapped deflate stream under an output
/// cap: `Some` with the decompressed bytes when the stream is well formed
/// and fits in `limit` bytes, `None` otherwise. Decompression is a pure
/// function of the input bytes and the cap, so the result carries a name
/// instead of a page-long statement of the deflate format.
pub uninterp spec fn inflate_zlib(input: Seq<u8>, limit: nat) -> Option<Seq<u8>>;

/// Relies on miniz_oxide::inflate::decompress_to_vec_zlib_with_limit: it
/// inflates the zlib stream in `input`, growing the output to at most
/// `limit` bytes, and fails on a malformed stream, a premature end, or an
/// output that would pass the cap. The result depends on the two arguments
/// alone.
#[verifier::external_body]
pub fn inflate_limited(input: &[u8], limit: usize) -> (r: Option<Vec<u8>>)
    ensures
        match r {
            Some(v) => inflate_zlib(input@, limit as nat) == Some(v@) && v@.len() <= limit,
            None => inflate_zlib(input@, limit as nat) is None,
        },
{
    miniz_oxide::inflate::decompress_to_vec_zlib_with_limit(input, limit).ok()
}

} // verus!
