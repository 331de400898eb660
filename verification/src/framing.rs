//! COBS framing of wire bytes. Stuffing is done by postcard's COBS serialization flavor
//! (the same code path as `postcard::to_slice_cobs`), unstuffing by `cobs::decode_in_place`
//! (the routine `postcard::from_bytes_cobs` runs). Neither is proved here: the items below
//! are trusted, and each doc comment says what is assumed of the outside code.
use vstd::prelude::*;
use postcard::ser_flavors::{Cobs, Flavor, Slice};

verus! {

/// postcard's error type, returned by its serialization flavors.
#[verifier::external_type_specification]
#[verifier::external_body]
pub struct ExPostcardError(postcard::Error);

/// The bytes that postcard's COBS flavor emits for `payload`: the COBS-stuffed payload
/// followed by the 0x00 delimiter.
pub uninterp spec fn cobs_frame(payload: Seq<u8>) -> Seq<u8>;

/// What `cobs::decode_in_place` gives for the bytes `frame`: the unstuffed message, or
/// `None` when it reports an error.
pub uninterp spec fn cobs_decoded(frame: Seq<u8>) -> Option<Seq<u8>>;

/// Stuffs `payload` into the front of `buf` through postcard's `ser_flavors::Cobs` over
/// `ser_flavors::Slice` (what `postcard::to_slice_cobs` does with serialized bytes).
///
/// Assumed of postcard and cobs: the call fails exactly when the COBS frame does not fit in
/// `buf`; otherwise it writes the frame at the front of `buf` and returns its length.
/// For a payload shorter than 254 bytes the frame is one code byte, the payload with its
/// zeros replaced, and the delimiter (so `payload.len() + 2` bytes); its only zero is the
/// final delimiter; and `cobs::decode_in_place` gives the payload back from it.
/// On success the bytes of `buf` past the frame are untouched (the slice flavor writes only
/// the prefix it hands back); what a failure leaves in `buf` is left unsaid.
#[verifier::external_body]
pub(crate) fn cobs_write(payload: &[u8], buf: &mut [u8]) -> (res: Result<usize, postcard::Error>)
    ensures
        final(buf)@.len() == old(buf)@.len(),
        res is Ok <==> cobs_frame(payload@).len() <= old(buf)@.len(),
        res matches Ok(n) ==> n == cobs_frame(payload@).len() && final(buf)@.take(n as int)
            == cobs_frame(payload@) && final(buf)@.skip(n as int) == old(buf)@.skip(n as int),
        payload@.len() < 254 ==> (res is Ok <==> payload@.len() + 2 <= old(buf)@.len()),
        res matches Ok(n) ==> (payload@.len() < 254 ==> {
            &&& n == payload@.len() + 2
            &&& cobs_frame(payload@)[n - 1] == 0
            &&& forall|i: int| 0 <= i < n - 1 ==> cobs_frame(payload@)[i] != 0
            &&& cobs_decoded(cobs_frame(payload@)) == Some(payload@)
        }),
{
    let mut flavor = Cobs::try_new(Slice::new(buf))?;
    flavor.try_extend(payload)?;
    let used = flavor.finalize()?;
    Ok(used.len())
}

/// Unstuffs `frame` in place with `cobs::decode_in_place` (what `postcard::from_bytes_cobs`
/// runs) and returns the length of the decoded prefix.
///
/// Assumed: the decoded message is what `cobs_decoded` names for the bytes before the call,
/// `None` when `decode_in_place` reports an error; it is written at the front of `frame`
/// and is no longer than `frame`. The bytes of `frame` past it are left unsaid.
#[verifier::external_body]
pub(crate) fn cobs_unstuff(frame: &mut [u8]) -> (res: Option<usize>)
    ensures
        final(frame)@.len() == old(frame)@.len(),
        match cobs_decoded(old(frame)@) {
            Some(p) => {
                &&& res == Some(p.len() as usize)
                &&& p.len() <= old(frame)@.len()
                &&& final(frame)@.take(p.len() as int) == p
            },
            None => res is None,
        },
{
    cobs::decode_in_place(frame).ok()
}

} // verus!
