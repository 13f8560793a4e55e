//! Strings as they stand in the buffer: bytes of Modified UTF-8, decoded only
//! when the text is asked for.

use vstd::prelude::*;
use vstd::slice::slice_to_vec;
use vstd::string::StringSliceAdditionalSpecFns;
use crate::error::NbtError;
use crate::reader::NbtReader;

verus! {

/// The decoding error of `simd_cesu8`. It says that the input was invalid,
/// and nothing more.
#[verifier::external_type_specification]
#[verifier::external_body]
pub struct ExDecodingError(simd_cesu8::DecodingError);

/// What `simd_cesu8::mutf8::decode` makes of `bytes`: the text, or nothing
/// where it reports an error.
pub uninterp spec fn mutf8_text(bytes: Seq<u8>) -> Option<Seq<char>>;

/// What `String::from_utf8_lossy` makes of `bytes`.
pub uninterp spec fn utf8_lossy_text(bytes: Seq<u8>) -> Seq<char>;

/// Whether no byte has its top bit set.
pub open spec fn plain_ascii(bytes: Seq<u8>) -> bool {
    forall|i: int| 0 <= i < bytes.len() ==> #[trigger] bytes[i] < 128
}

/// The text of bytes that are plain ASCII: each byte is one character.
pub open spec fn ascii_text(bytes: Seq<u8>) -> Seq<char> {
    Seq::new(bytes.len(), |i: int| bytes[i] as char)
}

/// The text that `bytes` decode to on the general path, which is empty where
/// they are not Modified UTF-8.
pub open spec fn general_text(bytes: Seq<u8>) -> Seq<char> {
    match mutf8_text(bytes) {
        Some(text) => text,
        None => Seq::empty(),
    }
}

/// The text that `bytes` decode to: character by character where they are
/// plain ASCII, else on the general path.
pub open spec fn decoded_text(bytes: Seq<u8>) -> Seq<char> {
    if plain_ascii(bytes) {
        ascii_text(bytes)
    } else {
        general_text(bytes)
    }
}

/// Whether `bytes` pass for Modified UTF-8: plain ASCII does, anything else
/// where it decodes.
pub open spec fn well_encoded(bytes: Seq<u8>) -> bool {
    plain_ascii(bytes) || mutf8_text(bytes) is Some
}

/// Calls `simd_cesu8::mutf8::decode`, and owns what comes back.
///
/// The result is named, not spelled out. One thing is claimed of it: input
/// that is valid UTF-8 comes back as the text it is, and plain ASCII is
/// valid UTF-8, one character to the byte. The decoder panics only where the
/// text would not fit in memory, and the text is never longer than the
/// input.
#[verifier::external_body]
fn decode_mutf8(bytes: &[u8]) -> (r: Result<String, simd_cesu8::DecodingError>)
    ensures
        match r {
            Ok(text) => mutf8_text(bytes@) == Some(text@),
            Err(_) => mutf8_text(bytes@) is None,
        },
        plain_ascii(bytes@) ==> r is Ok && r->Ok_0@ == ascii_text(bytes@),
{
    match simd_cesu8::mutf8::decode(bytes) {
        Ok(text) => Ok(text.into_owned()),
        Err(e) => Err(e),
    }
}

/// Calls `String::from_utf8_lossy`, and owns what comes back.
///
/// The result is named. One thing is claimed of it: valid UTF-8 comes back
/// as the text it is, and plain ASCII is valid UTF-8, one character to the
/// byte.
#[verifier::external_body]
pub(crate) fn utf8_lossy(bytes: &[u8]) -> (r: String)
    ensures
        r@ == utf8_lossy_text(bytes@),
        plain_ascii(bytes@) ==> r@ == ascii_text(bytes@),
{
    String::from_utf8_lossy(bytes).into_owned()
}

/// Whether no byte of `slice` has its top bit set.
pub fn is_plain_ascii(slice: &[u8]) -> (r: bool)
    ensures
        r == plain_ascii(slice@),
{
    let mut i: usize = 0;
    while i < slice.len()
        invariant
            i <= slice@.len(),
            forall|k: int| 0 <= k < i ==> #[trigger] slice@[k] < 128,
        decreases slice@.len() - i,
    {
        if slice[i] >= 128 {
            return false;
        }
        i += 1;
    }
    true
}

/// The bytes of a string as they stand in the buffer.
#[derive(Debug, PartialEq)]
pub struct Mutf8String {
    data: Vec<u8>,
}

impl Clone for Mutf8String {
    /// A copy of the bytes.
    fn clone(&self) -> (r: Mutf8String)
        ensures
            r@ == self@,
    {
        Mutf8String { data: slice_to_vec(self.data.as_slice()) }
    }
}

impl View for Mutf8String {
    type V = Seq<u8>;

    closed spec fn view(&self) -> Seq<u8> {
        self.data@
    }
}

impl Mutf8String {
    /// The string of the bytes `data`.
    pub fn from_bytes(data: Vec<u8>) -> (r: Mutf8String)
        ensures
            r@ == data@,
    {
        Mutf8String { data }
    }

    /// The string of the UTF-8 bytes of `text`. Text without NUL and
    /// without characters beyond the basic plane is Modified UTF-8 as it is.
    pub fn from_text(text: &str) -> (r: Mutf8String)
        ensures
            r@ == text.spec_bytes(),
    {
        Mutf8String { data: slice_to_vec(text.as_bytes()) }
    }

    /// The bytes.
    pub fn as_bytes(&self) -> (r: &[u8])
        ensures
            r@ == self@,
    {
        self.data.as_slice()
    }

    /// The error of decoding, if there is one. Plain ASCII is valid without
    /// being decoded.
    pub fn verify(&self) -> (r: Option<simd_cesu8::DecodingError>)
        ensures
            r is None <==> well_encoded(self@),
    {
        if is_plain_ascii(self.data.as_slice()) {
            None
        } else {
            match decode_mutf8(self.data.as_slice()) {
                Ok(_) => None,
                Err(e) => Some(e),
            }
        }
    }

    /// The text: plain ASCII character by character, anything else decoded
    /// as Modified UTF-8, and empty where that fails.
    pub fn decode(&self) -> (r: String)
        ensures
            r@ == decoded_text(self@),
            plain_ascii(self@) ==> r@ == ascii_text(self@),
    {
        if is_plain_ascii(self.data.as_slice()) {
            utf8_lossy(self.data.as_slice())
        } else {
            text_or_empty(decode_mutf8(self.data.as_slice()))
        }
    }

    /// The text, decoded as Modified UTF-8 whatever the bytes are, and empty
    /// where that fails. On plain ASCII this is what [`Self::decode`]
    /// returns without decoding.
    pub fn decode_general(&self) -> (r: String)
        ensures
            r@ == general_text(self@),
            plain_ascii(self@) ==> r@ == ascii_text(self@),
    {
        text_or_empty(decode_mutf8(self.data.as_slice()))
    }

    /// Copies the `len` bytes at `start_idx` out of the reader's buffer, and
    /// leaves the reader behind them.
    pub fn from_reader(reader: &mut NbtReader, start_idx: usize, len: usize) -> (r: Result<
        Mutf8String,
        NbtError,
    >)
        ensures
            final(reader).data@ == old(reader).data@,
            match r {
                Ok(s) => start_idx + len <= old(reader).data@.len() && s@ == old(reader).data@.subrange(start_idx as int, start_idx + len) && final(reader).cursor
                    == start_idx + len,
                Err(e) => if start_idx > old(reader).data@.len() {
                    e == old(reader).overflow(start_idx) && final(reader).cursor == old(reader).cursor
                } else {
                    start_idx + len > old(reader).data@.len() && e == NbtError::CursorOverflow(
                        start_idx,
                        len,
                        old(reader).data@.len() as usize,
                    ) && final(reader).cursor == start_idx
                },
            },
    {
        match reader.roll_to(start_idx) {
            Err(e) => {
                return Err(e);
            },
            Ok(_) => {},
        }
        match reader.read_u8_array(len) {
            Err(e) => Err(e),
            Ok(bytes) => Ok(Mutf8String { data: slice_to_vec(bytes) }),
        }
    }
}

/// The text of a decoding, and no text where it failed.
pub fn text_or_empty(decoded: Result<String, simd_cesu8::DecodingError>) -> (r: String)
    ensures
        r@ == match decoded {
            Ok(text) => text@,
            Err(_) => Seq::<char>::empty(),
        },
{
    match decoded {
        Ok(text) => text,
        Err(_) => String::new(),
    }
}

} // verus!
