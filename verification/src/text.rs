//! Text as a message holds it: bytes that ought to be UTF-8.
use crate::error::{bare, Error, ErrorKind, ErrorView};
use vstd::prelude::*;
use vstd::string::*;
use vstd::utf8::*;

verus! {

/// A text field: its bytes, not yet checked to be UTF-8.
pub struct Reader {
    pub bytes: Vec<u8>,
}

/// `std::string::String::from_utf8`: the string that `bytes` encode, or
/// `None` where they are no UTF-8.
#[verifier::external_body]
fn string_from_utf8(bytes: &Vec<u8>) -> (r: Option<String>)
    ensures
        r is Some <==> valid_utf8(bytes@),
        r matches Some(s) ==> s@ == decode_utf8(bytes@),
{
    String::from_utf8(bytes.clone()).ok()
}

impl Reader {
    /// The characters that the text holds, or the error that it is no UTF-8.
    pub open spec fn decoded(self) -> Result<Seq<char>, ErrorView> {
        if valid_utf8(self.bytes@) {
            Ok(decode_utf8(self.bytes@))
        } else {
            Err(bare(ErrorKind::TextContainsNonUtf8Data))
        }
    }

    /// Whether the text is the UTF-8 encoding of `name`.
    pub open spec fn is(self, name: Seq<char>) -> bool {
        self.bytes@ == encode_utf8(name)
    }

    /// The text that holds `s`.
    pub fn new(s: &str) -> (r: Reader)
        ensures
            r.is(s@),
            r.decoded() == Ok::<Seq<char>, ErrorView>(s@),
    {
        broadcast use vstd::utf8::group_utf8_lib;

        Reader { bytes: s.as_bytes_vec() }
    }

    /// The string that the text holds.
    pub fn to_string(&self) -> (r: Result<String, Error>)
        ensures
            match r {
                Ok(s) => self.decoded() == Ok::<Seq<char>, ErrorView>(s@),
                Err(e) => self.decoded() == Err::<Seq<char>, ErrorView>(e@),
            },
    {
        match string_from_utf8(&self.bytes) {
            Some(s) => Ok(s),
            None => Err(Error::from_kind(ErrorKind::TextContainsNonUtf8Data)),
        }
    }

    /// Whether the text equals `name`, byte for byte.
    pub fn eq_str(&self, name: &str) -> (r: bool)
        ensures
            r == self.is(name@),
    {
        let other = name.as_bytes();
        if self.bytes.len() != other.len() {
            return false;
        }
        let mut i: usize = 0;
        while i < other.len()
            invariant
                0 <= i <= other@.len(),
                other@ == encode_utf8(name@),
                self.bytes@.len() == other@.len(),
                forall|j: int| 0 <= j < i ==> self.bytes@[j] == other@[j],
            decreases other@.len() - i,
        {
            if self.bytes[i] != other[i] {
                return false;
            }
            i += 1;
        }
        assert(self.bytes@ =~= other@);
        true
    }
}

/// A text that equals `name` byte for byte is one that decodes to `name`.
pub proof fn law_text_equality(text: Reader, name: Seq<char>)
    ensures
        text.is(name) <==> text.decoded() == Ok::<Seq<char>, ErrorView>(name),
{
    encode_utf8_decode_utf8(name);
    encode_utf8_valid_utf8(name);
    if valid_utf8(text.bytes@) {
        decode_utf8_encode_utf8(text.bytes@);
    }
}

/// Text is read as the characters that its bytes encode, and refused just where
/// they are no UTF-8.
pub proof fn law_decoding(text: Reader)
    ensures
        text.decoded() is Ok <==> valid_utf8(text.bytes@),
        text.decoded() matches Ok(chars) ==> encode_utf8(chars) == text.bytes@,
        text.decoded() matches Err(e) ==> e.kind == ErrorKind::TextContainsNonUtf8Data
            && e.extra.len() == 0,
{
    if valid_utf8(text.bytes@) {
        decode_utf8_encode_utf8(text.bytes@);
    }
}

/// Whatever characters are encoded come back.
pub proof fn law_encoded_text_comes_back(text: Reader, chars: Seq<char>)
    requires
        text.bytes@ == encode_utf8(chars),
    ensures
        text.decoded() == Ok::<Seq<char>, ErrorView>(chars),
        text.is(chars),
{
    encode_utf8_decode_utf8(chars);
    encode_utf8_valid_utf8(chars);
}

} // verus!
