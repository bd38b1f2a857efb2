//! The AMQP long string.
use vstd::prelude::*;
use vstd::utf8::encode_utf8;
use core::num::TryFromIntError;
use vstd::std_specs::convert::TryFromSpecImpl;
use vstd::std_specs::convert::FromSpecImpl;
use vstd::std_specs::convert::FromSpec;
use vstd::std_specs::convert::TryFromSpec;
use bytes::BytesMut;
use crate::buffer::bytes_mut_contents;
use crate::buffer::put_u32;
use crate::buffer::be_u32_bytes;
use crate::buffer::put_slice;
use crate::text::utf8_len;

verus! {

/// AMQP long string: a 32-bit length followed by that many bytes of UTF-8.
///
/// It is made from a `String` or a `&str` by `try_from`, which fails when the
/// text is longer than `u32::MAX` bytes.
#[derive(PartialEq, Debug)]
pub struct LongStr(u32, String);

impl View for LongStr {
    type V = Seq<char>;

    closed spec fn view(&self) -> Seq<char> {
        self.1@
    }
}

impl LongStr {
    #[verifier::type_invariant]
    spec fn length_matches(self) -> bool {
        self.0 == encode_utf8(self.1@).len()
    }

    /// The wire form of a long string holding `s`: its byte length as a
    /// big-endian 32-bit integer, then its UTF-8 bytes.
    pub open spec fn wire(s: Seq<char>) -> Seq<u8> {
        be_u32_bytes(encode_utf8(s).len() as u32) + encode_utf8(s)
    }

    /// Appends the wire form of `self` to `buf`.
    pub fn write_to(&self, buf: &mut BytesMut)
        requires
            bytes_mut_contents(*old(buf)).len() + 4 + encode_utf8(self@).len() <= isize::MAX,
        ensures
            encode_utf8(self@).len() <= u32::MAX,
            bytes_mut_contents(*final(buf)) == bytes_mut_contents(*old(buf)) + LongStr::wire(
                self@,
            ),
    {
        proof {
            use_type_invariant(self);
        }
        put_u32(buf, self.0);
        put_slice(buf, self.1.as_str().as_bytes());
    }

    /// The text, as its `Display` shows it.
    pub fn to_string(&self) -> (r: String)
        ensures
            r@ == self@,
    {
        self.1.clone()
    }
}

impl Default for LongStr {
    fn default() -> (r: Self)
        ensures
            r@ == Seq::<char>::empty(),
    {
        let s = String::new();
        assert(encode_utf8(s@) =~= Seq::<u8>::empty());
        LongStr(0, s)
    }
}

impl Clone for LongStr {
    fn clone(&self) -> (r: Self)
        ensures
            r@ == self@,
    {
        proof {
            use_type_invariant(self);
        }
        LongStr(self.0, self.1.clone())
    }
}

impl TryFrom<String> for LongStr {
    type Error = TryFromIntError;

    fn try_from(s: String) -> (r: Result<Self, Self::Error>)
        ensures
            r is Ok <==> encode_utf8(s@).len() <= u32::MAX,
            r matches Ok(v) ==> v@ == s@,
    {
        match u32::try_from(utf8_len(s.as_str())) {
            Ok(len) => Ok(LongStr(len, s)),
            Err(e) => Err(e),
        }
    }
}

impl TryFromSpecImpl<String> for LongStr {
    open spec fn obeys_try_from_spec() -> bool {
        true
    }

    closed spec fn try_from_spec(s: String) -> Result<Self, TryFromIntError> {
        if encode_utf8(s@).len() <= u32::MAX {
            Ok(LongStr(encode_utf8(s@).len() as u32, s))
        } else {
            Err(arbitrary())
        }
    }
}

impl<'a> TryFrom<&'a str> for LongStr {
    type Error = TryFromIntError;

    fn try_from(s: &'a str) -> (r: Result<Self, Self::Error>)
        ensures
            r is Ok <==> encode_utf8(s@).len() <= u32::MAX,
            r matches Ok(v) ==> v@ == s@,
    {
        LongStr::try_from(s.to_string())
    }
}

impl<'a> TryFromSpecImpl<&'a str> for LongStr {
    // The string that `try_from` makes is a fresh allocation, so no spec value
    // can name the result; the contract of `try_from` states it instead.
    open spec fn obeys_try_from_spec() -> bool {
        false
    }

    closed spec fn try_from_spec(s: &'a str) -> Result<Self, TryFromIntError> {
        arbitrary()
    }
}

impl From<LongStr> for String {
    fn from(s: LongStr) -> (r: String)
        ensures
            r@ == s@,
    {
        s.1
    }
}

impl FromSpecImpl<LongStr> for String {
    open spec fn obeys_from_spec() -> bool {
        true
    }

    closed spec fn from_spec(s: LongStr) -> String {
        s.1
    }
}

impl AsRef<String> for LongStr {
    fn as_ref(&self) -> (r: &String)
        ensures
            r@ == self@,
    {
        &self.1
    }
}

/// A `String` of at most u32::MAX bytes converts into a long string and back into
/// the same text; a longer one does not convert.
pub proof fn law_string_round_trip(s: String)
    ensures
        <LongStr as TryFromSpec<String>>::try_from_spec(s) is Ok <==> encode_utf8(s@).len() <= u32::MAX,
        <LongStr as TryFromSpec<String>>::try_from_spec(s) matches Ok(v) ==> <String as FromSpec<
            LongStr,
        >>::from_spec(v)@ == s@,
{
}

} // verus!
