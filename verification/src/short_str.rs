//! The AMQP short string.
use vstd::prelude::*;
use vstd::utf8::encode_utf8;
use core::num::TryFromIntError;
use vstd::std_specs::convert::TryFromSpecImpl;
use vstd::std_specs::convert::FromSpecImpl;
use vstd::std_specs::convert::FromSpec;
use vstd::std_specs::convert::TryFromSpec;
use bytes::BytesMut;
use crate::buffer::bytes_mut_contents;
use crate::buffer::put_u8;
use crate::buffer::put_slice;
use crate::text::utf8_len;

verus! {

/// AMQP short string: a length octet followed by at most 255 bytes of UTF-8.
///
/// It is made from a `String` or a `&str` by `try_from`, which fails when the
/// text is longer than 255 bytes.
#[derive(PartialEq, Eq, Hash, Debug)]
pub struct ShortStr(u8, String);

impl View for ShortStr {
    type V = Seq<char>;

    closed spec fn view(&self) -> Seq<char> {
        self.1@
    }
}

impl ShortStr {
    #[verifier::type_invariant]
    spec fn length_matches(self) -> bool {
        self.0 == encode_utf8(self.1@).len()
    }

    /// The wire form of a short string holding `s`: its byte length in one
    /// octet, then its UTF-8 bytes.
    pub open spec fn wire(s: Seq<char>) -> Seq<u8> {
        seq![encode_utf8(s).len() as u8] + encode_utf8(s)
    }

    /// Appends the wire form of `self` to `buf`.
    pub fn write_to(&self, buf: &mut BytesMut)
        requires
            bytes_mut_contents(*old(buf)).len() + 1 + encode_utf8(self@).len() <= isize::MAX,
        ensures
            encode_utf8(self@).len() <= 255,
            bytes_mut_contents(*final(buf)) == bytes_mut_contents(*old(buf)) + ShortStr::wire(
                self@,
            ),
    {
        proof {
            use_type_invariant(self);
        }
        put_u8(buf, self.0);
        put_slice(buf, self.1.as_str().as_bytes());
    }

    /// The UTF-8 bytes of the text.
    pub(crate) fn text_bytes(&self) -> (r: &[u8])
        ensures
            r@ == encode_utf8(self@),
    {
        self.1.as_str().as_bytes()
    }

    /// The text, as its `Display` shows it.
    pub fn to_string(&self) -> (r: String)
        ensures
            r@ == self@,
    {
        self.1.clone()
    }
}

impl Default for ShortStr {
    fn default() -> (r: Self)
        ensures
            r@ == Seq::<char>::empty(),
    {
        let s = String::new();
        assert(encode_utf8(s@) =~= Seq::<u8>::empty());
        ShortStr(0, s)
    }
}

impl Clone for ShortStr {
    fn clone(&self) -> (r: Self)
        ensures
            r@ == self@,
    {
        proof {
            use_type_invariant(self);
        }
        ShortStr(self.0, self.1.clone())
    }
}

impl TryFrom<String> for ShortStr {
    type Error = TryFromIntError;

    fn try_from(s: String) -> (r: Result<Self, Self::Error>)
        ensures
            r is Ok <==> encode_utf8(s@).len() <= 255,
            r matches Ok(v) ==> v@ == s@,
    {
        match u8::try_from(utf8_len(s.as_str())) {
            Ok(len) => Ok(ShortStr(len, s)),
            Err(e) => Err(e),
        }
    }
}

impl TryFromSpecImpl<String> for ShortStr {
    open spec fn obeys_try_from_spec() -> bool {
        true
    }

    closed spec fn try_from_spec(s: String) -> Result<Self, TryFromIntError> {
        if encode_utf8(s@).len() <= 255 {
            Ok(ShortStr(encode_utf8(s@).len() as u8, s))
        } else {
            Err(arbitrary())
        }
    }
}

impl<'a> TryFrom<&'a str> for ShortStr {
    type Error = TryFromIntError;

    fn try_from(s: &'a str) -> (r: Result<Self, Self::Error>)
        ensures
            r is Ok <==> encode_utf8(s@).len() <= 255,
            r matches Ok(v) ==> v@ == s@,
    {
        ShortStr::try_from(s.to_string())
    }
}

impl<'a> TryFromSpecImpl<&'a str> for ShortStr {
    // The string that `try_from` makes is a fresh allocation, so no spec value
    // can name the result; the contract of `try_from` states it instead.
    open spec fn obeys_try_from_spec() -> bool {
        false
    }

    closed spec fn try_from_spec(s: &'a str) -> Result<Self, TryFromIntError> {
        arbitrary()
    }
}

impl From<ShortStr> for String {
    fn from(s: ShortStr) -> (r: String)
        ensures
            r@ == s@,
    {
        s.1
    }
}

impl FromSpecImpl<ShortStr> for String {
    open spec fn obeys_from_spec() -> bool {
        true
    }

    closed spec fn from_spec(s: ShortStr) -> String {
        s.1
    }
}

impl AsRef<String> for ShortStr {
    fn as_ref(&self) -> (r: &String)
        ensures
            r@ == self@,
    {
        &self.1
    }
}

/// A `String` of at most 255 bytes converts into a short string and back into
/// the same text; a longer one does not convert.
pub proof fn law_string_round_trip(s: String)
    ensures
        <ShortStr as TryFromSpec<String>>::try_from_spec(s) is Ok <==> encode_utf8(s@).len() <= 255,
        <ShortStr as TryFromSpec<String>>::try_from_spec(s) matches Ok(v) ==> <String as FromSpec<
            ShortStr,
        >>::from_spec(v)@ == s@,
{
}

} // verus!
