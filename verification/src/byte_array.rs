//! The AMQP byte array (a RabbitMQ field-value type).
use vstd::prelude::*;
use core::num::TryFromIntError;
use vstd::std_specs::convert::TryFromSpecImpl;
use vstd::std_specs::convert::FromSpecImpl;
use vstd::std_specs::convert::FromSpec;
use vstd::std_specs::convert::TryFromSpec;
use crate::text::decimal;
use crate::text::join;
use crate::text::join_offset;
use crate::text::digits_value;
use crate::text::lemma_framed_join;
use crate::text::law_decimal_reads_back;
use crate::text::push_decimal;

verus! {

/// AMQP byte array: a 32-bit length followed by that many bytes.
#[derive(PartialEq, Debug)]
pub struct ByteArray(u32, Vec<u8>);

impl View for ByteArray {
    type V = Seq<u8>;

    closed spec fn view(&self) -> Seq<u8> {
        self.1@
    }
}

impl ByteArray {
    #[verifier::type_invariant]
    spec fn length_matches(self) -> bool {
        self.0 == self.1@.len()
    }

    /// The 32-bit length carried with the bytes.
    pub closed spec fn spec_len(self) -> u32 {
        self.0
    }

    /// The 32-bit length carried with the bytes: the number of bytes it holds.
    pub fn len(&self) -> (n: u32)
        ensures
            n == self.spec_len(),
            n == self@.len(),
    {
        proof {
            use_type_invariant(self);
        }
        self.0
    }

    /// The texts of the bytes, in decimal.
    pub open spec fn byte_texts(bytes: Seq<u8>) -> Seq<Seq<char>> {
        bytes.map_values(|b: u8| decimal(b as nat))
    }

    /// The text that `to_string` gives for these bytes: their decimal numerals,
    /// comma separated, in square brackets (the `Debug` form of a byte vector).
    pub open spec fn display(bytes: Seq<u8>) -> Seq<char> {
        "["@ + join(ByteArray::byte_texts(bytes), ", "@) + "]"@
    }

    /// The text of the bytes, as its `Display` shows it.
    pub fn to_string(&self) -> (r: String)
        ensures
            r@ == ByteArray::display(self@),
    {
        let ghost texts = ByteArray::byte_texts(self@);
        let mut out = String::from_str("[");
        let mut i: usize = 0;
        while i < self.1.len()
            invariant
                i <= self@.len(),
                texts == ByteArray::byte_texts(self@),
                out@ == "["@ + join(texts.take(i as int), ", "@),
            decreases self@.len() - i,
        {
            if i > 0 {
                out.append(", ");
            }
            push_decimal(&mut out, self.1[i] as u64);
            proof {
                assert(texts.take(i + 1).drop_last() =~= texts.take(i as int));
                if i == 0 {
                    assert(texts.take(0) =~= Seq::<Seq<char>>::empty());
                }
            }
            i = i + 1;
        }
        assert(texts.take(i as int) =~= texts);
        out.append("]");
        out
    }
}

/// Where the numeral of the `i`-th byte starts in the text of `bytes`: after
/// the opening bracket and, for each byte before it, its numeral and `, `.
pub open spec fn numeral_offset(bytes: Seq<u8>, i: int) -> int
    decreases i,
{
    if i <= 0 {
        1
    } else {
        numeral_offset(bytes, i - 1) + decimal(bytes[i - 1] as nat).len() + 2
    }
}

proof fn lemma_numeral_offset(bytes: Seq<u8>, i: int)
    requires
        0 <= i <= bytes.len(),
    ensures
        numeral_offset(bytes, i) == 1 + join_offset(ByteArray::byte_texts(bytes), 2, i),
    decreases i,
{
    if i > 0 {
        lemma_numeral_offset(bytes, i - 1);
        assert(ByteArray::byte_texts(bytes)[i - 1] == decimal(bytes[i - 1] as nat));
    }
}

/// The text of a byte array shows every byte, in order: `[]` when there is
/// none, else `[`, then the decimal numeral of each byte (which reads back as
/// that byte) at its offset, `, ` between each two of them, and `]`.
pub proof fn law_byte_text_shows_every_byte(bytes: Seq<u8>)
    ensures
        bytes.len() == 0 ==> ByteArray::display(bytes) == "[]"@,
        bytes.len() > 0 ==> ByteArray::display(bytes).len() == numeral_offset(bytes, bytes.len() - 1)
            + decimal(bytes.last() as nat).len() + 1,
        bytes.len() > 0 ==> ByteArray::display(bytes)[0] == '[',
        bytes.len() > 0 ==> ByteArray::display(bytes).last() == ']',
        forall|i: int|
            #![trigger numeral_offset(bytes, i)]
            0 <= i < bytes.len() ==> ByteArray::display(bytes).subrange(
                numeral_offset(bytes, i),
                numeral_offset(bytes, i) + decimal(bytes[i] as nat).len(),
            ) == decimal(bytes[i] as nat) && digits_value(
                ByteArray::display(bytes).subrange(
                    numeral_offset(bytes, i),
                    numeral_offset(bytes, i) + decimal(bytes[i] as nat).len(),
                ),
            ) == bytes[i],
        forall|i: int|
            #![trigger numeral_offset(bytes, i)]
            0 < i < bytes.len() ==> ByteArray::display(bytes).subrange(
                numeral_offset(bytes, i) - 2,
                numeral_offset(bytes, i),
            ) == ", "@,
{
    reveal_strlit("[");
    reveal_strlit("]");
    reveal_strlit("[]");
    reveal_strlit(", ");
    let texts = ByteArray::byte_texts(bytes);
    let t = ByteArray::display(bytes);
    if bytes.len() == 0 {
        assert(texts.len() == 0);
        assert(join(texts, ", "@) == Seq::<char>::empty());
        assert(t =~= "[]"@);
    } else {
        let n = bytes.len();
        lemma_framed_join("["@, texts, ", "@, "]"@);
        lemma_numeral_offset(bytes, n - 1);
        assert(texts.last() == decimal(bytes.last() as nat));
        assert(t.subrange(0, 1)[0] == t[0]);
        assert(t.subrange(t.len() - 1, t.len() as int)[0] == t.last());
        assert forall|i: int|
            #![trigger numeral_offset(bytes, i)]
            0 <= i < bytes.len() implies t.subrange(
                numeral_offset(bytes, i),
                numeral_offset(bytes, i) + decimal(bytes[i] as nat).len(),
            ) == decimal(bytes[i] as nat) && digits_value(
                t.subrange(numeral_offset(bytes, i), numeral_offset(bytes, i) + decimal(bytes[i] as nat).len()),
            ) == bytes[i] by {
            lemma_numeral_offset(bytes, i);
            assert(texts[i] == decimal(bytes[i] as nat));
            assert(join_offset(texts, 2, i) == join_offset(texts, ", "@.len(), i));
            law_decimal_reads_back(bytes[i] as nat);
        }
        assert forall|i: int|
            #![trigger numeral_offset(bytes, i)]
            0 < i < bytes.len() implies t.subrange(numeral_offset(bytes, i) - 2, numeral_offset(bytes, i))
                == ", "@ by {
            lemma_numeral_offset(bytes, i);
            assert(join_offset(texts, 2, i) == join_offset(texts, ", "@.len(), i));
        }
    }
}

impl Clone for ByteArray {
    fn clone(&self) -> (r: Self)
        ensures
            r@ == self@,
            r.spec_len() == self.spec_len(),
    {
        proof {
            use_type_invariant(self);
        }
        let bytes = self.1.clone();
        assert(bytes@ =~= self.1@);
        ByteArray(self.0, bytes)
    }
}

impl TryFrom<Vec<u8>> for ByteArray {
    type Error = TryFromIntError;

    fn try_from(bytes: Vec<u8>) -> (r: Result<Self, Self::Error>)
        ensures
            r is Ok <==> bytes@.len() <= u32::MAX,
            r matches Ok(a) ==> a@ == bytes@ && a.spec_len() == bytes@.len(),
    {
        match u32::try_from(bytes.len()) {
            Ok(len) => Ok(ByteArray(len, bytes)),
            Err(e) => Err(e),
        }
    }
}

impl TryFromSpecImpl<Vec<u8>> for ByteArray {
    open spec fn obeys_try_from_spec() -> bool {
        true
    }

    closed spec fn try_from_spec(bytes: Vec<u8>) -> Result<Self, TryFromIntError> {
        if bytes@.len() <= u32::MAX {
            Ok(ByteArray(bytes@.len() as u32, bytes))
        } else {
            Err(arbitrary())
        }
    }
}

impl From<ByteArray> for Vec<u8> {
    fn from(arr: ByteArray) -> (r: Vec<u8>)
        ensures
            r@ == arr@,
    {
        arr.1
    }
}

impl FromSpecImpl<ByteArray> for Vec<u8> {
    open spec fn obeys_from_spec() -> bool {
        true
    }

    closed spec fn from_spec(arr: ByteArray) -> Vec<u8> {
        arr.1
    }
}

/// A vector of at most `u32::MAX` bytes converts into a byte array and back
/// into the same bytes.
pub proof fn law_bytes_round_trip(bytes: Vec<u8>)
    ensures
        <ByteArray as TryFromSpec<Vec<u8>>>::try_from_spec(bytes) is Ok <==> bytes@.len()
            <= u32::MAX,
        <ByteArray as TryFromSpec<Vec<u8>>>::try_from_spec(bytes) matches Ok(a) ==> <Vec<
            u8,
        > as FromSpec<ByteArray>>::from_spec(a)@ == bytes@,
{
}

} // verus!
