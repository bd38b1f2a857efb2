//! AMQP field values and field arrays.
use vstd::prelude::*;
use vstd::utf8::encode_utf8;
use core::num::TryFromIntError;
use vstd::std_specs::convert::TryFromSpecImpl;
use vstd::std_specs::convert::FromSpecImpl;
use vstd::std_specs::convert::FromSpec;
use vstd::std_specs::convert::TryFromSpec;
use crate::byte_array::ByteArray;
use crate::decimal::DecimalValue;
use crate::error::Error;
use crate::field_table::FieldTable;
use crate::field_table::lemma_same_entries;
use crate::field_table::lemma_table_view;
use crate::short_str::ShortStr;
use crate::long_str::LongStr;
use crate::text::join;
use crate::text::join_offset;
use crate::text::lemma_framed_join;
use crate::field_table::sorted_entries;
use crate::field_table::lemma_sorted_distinct;
use crate::field_table::lemma_entry_in_map;
use crate::text::decimal;
use crate::text::signed_decimal;
use crate::text::push_decimal;
use crate::text::push_signed_decimal;

verus! {

/// AMQP field value, with the type tags of RabbitMQ.
///
/// The floating-point variants hold the IEEE 754 bit pattern of the number
/// (`f32::to_bits`, `f64::to_bits`).
#[derive(PartialEq, Debug)]
#[allow(non_camel_case_types)]
pub enum FieldValue {
    t(bool),
    b(i8),
    B(u8),
    s(i16),
    u(u16),
    I(i32),
    i(u32),
    l(i64),
    f(u32),
    d(u64),
    D(DecimalValue),
    S(LongStr),
    A(FieldArray),
    T(u64),
    F(FieldTable),
    V,
    x(ByteArray),
}

impl FieldValue {
    /// A long-string value holding `v`.  A `String` always becomes the
    /// long-string variant, the only string variant of RabbitMQ.
    pub fn from_string(v: String) -> (r: Self)
        requires
            encode_utf8(v@).len() <= u32::MAX,
        ensures
            r matches FieldValue::S(s) && s@ == v@,
    {
        FieldValue::S(LongStr::try_from(v).unwrap())
    }

    /// A long-string value holding `v`.
    pub fn from_str(v: &str) -> (r: Self)
        requires
            encode_utf8(v@).len() <= u32::MAX,
        ensures
            r matches FieldValue::S(s) && s@ == v@,
    {
        FieldValue::S(LongStr::try_from(v).unwrap())
    }

    /// The bool that the value holds, or an error when it holds another kind.
    pub fn try_into_bool(self) -> (r: Result<bool, Error>)
        ensures
            r is Ok <==> self is t,
            self matches FieldValue::t(b) ==> r == Ok::<bool, Error>(b),
            match bool_in(self) {
                Some(v) => r == Ok::<bool, Error>(v),
                None => r matches Err(e) && is_message(e, "not a bool"@),
            },
    {
        match self {
            FieldValue::t(v) => Ok(v),
            _ => Err(Error::Message("not a bool".to_string())),
        }
    }

    /// The table that the value holds, or an error when it holds another kind.
    pub fn try_into_table(self) -> (r: Result<FieldTable, Error>)
        ensures
            r is Ok <==> self is F,
            match table_in(self) {
                Some(v) => r == Ok::<FieldTable, Error>(v),
                None => r matches Err(e) && is_message(e, "not a FieldTable"@),
            },
    {
        match self {
            FieldValue::F(v) => Ok(v),
            _ => Err(Error::Message("not a FieldTable".to_string())),
        }
    }

    /// The long string that the value holds, or an error when it holds another kind.
    pub fn try_into_long_str(self) -> (r: Result<LongStr, Error>)
        ensures
            r is Ok <==> self is S,
            match long_str_in(self) {
                Some(v) => r == Ok::<LongStr, Error>(v),
                None => r matches Err(e) && is_message(e, "not a LongStr"@),
            },
    {
        match self {
            FieldValue::S(v) => Ok(v),
            _ => Err(Error::Message("not a LongStr".to_string())),
        }
    }

    /// The text of the long string that the value holds, or an error when it holds another kind.
    pub fn try_into_string(self) -> (r: Result<String, Error>)
        ensures
            r is Ok <==> self is S,
            match long_str_in(self) {
                Some(v) => r matches Ok(s) && s@ == v@,
                None => r matches Err(e) && is_message(e, "not a LongStr"@),
            },
    {
        match self {
            FieldValue::S(v) => Ok(v.into()),
            _ => Err(Error::Message("not a LongStr".to_string())),
        }
    }
}

impl From<bool> for FieldValue {
    fn from(v: bool) -> (r: Self)
        ensures
            r == FieldValue::t(v),
    {
        FieldValue::t(v)
    }
}

impl FromSpecImpl<bool> for FieldValue {
    open spec fn obeys_from_spec() -> bool {
        true
    }

    open spec fn from_spec(v: bool) -> FieldValue {
        FieldValue::t(v)
    }
}

impl From<FieldTable> for FieldValue {
    fn from(v: FieldTable) -> (r: Self)
        ensures
            r == FieldValue::F(v),
    {
        FieldValue::F(v)
    }
}

impl FromSpecImpl<FieldTable> for FieldValue {
    open spec fn obeys_from_spec() -> bool {
        true
    }

    open spec fn from_spec(v: FieldTable) -> FieldValue {
        FieldValue::F(v)
    }
}

impl From<LongStr> for FieldValue {
    fn from(v: LongStr) -> (r: Self)
        ensures
            r == FieldValue::S(v),
    {
        FieldValue::S(v)
    }
}

impl FromSpecImpl<LongStr> for FieldValue {
    open spec fn obeys_from_spec() -> bool {
        true
    }

    open spec fn from_spec(v: LongStr) -> FieldValue {
        FieldValue::S(v)
    }
}

/// The boolean that `v` holds, if it is a boolean.
pub open spec fn bool_in(v: FieldValue) -> Option<bool> {
    match v {
        FieldValue::t(b) => Some(b),
        _ => None,
    }
}

/// The table that `v` holds, if it is a table.
pub open spec fn table_in(v: FieldValue) -> Option<FieldTable> {
    match v {
        FieldValue::F(t) => Some(t),
        _ => None,
    }
}

/// The long string that `v` holds, if it is one.
pub open spec fn long_str_in(v: FieldValue) -> Option<LongStr> {
    match v {
        FieldValue::S(s) => Some(s),
        _ => None,
    }
}

/// A boolean, a table or a long string that becomes a field value is what
/// that value gives back.
pub proof fn law_from_then_try_into(b: bool, t: FieldTable, s: LongStr)
    ensures
        bool_in(<FieldValue as FromSpec<bool>>::from_spec(b)) == Some(b),
        table_in(<FieldValue as FromSpec<FieldTable>>::from_spec(t)) == Some(t),
        long_str_in(<FieldValue as FromSpec<LongStr>>::from_spec(s)) == Some(s),
{
}

/// Only a boolean value converts to a bool, and it gives its own boolean;
/// every other kind of value is refused.
pub proof fn law_only_booleans_convert(v: FieldValue)
    ensures
        bool_in(v) is Some <==> v is t,
        v matches FieldValue::t(b) ==> bool_in(v) == Some(b),
{
}

/// Only a table value converts to a table, and it gives its own table; every
/// other kind of value is refused.
pub proof fn law_only_tables_convert(v: FieldValue)
    ensures
        table_in(v) is Some <==> v is F,
        v matches FieldValue::F(x) ==> table_in(v) == Some(x),
{
}

/// Only a long-string value converts to a long string (or a `String`), and it
/// gives its own string; every other kind of value is refused.
pub proof fn law_only_long_strings_convert(v: FieldValue)
    ensures
        long_str_in(v) is Some <==> v is S,
        v matches FieldValue::S(x) ==> long_str_in(v) == Some(x),
{
}

/// A vector of at most `u32::MAX` values converts into a field array and
/// back into the same values.
pub proof fn law_array_round_trip(values: Vec<FieldValue>)
    ensures
        <FieldArray as TryFromSpec<Vec<FieldValue>>>::try_from_spec(values) is Ok <==> values@.len()
            <= u32::MAX,
        <FieldArray as TryFromSpec<Vec<FieldValue>>>::try_from_spec(values) matches Ok(a) ==> <Vec<
            FieldValue,
        > as FromSpec<FieldArray>>::from_spec(a)@ == values@,
{
}

/// `e` is an error message with the text `text`.
pub open spec fn is_message(e: Error, text: Seq<char>) -> bool {
    e matches Error::Message(m) && m@ == text
}

impl TryFrom<FieldValue> for bool {
    type Error = Error;

    fn try_from(v: FieldValue) -> (r: Result<bool, Error>)
        ensures
            r is Ok <==> v is t,
            v matches FieldValue::t(b) ==> r == Ok::<bool, Error>(b),
            match bool_in(v) {
                Some(x) => r == Ok::<bool, Error>(x),
                None => r matches Err(e) && is_message(e, "not a bool"@),
            },
    {
        v.try_into_bool()
    }
}

impl TryFromSpecImpl<FieldValue> for bool {
    // The error carries a freshly made message, which no spec value names;
    // the contract of `try_from` above states the result instead.
    open spec fn obeys_try_from_spec() -> bool {
        false
    }

    closed spec fn try_from_spec(v: FieldValue) -> Result<bool, Error> {
        arbitrary()
    }
}

impl TryFrom<FieldValue> for FieldTable {
    type Error = Error;

    fn try_from(v: FieldValue) -> (r: Result<FieldTable, Error>)
        ensures
            r is Ok <==> v is F,
            match table_in(v) {
                Some(x) => r == Ok::<FieldTable, Error>(x),
                None => r matches Err(e) && is_message(e, "not a FieldTable"@),
            },
    {
        v.try_into_table()
    }
}

impl TryFromSpecImpl<FieldValue> for FieldTable {
    // As for `bool`: the contract of `try_from` states the result.
    open spec fn obeys_try_from_spec() -> bool {
        false
    }

    closed spec fn try_from_spec(v: FieldValue) -> Result<FieldTable, Error> {
        arbitrary()
    }
}

impl TryFrom<FieldValue> for LongStr {
    type Error = Error;

    fn try_from(v: FieldValue) -> (r: Result<LongStr, Error>)
        ensures
            r is Ok <==> v is S,
            match long_str_in(v) {
                Some(x) => r == Ok::<LongStr, Error>(x),
                None => r matches Err(e) && is_message(e, "not a LongStr"@),
            },
    {
        v.try_into_long_str()
    }
}

impl TryFromSpecImpl<FieldValue> for LongStr {
    // As for `bool`: the contract of `try_from` states the result.
    open spec fn obeys_try_from_spec() -> bool {
        false
    }

    closed spec fn try_from_spec(v: FieldValue) -> Result<LongStr, Error> {
        arbitrary()
    }
}

impl TryFrom<FieldValue> for String {
    type Error = Error;

    fn try_from(v: FieldValue) -> (r: Result<String, Error>)
        ensures
            r is Ok <==> v is S,
            match long_str_in(v) {
                Some(x) => r matches Ok(t) && t@ == x@,
                None => r matches Err(e) && is_message(e, "not a LongStr"@),
            },
    {
        v.try_into_string()
    }
}

impl TryFromSpecImpl<FieldValue> for String {
    // As for `bool`: the contract of `try_from` states the result.
    open spec fn obeys_try_from_spec() -> bool {
        false
    }

    closed spec fn try_from_spec(v: FieldValue) -> Result<String, Error> {
        arbitrary()
    }
}

/// AMQP field array: a 32-bit length followed by that many field values
/// (RabbitMQ's layout).
#[derive(PartialEq, Debug)]
pub struct FieldArray(u32, Vec<FieldValue>);

impl View for FieldArray {
    type V = Seq<FieldValue>;

    closed spec fn view(&self) -> Seq<FieldValue> {
        self.1@
    }
}

impl FieldArray {
    #[verifier::type_invariant]
    spec fn length_matches(self) -> bool {
        self.0 == self.1@.len()
    }

    /// The 32-bit length carried with the items.
    pub closed spec fn spec_len(self) -> u32 {
        self.0
    }

    /// The 32-bit length carried with the items: the number of items it holds.
    pub fn len(&self) -> (n: u32)
        ensures
            n == self.spec_len(),
            n == self@.len(),
    {
        proof {
            use_type_invariant(self);
        }
        self.0
    }

    /// An empty array.
    pub fn new() -> (r: Self)
        ensures
            r@ == Seq::<FieldValue>::empty(),
            r.spec_len() == 0,
    {
        Self(0, Vec::new())
    }

    /// The text that the `Display` of an array gives, from the texts of its
    /// items: `[ `, the items separated by `, `, then ` ]`.
    pub open spec fn display(items: Seq<Seq<char>>) -> Seq<char> {
        "[ "@ + join(items, ", "@) + " ]"@
    }

    /// Lays out the texts of the items of an array as its `Display` does.  An
    /// empty array has no such text: its `Display` panics.
    pub fn format_items(items: &Vec<String>) -> (r: String)
        requires
            items@.len() > 0,
        ensures
            r@ == FieldArray::display(items@.map_values(|s: String| s@)),
    {
        let ghost texts = items@.map_values(|s: String| s@);
        let mut out = String::from_str("[ ");
        let mut i: usize = 0;
        while i < items.len()
            invariant
                0 < items@.len(),
                i <= items@.len(),
                texts == items@.map_values(|s: String| s@),
                out@ == "[ "@ + join(texts.take(i as int), ", "@),
            decreases items@.len() - i,
        {
            if i > 0 {
                out.append(", ");
            }
            out.append(items[i].as_str());
            proof {
                assert(texts.take(i + 1).drop_last() =~= texts.take(i as int));
                if i == 0 {
                    assert(texts.take(0) =~= Seq::<Seq<char>>::empty());
                }
            }
            i = i + 1;
        }
        assert(texts.take(i as int) =~= texts);
        out.append(" ]");
        out
    }
}

impl Clone for FieldArray {
    fn clone(&self) -> (r: Self)
        ensures
            r@.len() == self@.len(),
            r.spec_len() == self.spec_len(),
            forall|i: int| 0 <= i < self@.len() ==> same_value(#[trigger] r@[i], self@[i]),
    {
        proof {
            use_type_invariant(self);
        }
        let mut items: Vec<FieldValue> = Vec::new();
        let mut i: usize = 0;
        while i < self.1.len()
            invariant
                i <= self.1@.len(),
                items@.len() == i,
                forall|j: int| 0 <= j < i ==> same_value(#[trigger] items@[j], self.1@[j]),
            decreases self.1@.len() - i,
        {
            items.push(clone_value(&self.1[i]));
            i = i + 1;
        }
        FieldArray(self.0, items)
    }
}

impl Clone for FieldValue {
    fn clone(&self) -> (r: Self)
        ensures
            same_value(r, *self),
    {
        clone_value(self)
    }
}

/// The text given for the number with the bit pattern `key`: that of the first
/// pair in `texts` whose bits are `key`, or the empty text when there is none.
pub open spec fn float_text<K>(texts: Seq<(K, Seq<char>)>, key: K) -> Seq<char>
    decreases texts.len(),
{
    if texts.len() == 0 {
        Seq::empty()
    } else if texts[0].0 == key {
        texts[0].1
    } else {
        float_text(texts.drop_first(), key)
    }
}

/// The pairs of bit patterns and texts, with each text by its characters.
pub open spec fn text_views32(texts: Seq<(u32, String)>) -> Seq<(u32, Seq<char>)> {
    texts.map_values(|p: (u32, String)| (p.0, p.1@))
}

/// The pairs of bit patterns and texts, with each text by its characters.
pub open spec fn text_views64(texts: Seq<(u64, String)>) -> Seq<(u64, Seq<char>)> {
    texts.map_values(|p: (u64, String)| (p.0, p.1@))
}

/// The text that the `Display` of `v` gives, where a 32-bit float shows as
/// its text in `f32s` and a 64-bit float as its text in `f64s`: booleans as
/// `true` or `false`, integers in decimal, `V` as `()`, decimals, strings and
/// byte arrays as their own text, arrays and tables laid out from the texts of
/// their items (the entries of a table in their order).
pub open spec fn display(v: FieldValue, f32s: Seq<(u32, Seq<char>)>, f64s: Seq<(u64, Seq<char>)>) -> Seq<char>
    decreases v,
    via display_decreases
{
    match v {
        FieldValue::t(x) => if x {
            "true"@
        } else {
            "false"@
        },
        FieldValue::b(x) => signed_decimal(x as int),
        FieldValue::B(x) => decimal(x as nat),
        FieldValue::s(x) => signed_decimal(x as int),
        FieldValue::u(x) => decimal(x as nat),
        FieldValue::I(x) => signed_decimal(x as int),
        FieldValue::i(x) => decimal(x as nat),
        FieldValue::l(x) => signed_decimal(x as int),
        FieldValue::f(x) => float_text(f32s, x),
        FieldValue::d(x) => float_text(f64s, x),
        FieldValue::D(x) => DecimalValue::display(x.spec_scale(), x.spec_value()),
        FieldValue::S(x) => x@,
        FieldValue::A(x) => FieldArray::display(item_texts(x, f32s, f64s)),
        FieldValue::T(x) => decimal(x as nat),
        FieldValue::F(x) => FieldTable::display(entry_texts(x, f32s, f64s)),
        FieldValue::V => "()"@,
        FieldValue::x(x) => ByteArray::display(x@),
    }
}

/// The texts of the items of `x`, in order (see `display`).
pub open spec fn item_texts(x: FieldArray, f32s: Seq<(u32, Seq<char>)>, f64s: Seq<(u64, Seq<char>)>) -> Seq<
    Seq<char>,
>
    decreases x,
    via item_texts_decreases
{
    Seq::new(
        x@.len(),
        |i: int|
            if 0 <= i < x@.len() {
                display(x@[i], f32s, f64s)
            } else {
                Seq::empty()
            },
    )
}

/// The texts of the names and values of the entries of `x`, in order (see
/// `display`).
pub open spec fn entry_texts(x: FieldTable, f32s: Seq<(u32, Seq<char>)>, f64s: Seq<(u64, Seq<char>)>) -> Seq<
    (Seq<char>, Seq<char>),
>
    decreases x,
    via entry_texts_decreases
{
    Seq::new(
        x.entries().len(),
        |i: int|
            if 0 <= i < x.entries().len() {
                (x.entries()[i].0@, display(x.entries()[i].1, f32s, f64s))
            } else {
                (Seq::empty(), Seq::empty())
            },
    )
}

#[via_fn]
proof fn item_texts_decreases(x: FieldArray, f32s: Seq<(u32, Seq<char>)>, f64s: Seq<(u64, Seq<char>)>) {
    assert forall|i: int| 0 <= i < x@.len() implies decreases_to!(x => #[trigger] x@[i]) by {
        assert(decreases_to!(x => x.1));
        assert(decreases_to!(x.1 => x.1@));
        assert(decreases_to!(x.1@ => x.1@[i]));
    }
}

#[via_fn]
proof fn entry_texts_decreases(x: FieldTable, f32s: Seq<(u32, Seq<char>)>, f64s: Seq<(u64, Seq<char>)>) {
    lemma_table_view(x);
    assert forall|i: int| 0 <= i < x.entries().len() implies decreases_to!(x => #[trigger] x.entries()[i].1) by {
        assert(decreases_to!(x => x.0));
        assert(decreases_to!(x.0 => x.0@));
        assert(decreases_to!(x.0@ => x.0@[i]));
        assert(decreases_to!(x.0@[i] => x.0@[i].1));
    }
}

#[via_fn]
proof fn display_decreases(v: FieldValue, f32s: Seq<(u32, Seq<char>)>, f64s: Seq<(u64, Seq<char>)>) {
    match v {
        FieldValue::A(x) => {
            assert(decreases_to!(v => x));
        },
        FieldValue::F(x) => {
            assert(decreases_to!(v => x));
        },
        _ => {},
    }
}

/// `v` has a text: no array or table inside it (or it itself) is empty,
/// where the `Display` of an array or a table panics.
pub open spec fn displayable(v: FieldValue) -> bool
    decreases v,
    via displayable_decreases
{
    match v {
        FieldValue::A(x) => {
            &&& x@.len() > 0
            &&& forall|i: int| 0 <= i < x@.len() ==> displayable(#[trigger] x@[i])
        },
        FieldValue::F(x) => {
            &&& x.entries().len() > 0
            &&& forall|i: int| 0 <= i < x.entries().len() ==> displayable(#[trigger] x.entries()[i].1)
        },
        _ => true,
    }
}

#[via_fn]
proof fn displayable_decreases(v: FieldValue) {
    lemma_nested_decrease(v);
}

/// The items of an array and the values of a table sort below the value that
/// holds them.
proof fn lemma_nested_decrease(v: FieldValue)
    ensures
        v matches FieldValue::A(y) ==> forall|i: int|
            0 <= i < y@.len() ==> decreases_to!(v => #[trigger] y@[i]),
        v matches FieldValue::F(y) ==> forall|i: int|
            0 <= i < y.entries().len() ==> decreases_to!(v => #[trigger] y.entries()[i].1),
{
    match v {
        FieldValue::A(y) => {
            assert forall|i: int| 0 <= i < y@.len() implies decreases_to!(v => #[trigger] y@[i]) by {
                assert(decreases_to!(v => y));
                assert(decreases_to!(y => y.1));
                assert(decreases_to!(y.1 => y.1@));
                assert(decreases_to!(y.1@ => y.1@[i]));
            }
        },
        FieldValue::F(y) => {
            lemma_table_view(y);
            assert forall|i: int| 0 <= i < y.entries().len() implies decreases_to!(v => #[trigger] y.entries()[i].1) by {
                assert(decreases_to!(v => y));
                assert(decreases_to!(y => y.0));
                assert(decreases_to!(y.0 => y.0@));
                assert(decreases_to!(y.0@ => y.0@[i]));
                assert(decreases_to!(y.0@[i] => y.0@[i].1));
            }
        },
        _ => {},
    }
}

/// The text in `texts` for the bit pattern `key` (see `float_text`).
fn find_text32(texts: &Vec<(u32, String)>, key: u32) -> (r: String)
    ensures
        r@ == float_text(text_views32(texts@), key),
{
    let ghost views = text_views32(texts@);
    let mut i: usize = 0;
    assert(views.skip(0) =~= views);
    while i < texts.len()
        invariant
            i <= texts@.len(),
            views == text_views32(texts@),
            float_text(views, key) == float_text(views.skip(i as int), key),
        decreases texts@.len() - i,
    {
        assert(views.skip(i as int)[0] == views[i as int]);
        if texts[i].0 == key {
            return texts[i].1.clone();
        }
        assert(views.skip(i as int).drop_first() =~= views.skip(i + 1));
        i = i + 1;
    }
    assert(views.skip(i as int).len() == 0);
    String::new()
}

/// The text in `texts` for the bit pattern `key` (see `float_text`).
fn find_text64(texts: &Vec<(u64, String)>, key: u64) -> (r: String)
    ensures
        r@ == float_text(text_views64(texts@), key),
{
    let ghost views = text_views64(texts@);
    let mut i: usize = 0;
    assert(views.skip(0) =~= views);
    while i < texts.len()
        invariant
            i <= texts@.len(),
            views == text_views64(texts@),
            float_text(views, key) == float_text(views.skip(i as int), key),
        decreases texts@.len() - i,
    {
        assert(views.skip(i as int)[0] == views[i as int]);
        if texts[i].0 == key {
            return texts[i].1.clone();
        }
        assert(views.skip(i as int).drop_first() =~= views.skip(i + 1));
        i = i + 1;
    }
    assert(views.skip(i as int).len() == 0);
    String::new()
}

impl FieldValue {
    /// Whether the value has a text: no array or table in it is empty.
    #[verifier::loop_isolation(false)]
    pub fn has_text(&self) -> (r: bool)
        ensures
            r == displayable(*self),
        decreases self,
    {
        proof {
            lemma_nested_decrease(*self);
        }
        match self {
            FieldValue::A(arr) => {
                if arr.1.len() == 0 {
                    return false;
                }
                let mut i: usize = 0;
                while i < arr.1.len()
                    invariant
                        i <= arr.1@.len(),
                        arr@ == arr.1@,
                        forall|j: int| 0 <= j < i ==> displayable(#[trigger] arr@[j]),
                    decreases arr.1@.len() - i,
                {
                    if !arr.1[i].has_text() {
                        return false;
                    }
                    i = i + 1;
                }
                true
            },
            FieldValue::F(table) => {
                proof {
                    lemma_table_view(*table);
                }
                if table.0.len() == 0 {
                    return false;
                }
                let mut i: usize = 0;
                while i < table.0.len()
                    invariant
                        i <= table.0@.len(),
                        table.entries() == table.0@,
                        forall|j: int| 0 <= j < i ==> displayable(#[trigger] table.entries()[j].1),
                    decreases table.0@.len() - i,
                {
                    if !table.0[i].1.has_text() {
                        return false;
                    }
                    i = i + 1;
                }
                true
            },
            _ => true,
        }
    }

    /// The text of the value, as its `Display` shows it, with the texts of the
    /// floats inside it given: a 32-bit float shows as the text paired with its
    /// bit pattern in `f32_texts`, a 64-bit float as that in `f64_texts`.  An
    /// empty array or table inside has no text: its `Display` panics.
    #[verifier::loop_isolation(false)]
    pub fn to_text(&self, f32_texts: &Vec<(u32, String)>, f64_texts: &Vec<(u64, String)>) -> (r: String)
        requires
            displayable(*self),
        ensures
            r@ == display(*self, text_views32(f32_texts@), text_views64(f64_texts@)),
        decreases self,
    {
        let ghost f32s = text_views32(f32_texts@);
        let ghost f64s = text_views64(f64_texts@);
        proof {
            lemma_nested_decrease(*self);
        }
        match self {
            FieldValue::t(x) => {
                if *x {
                    String::from_str("true")
                } else {
                    String::from_str("false")
                }
            },
            FieldValue::b(x) => {
                let mut out = String::new();
                push_signed_decimal(&mut out, *x as i64);
                out
            },
            FieldValue::B(x) => {
                let mut out = String::new();
                push_decimal(&mut out, *x as u64);
                out
            },
            FieldValue::s(x) => {
                let mut out = String::new();
                push_signed_decimal(&mut out, *x as i64);
                out
            },
            FieldValue::u(x) => {
                let mut out = String::new();
                push_decimal(&mut out, *x as u64);
                out
            },
            FieldValue::I(x) => {
                let mut out = String::new();
                push_signed_decimal(&mut out, *x as i64);
                out
            },
            FieldValue::i(x) => {
                let mut out = String::new();
                push_decimal(&mut out, *x as u64);
                out
            },
            FieldValue::l(x) => {
                let mut out = String::new();
                push_signed_decimal(&mut out, *x);
                out
            },
            FieldValue::f(x) => find_text32(f32_texts, *x),
            FieldValue::d(x) => find_text64(f64_texts, *x),
            FieldValue::D(x) => x.to_string(),
            FieldValue::S(x) => x.to_string(),
            FieldValue::A(arr) => {
                let ghost want = item_texts(*arr, f32s, f64s);
                let mut items: Vec<String> = Vec::new();
                let mut i: usize = 0;
                while i < arr.1.len()
                    invariant
                        i <= arr.1@.len(),
                        arr@ == arr.1@,
                        items@.len() == i,
                        forall|j: int| 0 <= j < i ==> (#[trigger] items@[j])@ == want[j],
                    decreases arr.1@.len() - i,
                {
                    items.push(arr.1[i].to_text(f32_texts, f64_texts));
                    i = i + 1;
                }
                assert(items@.map_values(|t: String| t@) =~= want);
                FieldArray::format_items(&items)
            },
            FieldValue::T(x) => {
                let mut out = String::new();
                push_decimal(&mut out, *x);
                out
            },
            FieldValue::F(table) => {
                proof {
                    lemma_table_view(*table);
                }
                let ghost want = entry_texts(*table, f32s, f64s);
                let mut texts: Vec<(String, String)> = Vec::new();
                let mut i: usize = 0;
                while i < table.0.len()
                    invariant
                        i <= table.0@.len(),
                        table.entries() == table.0@,
                        texts@.len() == i,
                        forall|j: int| 0 <= j < i ==> (#[trigger] texts@[j]).0@ == want[j].0
                            && texts@[j].1@ == want[j].1,
                    decreases table.0@.len() - i,
                {
                    let name = table.0[i].0.to_string();
                    let value = table.0[i].1.to_text(f32_texts, f64_texts);
                    texts.push((name, value));
                    i = i + 1;
                }
                assert(texts@.map_values(|e: (String, String)| (e.0@, e.1@)) =~= want);
                FieldTable::format_entries(&texts)
            },
            FieldValue::V => String::from_str("()"),
            FieldValue::x(x) => x.to_string(),
        }
    }
}

/// `c` holds the same value as `v`, all the way down: the same variant, the
/// same number, decimal, text or bytes; for an array, the same number of items,
/// each the same value as its counterpart; for a table, the same names, each
/// with the same value as its counterpart.
pub open spec fn same_value(c: FieldValue, v: FieldValue) -> bool
    decreases v,
    via same_value_decreases
{
    match (c, v) {
        (FieldValue::t(x), FieldValue::t(y)) => x == y,
        (FieldValue::b(x), FieldValue::b(y)) => x == y,
        (FieldValue::B(x), FieldValue::B(y)) => x == y,
        (FieldValue::s(x), FieldValue::s(y)) => x == y,
        (FieldValue::u(x), FieldValue::u(y)) => x == y,
        (FieldValue::I(x), FieldValue::I(y)) => x == y,
        (FieldValue::i(x), FieldValue::i(y)) => x == y,
        (FieldValue::l(x), FieldValue::l(y)) => x == y,
        (FieldValue::f(x), FieldValue::f(y)) => x == y,
        (FieldValue::d(x), FieldValue::d(y)) => x == y,
        (FieldValue::D(x), FieldValue::D(y)) => x == y,
        (FieldValue::S(x), FieldValue::S(y)) => x@ == y@,
        (FieldValue::A(x), FieldValue::A(y)) => {
            &&& x@.len() == y@.len()
            &&& forall|i: int| 0 <= i < y@.len() ==> same_value(#[trigger] x@[i], y@[i])
        },
        (FieldValue::T(x), FieldValue::T(y)) => x == y,
        (FieldValue::F(x), FieldValue::F(y)) => {
            &&& x@.dom() == y@.dom()
            &&& forall|k: Seq<char>| #[trigger] y@.contains_key(k) ==> same_value(x@[k], y@[k])
        },
        (FieldValue::V, FieldValue::V) => true,
        (FieldValue::x(x), FieldValue::x(y)) => x@ == y@,
        _ => false,
    }
}

#[via_fn]
proof fn same_value_decreases(c: FieldValue, v: FieldValue) {
    match v {
        FieldValue::A(y) => {
            assert forall|i: int| 0 <= i < y@.len() implies decreases_to!(v => y@[i]) by {
                assert(decreases_to!(v => y));
                assert(decreases_to!(y => y.1));
                assert(decreases_to!(y.1 => y.1@));
                assert(decreases_to!(y.1@ => y.1@[i]));
            }
        },
        FieldValue::F(y) => {
            lemma_table_view(y);
            assert forall|k: Seq<char>| y@.contains_key(k) implies decreases_to!(v => y@[k]) by {
                let j = choose|j: int| 0 <= j < y.0@.len() && #[trigger] y.0@[j].0@ == k;
                assert(decreases_to!(v => y));
                assert(decreases_to!(y => y.0));
                assert(decreases_to!(y.0 => y.0@));
                assert(decreases_to!(y.0@ => y.0@[j]));
                assert(decreases_to!(y.0@[j] => y.0@[j].1));
            }
        },
        _ => {},
    }
}

/// A copy of `v`, made item by item through arrays and tables.
#[verifier::loop_isolation(false)]
fn clone_value(v: &FieldValue) -> (r: FieldValue)
    ensures
        same_value(r, *v),
    decreases v,
{
    match v {
        FieldValue::t(x) => FieldValue::t(*x),
        FieldValue::b(x) => FieldValue::b(*x),
        FieldValue::B(x) => FieldValue::B(*x),
        FieldValue::s(x) => FieldValue::s(*x),
        FieldValue::u(x) => FieldValue::u(*x),
        FieldValue::I(x) => FieldValue::I(*x),
        FieldValue::i(x) => FieldValue::i(*x),
        FieldValue::l(x) => FieldValue::l(*x),
        FieldValue::f(x) => FieldValue::f(*x),
        FieldValue::d(x) => FieldValue::d(*x),
        FieldValue::D(x) => FieldValue::D(x.clone()),
        FieldValue::S(x) => FieldValue::S(x.clone()),
        FieldValue::A(arr) => {
            proof {
                use_type_invariant(arr);
            }
            let mut items: Vec<FieldValue> = Vec::new();
            let mut i: usize = 0;
            while i < arr.1.len()
                invariant
                    i <= arr.1@.len(),
                    items@.len() == i,
                    forall|j: int| 0 <= j < i ==> same_value(#[trigger] items@[j], arr.1@[j]),
                decreases arr.1@.len() - i,
            {
                proof {
                    assert(decreases_to!(*v => v->A_0));
                    assert(decreases_to!(*arr => arr.1));
                    assert(decreases_to!(arr.1 => arr.1@));
                    assert(decreases_to!(arr.1@ => arr.1@[i as int]));
                }
                items.push(clone_value(&arr.1[i]));
                i = i + 1;
            }
            FieldValue::A(FieldArray(arr.0, items))
        },
        FieldValue::T(x) => FieldValue::T(*x),
        FieldValue::F(table) => {
            proof {
                use_type_invariant(table);
            }
            let mut entries: Vec<(ShortStr, FieldValue)> = Vec::new();
            let mut i: usize = 0;
            while i < table.0.len()
                invariant
                    i <= table.0@.len(),
                    entries@.len() == i,
                    forall|j: int| 0 <= j < i ==> (#[trigger] entries@[j]).0@ == table.0@[j].0@,
                    forall|j: int| 0 <= j < i ==> same_value((#[trigger] entries@[j]).1, table.0@[j].1),
                decreases table.0@.len() - i,
            {
                proof {
                    assert(decreases_to!(*v => v->F_0));
                    assert(decreases_to!(*table => table.0));
                    assert(decreases_to!(table.0 => table.0@));
                    assert(decreases_to!(table.0@ => table.0@[i as int]));
                    assert(decreases_to!(table.0@[i as int] => table.0@[i as int].1));
                }
                let name = table.0[i].0.clone();
                let value = clone_value(&table.0[i].1);
                entries.push((name, value));
                i = i + 1;
            }
            proof {
                lemma_same_entries(table.0@, entries@);
                lemma_table_view(*table);
            }
            let copy = FieldTable(entries);
            proof {
                lemma_table_view(copy);
            }
            FieldValue::F(copy)
        },
        FieldValue::V => FieldValue::V,
        FieldValue::x(x) => FieldValue::x(x.clone()),
    }
}

impl TryFrom<Vec<FieldValue>> for FieldArray {
    type Error = TryFromIntError;

    fn try_from(values: Vec<FieldValue>) -> (r: Result<Self, Self::Error>)
        ensures
            r is Ok <==> values@.len() <= u32::MAX,
            r matches Ok(a) ==> a@ == values@ && a.spec_len() == values@.len(),
    {
        match u32::try_from(values.len()) {
            Ok(len) => Ok(FieldArray(len, values)),
            Err(e) => Err(e),
        }
    }
}

impl TryFromSpecImpl<Vec<FieldValue>> for FieldArray {
    open spec fn obeys_try_from_spec() -> bool {
        true
    }

    closed spec fn try_from_spec(values: Vec<FieldValue>) -> Result<Self, TryFromIntError> {
        if values@.len() <= u32::MAX {
            Ok(FieldArray(values@.len() as u32, values))
        } else {
            Err(arbitrary())
        }
    }
}

impl From<FieldArray> for Vec<FieldValue> {
    fn from(arr: FieldArray) -> (r: Vec<FieldValue>)
        ensures
            r@ == arr@,
    {
        arr.1
    }
}

impl FromSpecImpl<FieldArray> for Vec<FieldValue> {
    open spec fn obeys_from_spec() -> bool {
        true
    }

    closed spec fn from_spec(arr: FieldArray) -> Vec<FieldValue> {
        arr.1
    }
}

/// The text of an array lists every item once, in order: `[ `, then each
/// item's text at its offset, `, ` between each two of them, and ` ]`.
pub proof fn law_array_text_shows_every_item(items: Seq<Seq<char>>)
    requires
        items.len() > 0,
    ensures
        FieldArray::display(items).len() == 2 + join_offset(items, 2, items.len() - 1)
            + items.last().len() + 2,
        FieldArray::display(items).subrange(0, 2) == "[ "@,
        FieldArray::display(items).subrange(
            FieldArray::display(items).len() - 2,
            FieldArray::display(items).len() as int,
        ) == " ]"@,
        forall|i: int|
            #![trigger join_offset(items, 2, i)]
            0 <= i < items.len() ==> FieldArray::display(items).subrange(
                2 + join_offset(items, 2, i),
                2 + join_offset(items, 2, i) + items[i].len(),
            ) == items[i],
        forall|i: int|
            #![trigger join_offset(items, 2, i)]
            0 < i < items.len() ==> FieldArray::display(items).subrange(
                join_offset(items, 2, i),
                2 + join_offset(items, 2, i),
            ) == ", "@,
{
    reveal_strlit("[ ");
    reveal_strlit(" ]");
    reveal_strlit(", ");
    lemma_framed_join("[ "@, items, ", "@, " ]"@);
    assert(", "@.len() == 2);
}

/// Each entry of a table has its text in the table's text: the names listed
/// are those of the table, each exactly once, each with the text of the value
/// that the table holds under it.
pub proof fn law_table_entry_texts(x: FieldTable, f32s: Seq<(u32, Seq<char>)>, f64s: Seq<(u64, Seq<char>)>)
    requires
        sorted_entries(x.entries()),
    ensures
        entry_texts(x, f32s, f64s).len() == x.entries().len(),
        forall|k: Seq<char>|
            #[trigger] x@.contains_key(k) ==> exists|i: int|
                0 <= i < entry_texts(x, f32s, f64s).len() && #[trigger] entry_texts(x, f32s, f64s)[i].0 == k,
        forall|i: int|
            0 <= i < entry_texts(x, f32s, f64s).len() ==> x@.contains_key(
                #[trigger] entry_texts(x, f32s, f64s)[i].0,
            ) && entry_texts(x, f32s, f64s)[i].1 == display(x@[entry_texts(x, f32s, f64s)[i].0], f32s, f64s),
        forall|i: int, j: int|
            0 <= i < j < entry_texts(x, f32s, f64s).len() ==> #[trigger] entry_texts(x, f32s, f64s)[i].0
                != #[trigger] entry_texts(x, f32s, f64s)[j].0,
{
    lemma_table_view(x);
    let s = x.entries();
    let e = entry_texts(x, f32s, f64s);
    lemma_sorted_distinct(s);
    assert forall|k: Seq<char>| #[trigger] x@.contains_key(k) implies exists|i: int|
        0 <= i < e.len() && #[trigger] e[i].0 == k by {
        let i = choose|i: int| 0 <= i < s.len() && #[trigger] s[i].0@ == k;
        assert(e[i].0 == k);
    }
    assert forall|i: int| 0 <= i < e.len() implies x@.contains_key(#[trigger] e[i].0) && e[i].1 == display(
        x@[e[i].0],
        f32s,
        f64s,
    ) by {
        lemma_entry_in_map(s, i);
    }
    assert forall|i: int, j: int| 0 <= i < j < e.len() implies #[trigger] e[i].0 != #[trigger] e[j].0 by {
        assert(e[i].0 == s[i].0@);
        assert(e[j].0 == s[j].0@);
    }
}

} // verus!
