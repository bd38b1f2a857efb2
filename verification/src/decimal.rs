//! The AMQP decimal value.
use vstd::prelude::*;
use crate::text::decimal;
use crate::text::signed_decimal;
use crate::text::push_decimal;
use crate::text::push_signed_decimal;
use crate::text::all_digits;
use crate::text::digits_value;
use crate::text::signed_value;
use crate::text::law_decimal_reads_back;
use crate::text::law_signed_decimal_reads_back;

verus! {

/// AMQP decimal: a scale octet and a signed 32-bit value, read as
/// `value / 10^scale` (RabbitMQ reads the value as signed).
#[derive(PartialEq, Eq, Structural, Debug)]
pub struct DecimalValue(u8, i32);

impl DecimalValue {
    /// The scale (number of decimal places).
    pub closed spec fn spec_scale(self) -> u8 {
        self.0
    }

    /// The unscaled value.
    pub closed spec fn spec_value(self) -> i32 {
        self.1
    }

    /// The text that `to_string` gives for a decimal with this scale and value.
    pub open spec fn display(scale: u8, value: i32) -> Seq<char> {
        "Decimal("@ + decimal(scale as nat) + ", "@ + signed_decimal(value as int) + ")"@
    }

    pub fn new(scale: u8, value: i32) -> (r: Self)
        ensures
            r.spec_scale() == scale,
            r.spec_value() == value,
    {
        Self(scale, value)
    }

    /// The scale (number of decimal places).
    pub fn scale(&self) -> (r: u8)
        ensures
            r == self.spec_scale(),
    {
        self.0
    }

    /// The unscaled value.
    pub fn value(&self) -> (r: i32)
        ensures
            r == self.spec_value(),
    {
        self.1
    }

    /// The text of the decimal, as its `Display` shows it: `Decimal(scale, value)`.
    pub fn to_string(&self) -> (r: String)
        ensures
            r@ == DecimalValue::display(self.spec_scale(), self.spec_value()),
    {
        let mut out = String::from_str("Decimal(");
        push_decimal(&mut out, self.0 as u64);
        out.append(", ");
        push_signed_decimal(&mut out, self.1 as i64);
        out.append(")");
        out
    }
}

/// Two decimals are equal exactly when their scales and their values are
/// equal; so `new` gives equal decimals exactly for equal arguments.
pub proof fn law_decimal_equality(a: DecimalValue, b: DecimalValue)
    ensures
        a == b <==> (a.spec_scale() == b.spec_scale() && a.spec_value() == b.spec_value()),
{
}

/// The text of a decimal reads back as its scale and its value: after
/// `Decimal(` come the digits of the scale, then `, `, then the value's
/// numeral (starting with `-` exactly when the value is negative), then `)`.
pub proof fn law_decimal_text_reads_back(scale: u8, value: i32)
    ensures
        ({
            let t = DecimalValue::display(scale, value);
            let m = decimal(scale as nat).len() as int;
            &&& t.len() > m + 11
            &&& t.subrange(0, 8) == "Decimal("@
            &&& all_digits(t.subrange(8, 8 + m))
            &&& digits_value(t.subrange(8, 8 + m)) == scale
            &&& t.subrange(8 + m, 10 + m) == ", "@
            &&& signed_value(t.subrange(10 + m, t.len() - 1)) == value
            &&& (t[10 + m] == '-' <==> value < 0)
            &&& t.last() == ')'
        }),
{
    reveal_strlit("Decimal(");
    reveal_strlit(", ");
    reveal_strlit(")");
    let d = decimal(scale as nat);
    let sv = signed_decimal(value as int);
    let t = DecimalValue::display(scale, value);
    let m = d.len() as int;
    law_decimal_reads_back(scale as nat);
    law_signed_decimal_reads_back(value as int);
    assert(t == "Decimal("@ + d + ", "@ + sv + ")"@);
    assert(t.subrange(0, 8) =~= "Decimal("@);
    assert(t.subrange(8, 8 + m) =~= d);
    assert(t.subrange(8 + m, 10 + m) =~= ", "@);
    assert(t.subrange(10 + m, t.len() - 1) =~= sv);
    assert(t[10 + m] == sv[0]);
}

/// Two decimals have the same text exactly when they have the same scale and
/// the same value.
pub proof fn law_decimal_text_injective(s1: u8, v1: i32, s2: u8, v2: i32)
    ensures
        DecimalValue::display(s1, v1) == DecimalValue::display(s2, v2) <==> (s1 == s2 && v1 == v2),
{
    if DecimalValue::display(s1, v1) == DecimalValue::display(s2, v2) {
        reveal_strlit(", ");
        let t = DecimalValue::display(s1, v1);
        let m1 = decimal(s1 as nat).len() as int;
        let m2 = decimal(s2 as nat).len() as int;
        law_decimal_text_reads_back(s1, v1);
        law_decimal_text_reads_back(s2, v2);
        if m1 < m2 {
            assert(t.subrange(8 + m1, 10 + m1)[0] == t[8 + m1]);
            assert(t.subrange(8, 8 + m2)[m1] == t[8 + m1]);
            assert(false);
        } else if m2 < m1 {
            assert(t.subrange(8 + m2, 10 + m2)[0] == t[8 + m2]);
            assert(t.subrange(8, 8 + m1)[m2] == t[8 + m2]);
            assert(false);
        }
    }
}

impl Clone for DecimalValue {
    fn clone(&self) -> (r: Self)
        ensures
            r == *self,
    {
        DecimalValue(self.0, self.1)
    }
}

} // verus!
