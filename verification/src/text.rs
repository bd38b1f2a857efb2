use vstd::prelude::*;
use vstd::utf8::encode_utf8;
use vstd::utf8::decode_utf8;
use vstd::utf8::valid_utf8;
use vstd::utf8::is_ascii_chars;

verus! {

/// Number of bytes in the UTF-8 encoding of `s`.
pub fn utf8_len(s: &str) -> (n: usize)
    ensures
        n == encode_utf8(s@).len(),
{
    s.as_bytes().len()
}

/// The character of the decimal digit `d`.
pub open spec fn digit_char(d: int) -> char {
    ('0' as int + d) as char
}

/// The decimal numeral of `n`, without leading zeros.
pub open spec fn decimal(n: nat) -> Seq<char>
    decreases n,
{
    if n < 10 {
        seq![digit_char(n as int)]
    } else {
        decimal(n / 10) + seq![digit_char((n % 10) as int)]
    }
}

/// The decimal numeral of `n`, with a leading `-` when it is negative.
pub open spec fn signed_decimal(n: int) -> Seq<char> {
    if n < 0 {
        seq!['-'] + decimal((-n) as nat)
    } else {
        decimal(n as nat)
    }
}

/// The texts of `items` with `sep` between each two of them.
pub open spec fn join(items: Seq<Seq<char>>, sep: Seq<char>) -> Seq<char>
    decreases items.len(),
{
    if items.len() == 0 {
        Seq::empty()
    } else if items.len() == 1 {
        items[0]
    } else {
        join(items.drop_last(), sep) + sep + items.last()
    }
}

/// Every character of `s` is one of the digits `0` to `9`.
pub open spec fn all_digits(s: Seq<char>) -> bool {
    forall|i: int| 0 <= i < s.len() ==> '0' <= #[trigger] s[i] <= '9'
}

/// The number that the digits `s` denote, read in base ten.
pub open spec fn digits_value(s: Seq<char>) -> int
    decreases s.len(),
{
    if s.len() == 0 {
        0
    } else {
        digits_value(s.drop_last()) * 10 + (s.last() as int - '0' as int)
    }
}

/// The number that `s` denotes: its digits, negated when `s` starts with `-`.
pub open spec fn signed_value(s: Seq<char>) -> int {
    if s.len() > 0 && s[0] == '-' {
        -digits_value(s.drop_first())
    } else {
        digits_value(s)
    }
}

proof fn lemma_digit_char(d: int)
    requires
        0 <= d < 10,
    ensures
        digit_char(d) as int == '0' as int + d,
        '0' <= digit_char(d) <= '9',
{
    assert(('0' as int + d) as char as int == '0' as int + d);
}

/// The numeral of `n` is a non-empty run of digits that reads back as `n`.
pub proof fn law_decimal_reads_back(n: nat)
    ensures
        decimal(n).len() > 0,
        all_digits(decimal(n)),
        digits_value(decimal(n)) == n,
    decreases n,
{
    if n < 10 {
        assert(decimal(n).drop_last() =~= Seq::<char>::empty());
        assert(digits_value(Seq::<char>::empty()) == 0);
        lemma_digit_char(n as int);
    } else {
        lemma_digit_char((n % 10) as int);
        law_decimal_reads_back(n / 10);
        let d = decimal(n);
        assert(d.drop_last() =~= decimal(n / 10));
        assert(d.last() == digit_char((n % 10) as int));
        assert(digits_value(d) == digits_value(decimal(n / 10)) * 10 + (n % 10));
        assert((n / 10) * 10 + n % 10 == n) by (nonlinear_arith);
        assert forall|i: int| 0 <= i < d.len() implies '0' <= #[trigger] d[i] <= '9' by {
            if i < d.len() - 1 {
                assert(d[i] == decimal(n / 10)[i]);
            }
        }
    }
}

/// The signed numeral of `n` reads back as `n`, and starts with `-` exactly
/// when `n` is negative.
pub proof fn law_signed_decimal_reads_back(n: int)
    ensures
        signed_value(signed_decimal(n)) == n,
        signed_decimal(n).len() > 0,
        (signed_decimal(n)[0] == '-') <==> n < 0,
        all_digits(signed_decimal(n)) <==> n >= 0,
{
    if n < 0 {
        law_decimal_reads_back((-n) as nat);
        assert((seq!['-'] + decimal((-n) as nat)).drop_first() =~= decimal((-n) as nat));
        assert(signed_decimal(n)[0] == '-');
    } else {
        law_decimal_reads_back(n as nat);
        assert('0' <= decimal(n as nat)[0] <= '9');
    }
}

/// Where the `i`-th of `items` starts in `join(items, sep)`, for a separator of
/// `sep_len` characters: after the items before it and a separator after each.
pub open spec fn join_offset(items: Seq<Seq<char>>, sep_len: nat, i: int) -> int
    decreases i,
{
    if i <= 0 {
        0
    } else {
        join_offset(items, sep_len, i - 1) + items[i - 1].len() + sep_len
    }
}

proof fn lemma_offset_prefix(items: Seq<Seq<char>>, k: nat, i: int)
    requires
        0 <= i < items.len(),
    ensures
        join_offset(items, k, i) == join_offset(items.drop_last(), k, i),
    decreases i,
{
    if i > 0 {
        lemma_offset_prefix(items, k, i - 1);
    }
}

/// Each item lies between the start of the text and the end of the last item.
pub proof fn lemma_join_offset_bounds(items: Seq<Seq<char>>, k: nat, i: int)
    requires
        0 <= i < items.len(),
    ensures
        join_offset(items, k, i) >= 0,
        join_offset(items, k, i) + items[i].len() <= join_offset(items, k, items.len() - 1)
            + items.last().len(),
{
    lemma_offset_mono(items, k, 0, i);
    lemma_offset_mono(items, k, i, items.len() - 1);
}

proof fn lemma_offset_mono(items: Seq<Seq<char>>, k: nat, i: int, j: int)
    requires
        0 <= i <= j <= items.len(),
    ensures
        join_offset(items, k, i) <= join_offset(items, k, j),
        i < j ==> join_offset(items, k, i) + items[i].len() + k <= join_offset(items, k, j),
    decreases j - i,
{
    if i < j {
        lemma_offset_mono(items, k, i, j - 1);
    }
}

proof fn lemma_subrange_of_front(a: Seq<char>, b: Seq<char>, lo: int, hi: int)
    requires
        0 <= lo <= hi <= a.len(),
    ensures
        (a + b).subrange(lo, hi) == a.subrange(lo, hi),
{
    assert((a + b).subrange(lo, hi) =~= a.subrange(lo, hi));
}

proof fn lemma_subrange_of_back(a: Seq<char>, b: Seq<char>)
    ensures
        (a + b).subrange(a.len() as int, (a.len() + b.len()) as int) == b,
{
    assert((a + b).subrange(a.len() as int, (a.len() + b.len()) as int) =~= b);
}

proof fn lemma_join_len(items: Seq<Seq<char>>, sep: Seq<char>)
    requires
        items.len() > 0,
    ensures
        join(items, sep).len() == join_offset(items, sep.len(), items.len() - 1) + items.last().len(),
    decreases items.len(),
{
    let n = items.len();
    if n > 1 {
        let d = items.drop_last();
        lemma_join_len(d, sep);
        lemma_offset_prefix(items, sep.len(), n - 2);
        assert(d.last() == items[n - 2]);
    }
}

proof fn lemma_join_item(items: Seq<Seq<char>>, sep: Seq<char>, i: int)
    requires
        0 <= i < items.len(),
    ensures
        join(items, sep).subrange(
            join_offset(items, sep.len(), i),
            join_offset(items, sep.len(), i) + items[i].len(),
        ) == items[i],
    decreases items.len(),
{
    let k = sep.len();
    let n = items.len();
    if n == 1 {
        assert(join(items, sep).subrange(0, items[0].len() as int) =~= items[0]);
    } else {
        let d = items.drop_last();
        let jd = join(d, sep);
        let front = jd + sep;
        assert(join(items, sep) == front + items.last());
        lemma_join_len(d, sep);
        lemma_offset_prefix(items, k, n - 2);
        if i < n - 1 {
            lemma_join_item(d, sep, i);
            lemma_offset_prefix(items, k, i);
            assert(d[i] == items[i]);
            lemma_offset_mono(d, k, i, n - 2);
            lemma_offset_mono(d, k, 0, i);
            let lo = join_offset(items, k, i);
            let hi = lo + items[i].len();
            lemma_subrange_of_front(front, items.last(), lo, hi);
            lemma_subrange_of_front(jd, sep, lo, hi);
        } else {
            assert(d.last() == items[n - 2]);
            lemma_subrange_of_back(front, items.last());
        }
    }
}

proof fn lemma_join_sep(items: Seq<Seq<char>>, sep: Seq<char>, i: int)
    requires
        0 < i < items.len(),
    ensures
        join(items, sep).subrange(
            join_offset(items, sep.len(), i) - sep.len(),
            join_offset(items, sep.len(), i),
        ) == sep,
    decreases items.len(),
{
    let k = sep.len();
    let n = items.len();
    let d = items.drop_last();
    let jd = join(d, sep);
    let front = jd + sep;
    assert(join(items, sep) == front + items.last());
    lemma_join_len(d, sep);
    lemma_offset_prefix(items, k, n - 2);
    if i < n - 1 {
        lemma_join_sep(d, sep, i);
        lemma_offset_prefix(items, k, i);
        lemma_offset_mono(d, k, i, n - 2);
        let lo = join_offset(items, k, i) - k;
        let hi = join_offset(items, k, i);
        lemma_offset_mono(d, k, 0, i - 1);
        lemma_subrange_of_front(front, items.last(), lo, hi);
        lemma_subrange_of_front(jd, sep, lo, hi);
    } else {
        assert(d.last() == items[n - 2]);
        lemma_subrange_of_front(front, items.last(), jd.len() as int, (jd.len() + k) as int);
        lemma_subrange_of_back(jd, sep);
    }
}

/// A joined text holds every item, in order, at its offset, with `sep`
/// between each two of them, and nothing else.
pub proof fn law_join_layout(items: Seq<Seq<char>>, sep: Seq<char>)
    requires
        items.len() > 0,
    ensures
        join(items, sep).len() == join_offset(items, sep.len(), items.len() - 1) + items.last().len(),
        forall|i: int|
            #![trigger items[i]]
            0 <= i < items.len() ==> join(items, sep).subrange(
                join_offset(items, sep.len(), i),
                join_offset(items, sep.len(), i) + items[i].len(),
            ) == items[i],
        forall|i: int|
            #![trigger join_offset(items, sep.len(), i)]
            0 < i < items.len() ==> join(items, sep).subrange(
                join_offset(items, sep.len(), i) - sep.len(),
                join_offset(items, sep.len(), i),
            ) == sep,
{
    lemma_join_len(items, sep);
    assert forall|i: int| #![trigger items[i]] 0 <= i < items.len() implies join(items, sep).subrange(
        join_offset(items, sep.len(), i),
        join_offset(items, sep.len(), i) + items[i].len(),
    ) == items[i] by {
        lemma_join_item(items, sep, i);
    }
    assert forall|i: int| #![trigger join_offset(items, sep.len(), i)] 0 < i < items.len() implies join(items, sep).subrange(
        join_offset(items, sep.len(), i) - sep.len(),
        join_offset(items, sep.len(), i),
    ) == sep by {
        lemma_join_sep(items, sep, i);
    }
}

proof fn lemma_subrange_shift(a: Seq<char>, b: Seq<char>, lo: int, hi: int)
    requires
        0 <= lo <= hi <= b.len(),
    ensures
        (a + b).subrange(a.len() + lo, a.len() + hi) == b.subrange(lo, hi),
{
    assert((a + b).subrange(a.len() + lo, a.len() + hi) =~= b.subrange(lo, hi));
}

/// The text `head + join(items, sep) + tail`: it starts with `head`, ends with
/// `tail`, and in between holds each item at its offset after `head`, with
/// `sep` before each item but the first.
pub proof fn lemma_framed_join(head: Seq<char>, items: Seq<Seq<char>>, sep: Seq<char>, tail: Seq<char>)
    requires
        items.len() > 0,
    ensures
        (head + join(items, sep) + tail).len() == head.len() + join_offset(
            items,
            sep.len(),
            items.len() - 1,
        ) + items.last().len() + tail.len(),
        (head + join(items, sep) + tail).subrange(0, head.len() as int) == head,
        (head + join(items, sep) + tail).subrange(
            (head + join(items, sep) + tail).len() - tail.len(),
            (head + join(items, sep) + tail).len() as int,
        ) == tail,
        forall|i: int|
            #![trigger join_offset(items, sep.len(), i)]
            0 <= i < items.len() ==> (head + join(items, sep) + tail).subrange(
                head.len() + join_offset(items, sep.len(), i),
                head.len() + join_offset(items, sep.len(), i) + items[i].len(),
            ) == items[i],
        forall|i: int|
            #![trigger join_offset(items, sep.len(), i)]
            0 < i < items.len() ==> (head + join(items, sep) + tail).subrange(
                head.len() + join_offset(items, sep.len(), i) - sep.len(),
                head.len() + join_offset(items, sep.len(), i),
            ) == sep,
{
    let j = join(items, sep);
    let k = sep.len();
    let front = head + j;
    let t = front + tail;
    law_join_layout(items, sep);
    assert(t.subrange(0, head.len() as int) =~= head);
    lemma_subrange_of_back(front, tail);
    assert forall|i: int|
        #![trigger join_offset(items, sep.len(), i)]
        0 <= i < items.len() implies t.subrange(
            head.len() + join_offset(items, k, i),
            head.len() + join_offset(items, k, i) + items[i].len(),
        ) == items[i] by {
        let lo = join_offset(items, k, i);
        let hi = lo + items[i].len();
        assert(j.subrange(lo, hi) == items[i]);
        lemma_offset_mono(items, k, 0, i);
        lemma_offset_mono(items, k, i, items.len() - 1);
        assert(hi <= j.len());
        lemma_subrange_of_front(front, tail, head.len() + lo, head.len() + hi);
        lemma_subrange_shift(head, j, lo, hi);
    }
    assert forall|i: int|
        #![trigger join_offset(items, sep.len(), i)]
        0 < i < items.len() implies t.subrange(
            head.len() + join_offset(items, k, i) - k,
            head.len() + join_offset(items, k, i),
        ) == sep by {
        let lo = join_offset(items, k, i) - k;
        let hi = join_offset(items, k, i);
        assert(j.subrange(lo, hi) == sep);
        lemma_offset_mono(items, k, 0, i - 1);
        lemma_offset_mono(items, k, i, items.len() - 1);
        assert(hi <= j.len());
        lemma_subrange_of_front(front, tail, head.len() + lo, head.len() + hi);
        lemma_subrange_shift(head, j, lo, hi);
    }
}

/// Where `x` lies in `t` at `lo`, each part of `x` lies in `t` at the same
/// distance from `lo`.
pub proof fn lemma_subrange_within(t: Seq<char>, x: Seq<char>, lo: int, p: int, q: int)
    requires
        0 <= lo,
        lo + x.len() <= t.len(),
        t.subrange(lo, lo + x.len()) == x,
        0 <= p <= q <= x.len(),
    ensures
        t.subrange(lo + p, lo + q) == x.subrange(p, q),
{
    assert forall|m: int| 0 <= m < q - p implies #[trigger] t.subrange(lo + p, lo + q)[m] == x.subrange(p, q)[m] by {
        assert(t.subrange(lo, lo + x.len())[p + m] == x[p + m]);
    }
    assert(t.subrange(lo + p, lo + q) =~= x.subrange(p, q));
}

fn digit_str(d: u64) -> (s: &'static str)
    requires
        d < 10,
    ensures
        s@ == seq![digit_char(d as int)],
{
    proof {
        reveal_strlit("0");
        reveal_strlit("1");
        reveal_strlit("2");
        reveal_strlit("3");
        reveal_strlit("4");
        reveal_strlit("5");
        reveal_strlit("6");
        reveal_strlit("7");
        reveal_strlit("8");
        reveal_strlit("9");
    }
    match d {
        0 => "0",
        1 => "1",
        2 => "2",
        3 => "3",
        4 => "4",
        5 => "5",
        6 => "6",
        7 => "7",
        8 => "8",
        _ => "9",
    }
}

/// Appends the decimal numeral of `n` to `out`.
pub fn push_decimal(out: &mut String, n: u64)
    ensures
        final(out)@ == old(out)@ + decimal(n as nat),
    decreases n,
{
    if n >= 10 {
        push_decimal(out, n / 10);
    }
    out.append(digit_str(n % 10));
    assert(final(out)@ =~= old(out)@ + decimal(n as nat));
}

/// Appends the decimal numeral of `n`, signed, to `out`.
pub fn push_signed_decimal(out: &mut String, n: i64)
    ensures
        final(out)@ == old(out)@ + signed_decimal(n as int),
{
    if n < 0 {
        proof {
            reveal_strlit("-");
        }
        out.append("-");
        let magnitude: u64 = (0i128 - (n as i128)) as u64;
        push_decimal(out, magnitude);
        assert(final(out)@ =~= old(out)@ + signed_decimal(n as int));
    } else {
        push_decimal(out, n as u64);
    }
}

/// `String::from_utf8`: the bytes as a `String` when they are valid UTF-8 (the
/// error that it returns otherwise is dropped).
#[verifier::external_body]
pub(crate) fn string_from_utf8(bytes: Vec<u8>) -> (r: Option<String>)
    ensures
        r is Some <==> valid_utf8(bytes@),
        r matches Some(s) ==> s@ == decode_utf8(bytes@),
{
    String::from_utf8(bytes).ok()
}

/// Every byte of `bytes` is below 0x80.
pub open spec fn all_ascii_bytes(bytes: Seq<u8>) -> bool {
    forall|i: int| 0 <= i < bytes.len() ==> #[trigger] bytes[i] < 0x80
}

/// A run of bytes below 0x80 is valid UTF-8.
pub proof fn lemma_ascii_bytes_valid_utf8(bytes: Seq<u8>)
    requires
        all_ascii_bytes(bytes),
    ensures
        valid_utf8(bytes),
{
    let chars = Seq::new(bytes.len(), |i: int| bytes[i] as char);
    assert(is_ascii_chars(chars)) by {
        assert forall|i| 0 <= i < chars.len() implies '\0' <= #[trigger] chars[i] <= '\u{7f}' by {
            assert(bytes[i] < 0x80);
        }
    }
    vstd::utf8::is_ascii_chars_encode_utf8(chars);
    assert(encode_utf8(chars) =~= bytes) by {
        assert forall|i| 0 <= i < bytes.len() implies #[trigger] encode_utf8(chars)[i] == bytes[i] by {
            assert(chars[i] as u8 == encode_utf8(chars)[i]);
        }
    }
    vstd::utf8::encode_utf8_valid_utf8(chars);
}

} // verus!
