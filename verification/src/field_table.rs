//! The AMQP field table: a map from short-string names to field values.
use vstd::prelude::*;
use vstd::utf8::encode_utf8;
use crate::field_value::FieldValue;
use crate::field_value::same_value;
use crate::short_str::ShortStr;
use crate::text::join;
use crate::text::join_offset;
use crate::text::lemma_framed_join;
use crate::text::lemma_subrange_within;
use crate::text::lemma_join_offset_bounds;

verus! {

/// `a` sorts strictly before `b`, byte by byte (a proper prefix sorts first).
pub open spec fn bytes_lt(a: Seq<u8>, b: Seq<u8>) -> bool
    decreases a.len(),
{
    if a.len() == 0 {
        b.len() > 0
    } else if b.len() == 0 {
        false
    } else if a[0] != b[0] {
        a[0] < b[0]
    } else {
        bytes_lt(a.drop_first(), b.drop_first())
    }
}

/// No byte string sorts before itself.
pub proof fn lemma_bytes_lt_irreflexive(a: Seq<u8>)
    ensures
        !bytes_lt(a, a),
    decreases a.len(),
{
    if a.len() > 0 {
        lemma_bytes_lt_irreflexive(a.drop_first());
    }
}

/// The byte order is transitive.
pub proof fn lemma_bytes_lt_transitive(a: Seq<u8>, b: Seq<u8>, c: Seq<u8>)
    requires
        bytes_lt(a, b),
        bytes_lt(b, c),
    ensures
        bytes_lt(a, c),
    decreases a.len(),
{
    if a.len() > 0 && b.len() > 0 && c.len() > 0 && a[0] == b[0] && b[0] == c[0] {
        lemma_bytes_lt_transitive(a.drop_first(), b.drop_first(), c.drop_first());
    }
}

/// Compares two byte strings: negative when `a` sorts first, zero when they
/// are equal, positive when `b` sorts first.
pub fn compare_bytes(a: &[u8], b: &[u8]) -> (r: i8)
    ensures
        (r < 0) == bytes_lt(a@, b@),
        (r == 0) == (a@ == b@),
        (r > 0) == bytes_lt(b@, a@),
{
    let mut i: usize = 0;
    assert(a@.skip(0) =~= a@);
    assert(b@.skip(0) =~= b@);
    while i < a.len() && i < b.len()
        invariant
            i <= a@.len(),
            i <= b@.len(),
            a@.take(i as int) == b@.take(i as int),
            bytes_lt(a@, b@) == bytes_lt(a@.skip(i as int), b@.skip(i as int)),
            bytes_lt(b@, a@) == bytes_lt(b@.skip(i as int), a@.skip(i as int)),
        decreases a@.len() - i,
    {
        assert(a@.skip(i as int).drop_first() =~= a@.skip(i + 1));
        assert(b@.skip(i as int).drop_first() =~= b@.skip(i + 1));
        if a[i] < b[i] {
            assert(a@[i as int] != b@[i as int]);
            return -1;
        }
        if a[i] > b[i] {
            assert(a@[i as int] != b@[i as int]);
            return 1;
        }
        assert(a@.take(i + 1) =~= a@.take(i as int).push(a@[i as int]));
        assert(b@.take(i + 1) =~= b@.take(i as int).push(b@[i as int]));
        i = i + 1;
    }
    if a.len() < b.len() {
        assert(a@ != b@);
        -1
    } else if a.len() > b.len() {
        assert(a@ != b@);
        1
    } else {
        assert(a@ =~= a@.take(i as int));
        assert(b@ =~= b@.take(i as int));
        proof {
            lemma_bytes_lt_irreflexive(a@);
        }
        0
    }
}

/// Entries are in strictly increasing order of their names' UTF-8 bytes.
pub open spec fn sorted_entries(s: Seq<(ShortStr, FieldValue)>) -> bool {
    forall|i: int, j: int|
        0 <= i < j < s.len() ==> bytes_lt(
            encode_utf8(#[trigger] s[i].0@),
            encode_utf8(#[trigger] s[j].0@),
        )
}

/// No name occurs in two entries.
pub open spec fn distinct_names(s: Seq<(ShortStr, FieldValue)>) -> bool {
    forall|i: int, j: int|
        0 <= i < s.len() && 0 <= j < s.len() && i != j ==> #[trigger] s[i].0@ != #[trigger] s[j].0@
}

/// The name `k` occurs in an entry.
pub open spec fn has_name(s: Seq<(ShortStr, FieldValue)>, k: Seq<char>) -> bool {
    exists|i: int| 0 <= i < s.len() && #[trigger] s[i].0@ == k
}

/// The map from names to values that the entries hold.
pub open spec fn entries_map(s: Seq<(ShortStr, FieldValue)>) -> Map<Seq<char>, FieldValue> {
    Map::new(
        |k: Seq<char>| has_name(s, k),
        |k: Seq<char>| s[choose|i: int| 0 <= i < s.len() && #[trigger] s[i].0@ == k].1,
    )
}

pub(crate) proof fn lemma_sorted_distinct(s: Seq<(ShortStr, FieldValue)>)
    requires
        sorted_entries(s),
    ensures
        distinct_names(s),
{
    assert forall|i: int, j: int|
        0 <= i < s.len() && 0 <= j < s.len() && i != j implies #[trigger] s[i].0@
        != #[trigger] s[j].0@ by {
        if i < j {
            lemma_bytes_lt_irreflexive(encode_utf8(s[i].0@));
        } else {
            lemma_bytes_lt_irreflexive(encode_utf8(s[j].0@));
        }
    }
}

/// The entry at `i` is what the map holds for its name.
pub(crate) proof fn lemma_entry_in_map(s: Seq<(ShortStr, FieldValue)>, i: int)
    requires
        distinct_names(s),
        0 <= i < s.len(),
    ensures
        entries_map(s).contains_key(s[i].0@),
        entries_map(s)[s[i].0@] == s[i].1,
{
    let k = s[i].0@;
    assert(has_name(s, k));
    let j = choose|j: int| 0 <= j < s.len() && #[trigger] s[j].0@ == k;
    assert(s[j].0@ == k);
}

/// Replacing the value of the entry at `i` (keeping a name with the same text)
/// replaces the value of that name in the map.
proof fn lemma_map_update(
    s: Seq<(ShortStr, FieldValue)>,
    i: int,
    e: (ShortStr, FieldValue),
)
    requires
        distinct_names(s),
        0 <= i < s.len(),
        e.0@ == s[i].0@,
    ensures
        distinct_names(s.update(i, e)),
        entries_map(s.update(i, e)) == entries_map(s).insert(e.0@, e.1),
{
    let t = s.update(i, e);
    assert(distinct_names(t)) by {
        assert forall|a: int, b: int|
            0 <= a < t.len() && 0 <= b < t.len() && a != b implies #[trigger] t[a].0@
            != #[trigger] t[b].0@ by {
            assert(s[a].0@ != s[b].0@);
        }
    }
    let m = entries_map(s).insert(e.0@, e.1);
    assert forall|k: Seq<char>| #[trigger] entries_map(t).contains_key(k) <==> m.contains_key(k) by {
        if has_name(t, k) {
            let j = choose|j: int| 0 <= j < t.len() && #[trigger] t[j].0@ == k;
            if j != i {
                assert(s[j].0@ == k);
            }
        }
        if has_name(s, k) {
            let j = choose|j: int| 0 <= j < s.len() && #[trigger] s[j].0@ == k;
            assert(t[j].0@ == k);
        }
        if k == e.0@ {
            assert(t[i].0@ == k);
        }
    }
    assert forall|k: Seq<char>| #[trigger] entries_map(t).contains_key(k) implies entries_map(t)[k]
        == m[k] by {
        let j = choose|j: int| 0 <= j < t.len() && #[trigger] t[j].0@ == k;
        lemma_entry_in_map(t, j);
        if j != i {
            assert(s[j].0@ == k);
            lemma_entry_in_map(s, j);
        }
    }
    assert(entries_map(t) =~= m);
}

/// Inserting an entry whose name is new adds that name to the map.
proof fn lemma_map_insert(
    s: Seq<(ShortStr, FieldValue)>,
    i: int,
    e: (ShortStr, FieldValue),
)
    requires
        distinct_names(s),
        distinct_names(s.insert(i, e)),
        0 <= i <= s.len(),
    ensures
        entries_map(s.insert(i, e)) == entries_map(s).insert(e.0@, e.1),
{
    let t = s.insert(i, e);
    let m = entries_map(s).insert(e.0@, e.1);
    assert forall|k: Seq<char>| #[trigger] entries_map(t).contains_key(k) <==> m.contains_key(k) by {
        if has_name(t, k) {
            let j = choose|j: int| 0 <= j < t.len() && #[trigger] t[j].0@ == k;
            if j < i {
                assert(s[j].0@ == k);
            } else if j > i {
                assert(s[j - 1].0@ == k);
            }
        }
        if has_name(s, k) {
            let j = choose|j: int| 0 <= j < s.len() && #[trigger] s[j].0@ == k;
            if j < i {
                assert(t[j].0@ == k);
            } else {
                assert(t[j + 1].0@ == k);
            }
        }
        if k == e.0@ {
            assert(t[i].0@ == k);
        }
    }
    assert forall|k: Seq<char>| #[trigger] entries_map(t).contains_key(k) implies entries_map(t)[k]
        == m[k] by {
        let j = choose|j: int| 0 <= j < t.len() && #[trigger] t[j].0@ == k;
        lemma_entry_in_map(t, j);
        if j < i {
            assert(s[j].0@ == k);
            assert(t[i].0@ != k);
            lemma_entry_in_map(s, j);
        } else if j > i {
            assert(s[j - 1].0@ == k);
            assert(t[i].0@ != k);
            lemma_entry_in_map(s, j - 1);
        }
    }
    assert(entries_map(t) =~= m);
}

/// Removing the entry at `i` removes its name from the map.
proof fn lemma_map_remove(s: Seq<(ShortStr, FieldValue)>, i: int)
    requires
        distinct_names(s),
        0 <= i < s.len(),
    ensures
        distinct_names(s.remove(i)),
        entries_map(s.remove(i)) == entries_map(s).remove(s[i].0@),
{
    let t = s.remove(i);
    let m = entries_map(s).remove(s[i].0@);
    assert(distinct_names(t)) by {
        assert forall|a: int, b: int|
            0 <= a < t.len() && 0 <= b < t.len() && a != b implies #[trigger] t[a].0@
            != #[trigger] t[b].0@ by {
            let a2 = if a < i { a } else { a + 1 };
            let b2 = if b < i { b } else { b + 1 };
            assert(t[a] == s[a2]);
            assert(t[b] == s[b2]);
            assert(s[a2].0@ != s[b2].0@);
        }
    }
    assert forall|k: Seq<char>| #[trigger] entries_map(t).contains_key(k) <==> m.contains_key(k) by {
        if has_name(t, k) {
            let j = choose|j: int| 0 <= j < t.len() && #[trigger] t[j].0@ == k;
            let j2 = if j < i { j } else { j + 1 };
            assert(s[j2].0@ == k);
            assert(s[j2].0@ != s[i].0@);
        }
        if has_name(s, k) && k != s[i].0@ {
            let j = choose|j: int| 0 <= j < s.len() && #[trigger] s[j].0@ == k;
            if j < i {
                assert(t[j].0@ == k);
            } else {
                assert(t[j - 1].0@ == k);
            }
        }
    }
    assert forall|k: Seq<char>| #[trigger] entries_map(t).contains_key(k) implies entries_map(t)[k]
        == m[k] by {
        let j = choose|j: int| 0 <= j < t.len() && #[trigger] t[j].0@ == k;
        lemma_entry_in_map(t, j);
        let j2 = if j < i { j } else { j + 1 };
        assert(s[j2] == t[j]);
        lemma_entry_in_map(s, j2);
    }
    assert(entries_map(t) =~= m);
}

/// Where `k` goes among sorted entries: the index of the first entry whose
/// name does not sort before `k`, and whether that entry is named `k`.
fn find_slot(entries: &Vec<(ShortStr, FieldValue)>, k: &ShortStr) -> (r: (usize, bool))
    requires
        sorted_entries(entries@),
    ensures
        r.0 <= entries@.len(),
        forall|j: int|
            0 <= j < r.0 ==> bytes_lt(encode_utf8(#[trigger] entries@[j].0@), encode_utf8(k@)),
        r.1 ==> r.0 < entries@.len() && entries@[r.0 as int].0@ == k@,
        !r.1 ==> forall|j: int|
            r.0 <= j < entries@.len() ==> bytes_lt(
                encode_utf8(k@),
                encode_utf8(#[trigger] entries@[j].0@),
            ),
        !r.1 ==> !has_name(entries@, k@),
{
    let kb = k.text_bytes();
    let mut i: usize = 0;
    while i < entries.len()
        invariant
            i <= entries@.len(),
            sorted_entries(entries@),
            kb@ == encode_utf8(k@),
            forall|j: int|
                0 <= j < i ==> bytes_lt(encode_utf8(#[trigger] entries@[j].0@), encode_utf8(k@)),
        decreases entries@.len() - i,
    {
        let c = compare_bytes(entries[i].0.text_bytes(), kb);
        if c == 0 {
            proof {
                vstd::utf8::encode_utf8_decode_utf8(entries@[i as int].0@);
                vstd::utf8::encode_utf8_decode_utf8(k@);
            }
            return (i, true);
        }
        if c > 0 {
            proof {
                assert forall|j: int| i <= j < entries@.len() implies bytes_lt(
                    encode_utf8(k@),
                    encode_utf8(#[trigger] entries@[j].0@),
                ) by {
                    if j > i {
                        lemma_bytes_lt_transitive(
                            encode_utf8(k@),
                            encode_utf8(entries@[i as int].0@),
                            encode_utf8(entries@[j].0@),
                        );
                    }
                }
                lemma_not_named(entries@, k@, i as int);
            }
            return (i, false);
        }
        i = i + 1;
    }
    proof {
        lemma_not_named(entries@, k@, i as int);
    }
    (i, false)
}

/// A name that sorts after the entries before `i` and before those from `i`
/// on occurs in no entry.
proof fn lemma_not_named(s: Seq<(ShortStr, FieldValue)>, k: Seq<char>, i: int)
    requires
        0 <= i <= s.len(),
        forall|j: int| 0 <= j < i ==> bytes_lt(encode_utf8(#[trigger] s[j].0@), encode_utf8(k)),
        forall|j: int| i <= j < s.len() ==> bytes_lt(encode_utf8(k), encode_utf8(#[trigger] s[j].0@)),
    ensures
        !has_name(s, k),
{
    if has_name(s, k) {
        let j = choose|j: int| 0 <= j < s.len() && #[trigger] s[j].0@ == k;
        lemma_bytes_lt_irreflexive(encode_utf8(k));
        if j < i {
            assert(bytes_lt(encode_utf8(s[j].0@), encode_utf8(k)));
        } else {
            assert(bytes_lt(encode_utf8(k), encode_utf8(s[j].0@)));
        }
    }
}

/// AMQP field table: field values under short-string names, each name at
/// most once.
///
/// The entries are kept in the byte order of their names, so two tables that
/// hold the same names and values are equal as values of this type.
#[derive(PartialEq, Debug)]
pub struct FieldTable(pub(crate) Vec<(ShortStr, FieldValue)>);

impl View for FieldTable {
    type V = Map<Seq<char>, FieldValue>;

    closed spec fn view(&self) -> Map<Seq<char>, FieldValue> {
        entries_map(self.0@)
    }
}

impl FieldTable {
    #[verifier::type_invariant]
    pub(crate) open spec fn names_sorted(self) -> bool {
        sorted_entries(self.0@)
    }

    /// An empty table.
    pub fn new() -> (r: Self)
        ensures
            r@ == Map::<Seq<char>, FieldValue>::empty(),
    {
        let r = FieldTable(Vec::new());
        assert(r@ =~= Map::<Seq<char>, FieldValue>::empty());
        r
    }

    /// Puts `v` under the name `k`, and returns the value that was there
    /// before, if any.  When the name was there, the old name stays.
    pub fn insert(&mut self, k: ShortStr, v: FieldValue) -> (r: Option<FieldValue>)
        ensures
            final(self)@ == after_insert(old(self)@, k@, v),
            r == read(old(self)@, k@),
    {
        proof {
            use_type_invariant(&*self);
            lemma_sorted_distinct(self.0@);
        }
        let mut entries: Vec<(ShortStr, FieldValue)> = Vec::new();
        std::mem::swap(&mut entries, &mut self.0);
        let ghost s = entries@;
        let (pos, found) = find_slot(&entries, &k);
        if found {
            let (old_k, old_v) = entries.remove(pos);
            proof {
                lemma_entry_in_map(s, pos as int);
            }
            entries.insert(pos, (old_k, v));
            proof {
                assert(entries@ =~= s.update(pos as int, (old_k, v)));
                lemma_map_update(s, pos as int, (old_k, v));
                assert(sorted_entries(entries@)) by {
                    assert forall|a: int, b: int| 0 <= a < b < entries@.len() implies bytes_lt(
                        encode_utf8(#[trigger] entries@[a].0@),
                        encode_utf8(#[trigger] entries@[b].0@),
                    ) by {
                        assert(s[a].0@ == entries@[a].0@);
                        assert(s[b].0@ == entries@[b].0@);
                    }
                }
            }
            self.0 = entries;
            Some(old_v)
        } else {
            entries.insert(pos, (k, v));
            proof {
                let e = entries@[pos as int];
                assert(entries@ =~= s.insert(pos as int, e));
                assert(sorted_entries(entries@)) by {
                    assert forall|a: int, b: int| 0 <= a < b < entries@.len() implies bytes_lt(
                        encode_utf8(#[trigger] entries@[a].0@),
                        encode_utf8(#[trigger] entries@[b].0@),
                    ) by {
                        if a < pos && b < pos {
                            assert(entries@[a] == s[a] && entries@[b] == s[b]);
                        } else if a < pos && b == pos {
                            assert(entries@[a] == s[a]);
                        } else if a < pos {
                            assert(entries@[a] == s[a] && entries@[b] == s[b - 1]);
                            lemma_bytes_lt_transitive(
                                encode_utf8(s[a].0@),
                                encode_utf8(k@),
                                encode_utf8(s[b - 1].0@),
                            );
                        } else if a == pos {
                            assert(entries@[b] == s[b - 1]);
                        } else {
                            assert(entries@[a] == s[a - 1] && entries@[b] == s[b - 1]);
                        }
                    }
                }
                lemma_sorted_distinct(entries@);
                lemma_map_insert(s, pos as int, e);
                assert(!entries_map(s).contains_key(k@));
            }
            self.0 = entries;
            None
        }
    }

    /// Takes the value under the name `k` out of the table, if there is one.
    pub fn remove(&mut self, k: &ShortStr) -> (r: Option<FieldValue>)
        ensures
            final(self)@ == after_remove(old(self)@, k@),
            r == read(old(self)@, k@),
    {
        proof {
            use_type_invariant(&*self);
            lemma_sorted_distinct(self.0@);
        }
        let mut entries: Vec<(ShortStr, FieldValue)> = Vec::new();
        std::mem::swap(&mut entries, &mut self.0);
        let ghost s = entries@;
        let (pos, found) = find_slot(&entries, k);
        if found {
            let (_old_k, old_v) = entries.remove(pos);
            proof {
                lemma_entry_in_map(s, pos as int);
                lemma_map_remove(s, pos as int);
                assert(sorted_entries(entries@)) by {
                    assert forall|a: int, b: int| 0 <= a < b < entries@.len() implies bytes_lt(
                        encode_utf8(#[trigger] entries@[a].0@),
                        encode_utf8(#[trigger] entries@[b].0@),
                    ) by {
                        let a2 = if a < pos { a } else { a + 1 };
                        let b2 = if b < pos { b } else { b + 1 };
                        assert(entries@[a] == s[a2] && entries@[b] == s[b2]);
                    }
                }
            }
            self.0 = entries;
            Some(old_v)
        } else {
            proof {
                assert(entries_map(s).remove(k@) =~= entries_map(s));
            }
            self.0 = entries;
            None
        }
    }

    /// The value under the name `k`, if there is one.
    pub fn get(&self, k: &ShortStr) -> (r: Option<&FieldValue>)
        ensures
            r is Some <==> read(self@, k@) is Some,
            r matches Some(v) ==> read(self@, k@) == Some(*v),
    {
        proof {
            use_type_invariant(self);
            lemma_sorted_distinct(self.0@);
        }
        let (pos, found) = find_slot(&self.0, k);
        if found {
            proof {
                lemma_entry_in_map(self.0@, pos as int);
            }
            Some(&self.0[pos].1)
        } else {
            None
        }
    }

    /// The entries of the table, each name once, in the byte order of the
    /// names.
    pub closed spec fn entries(self) -> Seq<(ShortStr, FieldValue)> {
        self.0@
    }

    /// The entries, each name once, in the byte order of the names.
    pub fn into_entries(self) -> (r: Vec<(ShortStr, FieldValue)>)
        ensures
            r@ == self.entries(),
            entries_map(r@) == self@,
            distinct_names(r@),
            sorted_entries(r@),
    {
        proof {
            use_type_invariant(&self);
            lemma_sorted_distinct(self.0@);
        }
        self.0
    }

    /// The text that the `Display` of a table gives, from the texts of its
    /// names and values: `{ `, the entries `name: value` separated by `, `,
    /// then ` }`.
    pub open spec fn display(entries: Seq<(Seq<char>, Seq<char>)>) -> Seq<char> {
        "{ "@ + join(
            entries.map_values(|e: (Seq<char>, Seq<char>)| e.0 + ": "@ + e.1),
            ", "@,
        ) + " }"@
    }

    /// Lays out the texts of the names and values of a table as its `Display`
    /// does.  An empty table has no such text: its `Display` panics.
    pub fn format_entries(entries: &Vec<(String, String)>) -> (r: String)
        requires
            entries@.len() > 0,
        ensures
            r@ == FieldTable::display(
                entries@.map_values(|e: (String, String)| (e.0@, e.1@)),
            ),
    {
        let ghost pairs = entries@.map_values(|e: (String, String)| (e.0@, e.1@));
        let ghost texts = pairs.map_values(|e: (Seq<char>, Seq<char>)| e.0 + ": "@ + e.1);
        let mut out = String::from_str("{ ");
        let mut i: usize = 0;
        while i < entries.len()
            invariant
                0 < entries@.len(),
                i <= entries@.len(),
                pairs == entries@.map_values(|e: (String, String)| (e.0@, e.1@)),
                texts == pairs.map_values(|e: (Seq<char>, Seq<char>)| e.0 + ": "@ + e.1),
                out@ == "{ "@ + join(texts.take(i as int), ", "@),
            decreases entries@.len() - i,
        {
            if i > 0 {
                out.append(", ");
            }
            let ghost before = out@;
            out.append(entries[i].0.as_str());
            out.append(": ");
            out.append(entries[i].1.as_str());
            proof {
                assert(out@ =~= before + texts[i as int]);
                assert(texts.take(i + 1).drop_last() =~= texts.take(i as int));
                if i == 0 {
                    assert(texts.take(0) =~= Seq::<Seq<char>>::empty());
                }
            }
            i = i + 1;
        }
        assert(texts.take(i as int) =~= texts);
        out.append(" }");
        out
    }
}

impl Default for FieldTable {
    fn default() -> (r: Self)
        ensures
            r@ == Map::<Seq<char>, FieldValue>::empty(),
    {
        FieldTable::new()
    }
}

impl Clone for FieldTable {
    fn clone(&self) -> (r: Self)
        ensures
            r@.dom() == self@.dom(),
            forall|k: Seq<char>| #[trigger] self@.contains_key(k) ==> same_value(r@[k], self@[k]),
    {
        proof {
            use_type_invariant(self);
        }
        let mut entries: Vec<(ShortStr, FieldValue)> = Vec::new();
        let mut i: usize = 0;
        while i < self.0.len()
            invariant
                i <= self.0@.len(),
                entries@.len() == i,
                forall|j: int| 0 <= j < i ==> (#[trigger] entries@[j]).0@ == self.0@[j].0@,
                forall|j: int| 0 <= j < i ==> same_value((#[trigger] entries@[j]).1, self.0@[j].1),
            decreases self.0@.len() - i,
        {
            let name = self.0[i].0.clone();
            let value = self.0[i].1.clone();
            entries.push((name, value));
            i = i + 1;
        }
        proof {
            lemma_same_entries(self.0@, entries@);
        }
        FieldTable(entries)
    }
}

/// Entries that copy sorted entries one by one (names of the same text, values
/// the same) are sorted too and hold the same names, each with the same value.
pub(crate) proof fn lemma_same_entries(s: Seq<(ShortStr, FieldValue)>, t: Seq<(ShortStr, FieldValue)>)
    requires
        sorted_entries(s),
        t.len() == s.len(),
        forall|j: int| 0 <= j < t.len() ==> (#[trigger] t[j]).0@ == s[j].0@,
        forall|j: int| 0 <= j < t.len() ==> same_value((#[trigger] t[j]).1, s[j].1),
    ensures
        sorted_entries(t),
        entries_map(t).dom() == entries_map(s).dom(),
        forall|k: Seq<char>| #[trigger] entries_map(s).contains_key(k) ==> same_value(
            entries_map(t)[k],
            entries_map(s)[k],
        ),
{
    lemma_same_names(s, t);
    lemma_sorted_distinct(s);
    lemma_sorted_distinct(t);
    assert forall|k: Seq<char>| #[trigger] entries_map(s).contains_key(k) implies same_value(
        entries_map(t)[k],
        entries_map(s)[k],
    ) by {
        let j = choose|j: int| 0 <= j < s.len() && #[trigger] s[j].0@ == k;
        lemma_entry_in_map(s, j);
        assert(t[j].0@ == k);
        lemma_entry_in_map(t, j);
    }
}

/// Sorted entries are fixed by the map that they hold: two sorted entry lists
/// with the same map have the same names, in the same order, under the same
/// values.  So two tables with the same contents are equal entry by entry.
pub proof fn law_sorted_entries_unique(s: Seq<(ShortStr, FieldValue)>, t: Seq<(ShortStr, FieldValue)>)
    requires
        sorted_entries(s),
        sorted_entries(t),
        entries_map(s) == entries_map(t),
    ensures
        s.len() == t.len(),
        forall|i: int| 0 <= i < s.len() ==> (#[trigger] s[i]).0@ == t[i].0@ && s[i].1 == t[i].1,
    decreases s.len(),
{
    lemma_sorted_distinct(s);
    lemma_sorted_distinct(t);
    if s.len() == 0 {
        if t.len() > 0 {
            lemma_entry_in_map(t, 0);
        }
    } else if t.len() == 0 {
        lemma_entry_in_map(s, 0);
    } else {
        let k0 = s[0].0@;
        lemma_entry_in_map(s, 0);
        lemma_entry_in_map(t, 0);
        if t[0].0@ != k0 {
            let j = choose|j: int| 0 <= j < t.len() && #[trigger] t[j].0@ == k0;
            let k1 = t[0].0@;
            let i = choose|i: int| 0 <= i < s.len() && #[trigger] s[i].0@ == k1;
            assert(j != 0 && i != 0);
            assert(bytes_lt(encode_utf8(t[0].0@), encode_utf8(t[j].0@)));
            assert(bytes_lt(encode_utf8(s[0].0@), encode_utf8(s[i].0@)));
            lemma_bytes_lt_transitive(encode_utf8(k0), encode_utf8(k1), encode_utf8(k0));
            lemma_bytes_lt_irreflexive(encode_utf8(k0));
        }
        lemma_map_remove(s, 0);
        lemma_map_remove(t, 0);
        let s1 = s.remove(0);
        let t1 = t.remove(0);
        assert(sorted_entries(s1)) by {
            assert forall|a: int, b: int| 0 <= a < b < s1.len() implies bytes_lt(
                encode_utf8(#[trigger] s1[a].0@),
                encode_utf8(#[trigger] s1[b].0@),
            ) by {
                assert(s1[a] == s[a + 1] && s1[b] == s[b + 1]);
            }
        }
        assert(sorted_entries(t1)) by {
            assert forall|a: int, b: int| 0 <= a < b < t1.len() implies bytes_lt(
                encode_utf8(#[trigger] t1[a].0@),
                encode_utf8(#[trigger] t1[b].0@),
            ) by {
                assert(t1[a] == t[a + 1] && t1[b] == t[b + 1]);
            }
        }
        law_sorted_entries_unique(s1, t1);
        assert forall|i: int| 0 <= i < s.len() implies (#[trigger] s[i]).0@ == t[i].0@ && s[i].1
            == t[i].1 by {
            if i > 0 {
                assert(s1[i - 1] == s[i] && t1[i - 1] == t[i]);
            }
        }
    }
}

/// The contents of a table after `insert(k, v)` on a table holding `m`.
pub open spec fn after_insert(m: Map<Seq<char>, FieldValue>, k: Seq<char>, v: FieldValue) -> Map<
    Seq<char>,
    FieldValue,
> {
    m.insert(k, v)
}

/// The contents of a table after `remove(k)` on a table holding `m`.
pub open spec fn after_remove(m: Map<Seq<char>, FieldValue>, k: Seq<char>) -> Map<
    Seq<char>,
    FieldValue,
> {
    m.remove(k)
}

/// What `get(k)` reads (and what `insert` and `remove` return) on a table
/// holding `m`.
pub open spec fn read(m: Map<Seq<char>, FieldValue>, k: Seq<char>) -> Option<FieldValue> {
    m.get(k)
}

/// The contents of a table holding `m` after the writes `ops` in order: an
/// entry `(true, k, v)` is `insert(k, v)`, an entry `(false, k, _)` is
/// `remove(k)`.
pub open spec fn after_writes(m: Map<Seq<char>, FieldValue>, ops: Seq<(bool, Seq<char>, FieldValue)>) -> Map<
    Seq<char>,
    FieldValue,
>
    decreases ops.len(),
{
    if ops.len() == 0 {
        m
    } else {
        let before = after_writes(m, ops.drop_last());
        let op = ops.last();
        if op.0 {
            after_insert(before, op.1, op.2)
        } else {
            after_remove(before, op.1)
        }
    }
}

/// What the last write to the name `k` among `ops` left under it: the value
/// of the last `insert`, or nothing after a `remove`; `None` when no write in
/// `ops` names `k`.
pub open spec fn last_write(ops: Seq<(bool, Seq<char>, FieldValue)>, k: Seq<char>) -> Option<
    Option<FieldValue>,
>
    decreases ops.len(),
{
    if ops.len() == 0 {
        None
    } else if ops.last().1 == k {
        Some(
            if ops.last().0 {
                Some(ops.last().2)
            } else {
                None
            },
        )
    } else {
        last_write(ops.drop_last(), k)
    }
}

/// What a table reads back after one write: the value just put under a name,
/// nothing after that name was removed, and the old value under any other
/// name.
pub proof fn law_read_after_write(t: FieldTable, k: ShortStr, other: ShortStr, v: FieldValue)
    requires
        other@ != k@,
    ensures
        read(after_insert(t@, k@, v), k@) == Some(v),
        read(after_insert(t@, k@, v), other@) == read(t@, other@),
        read(after_remove(t@, k@), k@) is None,
        read(after_remove(t@, k@), other@) == read(t@, other@),
{
}

/// What a table reads back after any sequence of writes: under each name, what
/// the last write to that name left, or what the table held there before when
/// no write names it.  A table made by `new` holds nothing, so from it a name
/// reads as the last insert under it, and as absent when it was never inserted
/// or was last removed.
pub proof fn law_read_after_writes(
    m: Map<Seq<char>, FieldValue>,
    ops: Seq<(bool, Seq<char>, FieldValue)>,
    k: Seq<char>,
)
    ensures
        read(after_writes(m, ops), k) == match last_write(ops, k) {
            Some(r) => r,
            None => read(m, k),
        },
    decreases ops.len(),
{
    if ops.len() > 0 {
        law_read_after_writes(m, ops.drop_last(), k);
    }
}

/// The map of a table is that of its entries.
pub(crate) proof fn lemma_table_view(t: FieldTable)
    ensures
        t@ == entries_map(t.0@),
        t.entries() == t.0@,
{
}

/// Entries whose names have the texts of the names of sorted entries, in the
/// same order, are sorted too and hold the same names.
pub(crate) proof fn lemma_same_names(s: Seq<(ShortStr, FieldValue)>, t: Seq<(ShortStr, FieldValue)>)
    requires
        sorted_entries(s),
        t.len() == s.len(),
        forall|j: int| 0 <= j < t.len() ==> (#[trigger] t[j]).0@ == s[j].0@,
    ensures
        sorted_entries(t),
        entries_map(t).dom() == entries_map(s).dom(),
{
    assert forall|a: int, b: int| 0 <= a < b < t.len() implies bytes_lt(
        encode_utf8(#[trigger] t[a].0@),
        encode_utf8(#[trigger] t[b].0@),
    ) by {
        assert(t[a].0@ == s[a].0@);
        assert(t[b].0@ == s[b].0@);
    }
    assert forall|k: Seq<char>| has_name(t, k) <==> has_name(s, k) by {
        if has_name(t, k) {
            let j = choose|j: int| 0 <= j < t.len() && #[trigger] t[j].0@ == k;
            assert(s[j].0@ == k);
        }
        if has_name(s, k) {
            let j = choose|j: int| 0 <= j < s.len() && #[trigger] s[j].0@ == k;
            assert(t[j].0@ == k);
        }
    }
    assert(entries_map(t).dom() =~= entries_map(s).dom());
}

/// Where the `i`-th entry starts in the text of a table with the name and
/// value texts `entries`: after `{ ` and, for each entry before it, its
/// `name: value` and `, `.
pub open spec fn entry_offset(entries: Seq<(Seq<char>, Seq<char>)>, i: int) -> int
    decreases i,
{
    if i <= 0 {
        2
    } else {
        entry_offset(entries, i - 1) + entries[i - 1].0.len() + entries[i - 1].1.len() + 4
    }
}

proof fn lemma_entry_offset(entries: Seq<(Seq<char>, Seq<char>)>, items: Seq<Seq<char>>, i: int)
    requires
        0 <= i <= entries.len(),
        items.len() == entries.len(),
        forall|j: int| 0 <= j < items.len() ==> (#[trigger] items[j]).len() == entries[j].0.len() + 2 + entries[j].1.len(),
    ensures
        entry_offset(entries, i) == 2 + join_offset(items, 2, i),
    decreases i,
{
    if i > 0 {
        lemma_entry_offset(entries, items, i - 1);
        assert(items[i - 1].len() == entries[i - 1].0.len() + 2 + entries[i - 1].1.len());
    }
}

/// The text of a table lists every entry once, in order: `{ `, then for each
/// entry its name, `: ` and its value's text at its offset, `, ` between each
/// two entries, and ` }`.
pub proof fn law_table_text_shows_every_entry(entries: Seq<(Seq<char>, Seq<char>)>)
    requires
        entries.len() > 0,
    ensures
        FieldTable::display(entries).len() == entry_offset(entries, entries.len() - 1)
            + entries.last().0.len() + 2 + entries.last().1.len() + 2,
        FieldTable::display(entries).subrange(0, 2) == "{ "@,
        FieldTable::display(entries).subrange(
            FieldTable::display(entries).len() - 2,
            FieldTable::display(entries).len() as int,
        ) == " }"@,
        forall|i: int|
            #![trigger entry_offset(entries, i)]
            0 <= i < entries.len() ==> {
                let t = FieldTable::display(entries);
                let o = entry_offset(entries, i);
                let n = entries[i].0.len();
                let v = entries[i].1.len();
                &&& t.subrange(o, o + n) == entries[i].0
                &&& t.subrange(o + n, o + n + 2) == ": "@
                &&& t.subrange(o + n + 2, o + n + 2 + v) == entries[i].1
            },
        forall|i: int|
            #![trigger entry_offset(entries, i)]
            0 < i < entries.len() ==> FieldTable::display(entries).subrange(
                entry_offset(entries, i) - 2,
                entry_offset(entries, i),
            ) == ", "@,
{
    reveal_strlit("{ ");
    reveal_strlit(" }");
    reveal_strlit(", ");
    reveal_strlit(": ");
    let items = entries.map_values(|e: (Seq<char>, Seq<char>)| e.0 + ": "@ + e.1);
    let t = FieldTable::display(entries);
    assert(t == "{ "@ + join(items, ", "@) + " }"@);
    assert forall|j: int| 0 <= j < items.len() implies (#[trigger] items[j]).len() == entries[j].0.len() + 2
        + entries[j].1.len() by {
        assert(items[j] == entries[j].0 + ": "@ + entries[j].1);
    }
    lemma_framed_join("{ "@, items, ", "@, " }"@);
    lemma_entry_offset(entries, items, entries.len() - 1);
    assert forall|i: int|
        #![trigger entry_offset(entries, i)]
        0 <= i < entries.len() implies {
            let o = entry_offset(entries, i);
            let n = entries[i].0.len();
            let v = entries[i].1.len();
            &&& t.subrange(o, o + n) == entries[i].0
            &&& t.subrange(o + n, o + n + 2) == ": "@
            &&& t.subrange(o + n + 2, o + n + 2 + v) == entries[i].1
        } by {
        lemma_entry_offset(entries, items, i);
        assert(join_offset(items, 2, i) == join_offset(items, ", "@.len(), i));
        let x = items[i];
        let o = entry_offset(entries, i);
        let n: int = entries[i].0.len() as int;
        let v: int = entries[i].1.len() as int;
        assert(x == entries[i].0 + ": "@ + entries[i].1);
        assert(t.subrange(o, o + x.len()) == x);
        lemma_join_offset_bounds(items, 2, i);
        lemma_subrange_within(t, x, o, 0, n);
        lemma_subrange_within(t, x, o, n, n + 2);
        lemma_subrange_within(t, x, o, n + 2, n + 2 + v);
        assert(x.subrange(0, n) =~= entries[i].0);
        assert(x.subrange(n, n + 2) =~= ": "@);
        assert(x.subrange(n + 2, n + 2 + v) =~= entries[i].1);
    }
    assert forall|i: int|
        #![trigger entry_offset(entries, i)]
        0 < i < entries.len() implies t.subrange(entry_offset(entries, i) - 2, entry_offset(entries, i))
            == ", "@ by {
        lemma_entry_offset(entries, items, i);
        assert(join_offset(items, 2, i) == join_offset(items, ", "@.len(), i));
    }
}

} // verus!
