//! The codec: bidirectional conversion between a table and the single text
//! blob that is persisted. The grammar is
//!
//! ```text
//! database := entry ("|" entry)*
//! entry    := key (":" value)+
//! key      := decimal digits, fits in a 32-bit unsigned integer
//! value    := any characters except '|' and ':'
//! ```
//!
//! An empty table encodes as the empty string, and the empty string decodes
//! to the empty table. Values are stored unescaped: a value containing a
//! delimiter corrupts the blob, a known limitation of the grammar.

use vstd::prelude::*;
use crate::table::HashyMap;
use crate::table::Table;
use crate::table::has_key;
use crate::table::lemma_delete_absent_noop;
use crate::table::remove_spec;
use crate::table::wf;

verus! {

/// Decode failure: the blob does not match the grammar (a non-numeric or
/// oversized key, an entry without values) or repeats a key. `entry_index`
/// identifies the first offending '|'-separated segment.
#[derive(Clone, Copy, Debug, PartialEq, Eq, Structural)]
pub struct MalformedDatabase {
    pub entry_index: usize,
}

/// Whether `c` is a decimal digit.
pub open spec fn is_digit(c: char) -> bool {
    48 <= c as u32 <= 57
}

/// The numeric value of a digit character.
pub open spec fn digit_val(c: char) -> int {
    c as u32 - 48
}

/// The digit character for a value between 0 and 9.
pub open spec fn digit_char(d: int) -> char {
    if d == 0 {
        '0'
    } else if d == 1 {
        '1'
    } else if d == 2 {
        '2'
    } else if d == 3 {
        '3'
    } else if d == 4 {
        '4'
    } else if d == 5 {
        '5'
    } else if d == 6 {
        '6'
    } else if d == 7 {
        '7'
    } else if d == 8 {
        '8'
    } else {
        '9'
    }
}

/// The decimal representation of a non-negative integer, most significant
/// digit first, without leading zeros (zero itself is "0").
pub open spec fn digits_of(n: int) -> Seq<char>
    decreases n,
{
    if n < 10 {
        seq![digit_char(n)]
    } else {
        digits_of(n / 10).push(digit_char(n % 10))
    }
}

/// Whether every character of `s` is a decimal digit.
pub open spec fn all_digits(s: Seq<char>) -> bool {
    forall|i: int| 0 <= i < s.len() ==> is_digit(s[i])
}

/// The numeric value of a digit string, read most significant digit first.
pub open spec fn digits_val(s: Seq<char>) -> int
    decreases s.len(),
{
    if s.len() == 0 {
        0
    } else {
        digits_val(s.drop_last()) * 10 + digit_val(s.last())
    }
}

/// A well-formed key field: non-empty, all digits, and within 32-bit range.
pub open spec fn is_key(s: Seq<char>) -> bool {
    s.len() > 0 && all_digits(s) && digits_val(s) <= u32::MAX
}

/// Whether `s` contains no occurrence of the separator `sep`.
pub open spec fn sep_free(s: Seq<char>, sep: char) -> bool {
    forall|i: int| 0 <= i < s.len() ==> s[i] != sep
}

/// Split `s` on every occurrence of `sep`. Always yields at least one
/// segment; the empty string yields one empty segment.
pub open spec fn split_on(s: Seq<char>, sep: char) -> Seq<Seq<char>>
    decreases s.len(),
{
    if s.len() == 0 {
        seq![Seq::<char>::empty()]
    } else if s[0] == sep {
        seq![Seq::<char>::empty()] + split_on(s.skip(1), sep)
    } else {
        let r = split_on(s.skip(1), sep);
        seq![seq![s[0]] + r[0]] + r.skip(1)
    }
}

/// Join segments with `sep` between each adjacent pair.
pub open spec fn join_with(ps: Seq<Seq<char>>, sep: char) -> Seq<char>
    decreases ps.len(),
{
    if ps.len() == 0 {
        Seq::empty()
    } else if ps.len() == 1 {
        ps[0]
    } else {
        ps[0] + seq![sep] + join_with(ps.skip(1), sep)
    }
}

/// The encoding of one entry: the key's digits, then each value preceded by
/// a colon.
pub open spec fn encode_entry(e: (u32, Seq<Seq<char>>)) -> Seq<char> {
    join_with(seq![digits_of(e.0 as int)] + e.1, ':')
}

/// The encoding of a whole table: entries joined with '|'; the empty table
/// encodes as the empty string.
pub open spec fn encode_table(t: Table) -> Seq<char> {
    if t.len() == 0 {
        Seq::empty()
    } else {
        join_with(t.map_values(|e: (u32, Seq<Seq<char>>)| encode_entry(e)), '|')
    }
}

/// The '|'-separated segments of a blob.
pub open spec fn entries_of(s: Seq<char>) -> Seq<Seq<char>> {
    split_on(s, '|')
}

/// Whether one segment matches the entry grammar: a well-formed key field
/// followed by at least one value field.
pub open spec fn valid_entry(p: Seq<char>) -> bool {
    let fs = split_on(p, ':');
    fs.len() >= 2 && is_key(fs[0])
}

/// The entry a segment decodes to (meaningful only when `valid_entry` holds).
pub open spec fn decode_entry(p: Seq<char>) -> (u32, Seq<Seq<char>>) {
    let fs = split_on(p, ':');
    (digits_val(fs[0]) as u32, fs.skip(1))
}

/// Whether segment `i` of `ps` is acceptable: it matches the entry grammar
/// and its key repeats no earlier segment's key.
pub open spec fn entry_ok(ps: Seq<Seq<char>>, i: int) -> bool {
    valid_entry(ps[i]) && forall|j: int| 0 <= j < i ==> decode_entry(ps[j]).0 != decode_entry(
        ps[i],
    ).0
}

/// Whether a whole blob decodes: empty, or every segment acceptable.
pub open spec fn valid_blob(s: Seq<char>) -> bool {
    s.len() == 0 || forall|i: int| 0 <= i < entries_of(s).len() ==> entry_ok(entries_of(s), i)
}

/// The table a valid blob decodes to.
pub open spec fn decode_spec(s: Seq<char>) -> Table {
    if s.len() == 0 {
        Seq::empty()
    } else {
        entries_of(s).map_values(|p: Seq<char>| decode_entry(p))
    }
}

/// A table every implementation detail of the grammar can carry faithfully:
/// well-formed, and no value contains a delimiter.
pub open spec fn encodable(t: Table) -> bool {
    &&& wf(t)
    &&& forall|i: int, m: int|
        0 <= i < t.len() && 0 <= m < t[i].1.len() ==> sep_free(#[trigger] t[i].1[m], '|')
            && sep_free(t[i].1[m], ':')
}

/// The digits of a non-negative integer are digit characters, at least one.
pub proof fn lemma_digits_of_digits(n: int)
    requires
        n >= 0,
    ensures
        digits_of(n).len() >= 1,
        all_digits(digits_of(n)),
    decreases n,
{
    if n < 10 {
        assert(is_digit(digit_char(n)));
    } else {
        lemma_digits_of_digits(n / 10);
        assert(is_digit(digit_char(n % 10)));
    }
}

/// Reading back the digits of `n` yields `n`.
pub proof fn lemma_digits_val_of(n: int)
    requires
        n >= 0,
    ensures
        digits_val(digits_of(n)) == n,
    decreases n,
{
    if n < 10 {
        assert(digits_of(n) == seq![digit_char(n)]);
        assert(digits_of(n).drop_last() =~= Seq::<char>::empty());
        assert(digits_val(Seq::<char>::empty()) == 0);
        assert(digit_val(digit_char(n)) == n);
    } else {
        lemma_digits_val_of(n / 10);
        assert(digits_of(n).drop_last() =~= digits_of(n / 10));
        assert(digits_of(n).last() == digit_char(n % 10));
        assert(digit_val(digit_char(n % 10)) == n % 10);
        assert(n == (n / 10) * 10 + n % 10);
    }
}

/// The value of a digit string is non-negative.
pub proof fn lemma_digits_val_nonneg(s: Seq<char>)
    requires
        all_digits(s),
    ensures
        digits_val(s) >= 0,
    decreases s.len(),
{
    if s.len() > 0 {
        assert(all_digits(s.drop_last()));
        lemma_digits_val_nonneg(s.drop_last());
    }
}

/// Extending a digit string can only grow its value: a prefix's value is a
/// lower bound for the whole string's value.
pub proof fn lemma_digits_val_prefix_le(s: Seq<char>, i: int)
    requires
        all_digits(s),
        0 <= i <= s.len(),
    ensures
        digits_val(s.take(i)) <= digits_val(s),
    decreases s.len() - i,
{
    if i == s.len() {
        assert(s.take(i) =~= s);
    } else {
        assert(s.take(i + 1).drop_last() =~= s.take(i));
        assert(all_digits(s.take(i)));
        lemma_digits_val_nonneg(s.take(i));
        assert(digits_val(s.take(i + 1)) == digits_val(s.take(i)) * 10 + digit_val(s[i]));
        assert(digits_val(s.take(i)) * 10 >= digits_val(s.take(i))) by (nonlinear_arith)
            requires
                digits_val(s.take(i)) >= 0,
        ;
        lemma_digits_val_prefix_le(s, i + 1);
    }
}

/// A separator-free string splits into exactly one segment: itself.
pub proof fn lemma_split_sep_free(s: Seq<char>, sep: char)
    requires
        sep_free(s, sep),
    ensures
        split_on(s, sep) == seq![s],
    decreases s.len(),
{
    if s.len() == 0 {
        assert(s =~= Seq::<char>::empty());
        assert(split_on(s, sep) =~= seq![s]);
    } else {
        assert(sep_free(s.skip(1), sep));
        lemma_split_sep_free(s.skip(1), sep);
        let r = split_on(s.skip(1), sep);
        assert(r == seq![s.skip(1)]);
        assert(r[0] == s.skip(1));
        assert(r.skip(1) =~= Seq::<Seq<char>>::empty());
        assert(seq![s[0]] + r[0] =~= s);
        assert(split_on(s, sep) == seq![seq![s[0]] + r[0]] + r.skip(1));
        assert(seq![seq![s[0]] + r[0]] + r.skip(1) =~= seq![s]);
    }
}

/// Splitting a string that starts with a separator-free segment, then a
/// separator, peels off exactly that segment.
pub proof fn lemma_split_prefix(a: Seq<char>, t: Seq<char>, sep: char)
    requires
        sep_free(a, sep),
    ensures
        split_on(a + seq![sep] + t, sep) == seq![a] + split_on(t, sep),
    decreases a.len(),
{
    let s = a + seq![sep] + t;
    if a.len() == 0 {
        assert(s.len() > 0 && s[0] == sep);
        assert(s.skip(1) =~= t);
        assert(a =~= Seq::<char>::empty());
        assert(split_on(s, sep) =~= seq![a] + split_on(t, sep));
    } else {
        assert(s[0] == a[0]);
        assert(s[0] != sep);
        assert(s.skip(1) =~= a.skip(1) + seq![sep] + t);
        assert(sep_free(a.skip(1), sep));
        lemma_split_prefix(a.skip(1), t, sep);
        let r = split_on(s.skip(1), sep);
        assert(r == seq![a.skip(1)] + split_on(t, sep));
        assert(r[0] == a.skip(1));
        assert(seq![s[0]] + r[0] =~= a);
        assert(r.skip(1) =~= split_on(t, sep));
        assert(split_on(s, sep) == seq![seq![s[0]] + r[0]] + r.skip(1));
        assert(split_on(s, sep) =~= seq![a] + split_on(t, sep));
    }
}

/// Splitting undoes joining, as long as no segment contains the separator.
pub proof fn lemma_split_join(ps: Seq<Seq<char>>, sep: char)
    requires
        ps.len() >= 1,
        forall|i: int| 0 <= i < ps.len() ==> sep_free(#[trigger] ps[i], sep),
    ensures
        split_on(join_with(ps, sep), sep) == ps,
    decreases ps.len(),
{
    if ps.len() == 1 {
        lemma_split_sep_free(ps[0], sep);
        assert(split_on(join_with(ps, sep), sep) =~= ps);
    } else {
        let rest = ps.skip(1);
        assert(forall|i: int| 0 <= i < rest.len() ==> sep_free(#[trigger] rest[i], sep));
        lemma_split_join(rest, sep);
        assert(join_with(ps, sep) == ps[0] + seq![sep] + join_with(rest, sep));
        lemma_split_prefix(ps[0], join_with(rest, sep), sep);
        assert(split_on(join_with(ps, sep), sep) =~= ps);
    }
}

/// Joining one more segment appends a separator and the segment.
pub proof fn lemma_join_push(ps: Seq<Seq<char>>, p: Seq<char>, sep: char)
    requires
        ps.len() >= 1,
    ensures
        join_with(ps.push(p), sep) == join_with(ps, sep) + seq![sep] + p,
    decreases ps.len(),
{
    if ps.len() == 1 {
        assert(ps.push(p).skip(1) =~= seq![p]);
        assert(join_with(seq![p], sep) == p);
        assert(join_with(ps.push(p), sep) == ps.push(p)[0] + seq![sep] + join_with(
            ps.push(p).skip(1),
            sep,
        ));
        assert(ps.push(p)[0] == ps[0]);
        assert(join_with(ps, sep) == ps[0]);
        assert(join_with(ps.push(p), sep) == ps[0] + seq![sep] + p);
    } else {
        assert(ps.push(p).skip(1) =~= ps.skip(1).push(p));
        lemma_join_push(ps.skip(1), p, sep);
        assert(join_with(ps.push(p), sep) == ps[0] + seq![sep] + (join_with(ps.skip(1), sep)
            + seq![sep] + p));
        assert(ps[0] + seq![sep] + (join_with(ps.skip(1), sep) + seq![sep] + p) =~= (ps[0]
            + seq![sep] + join_with(ps.skip(1), sep)) + seq![sep] + p);
    }
}

/// A join contains no character other than the segments' characters and the
/// separator: in particular it stays free of any other separator.
pub proof fn lemma_join_sep_free(ps: Seq<Seq<char>>, sep: char, other: char)
    requires
        sep != other,
        forall|i: int| 0 <= i < ps.len() ==> sep_free(#[trigger] ps[i], other),
    ensures
        sep_free(join_with(ps, sep), other),
    decreases ps.len(),
{
    if ps.len() <= 1 {
    } else {
        assert(forall|i: int|
            0 <= i < ps.skip(1).len() ==> sep_free(#[trigger] ps.skip(1)[i], other));
        lemma_join_sep_free(ps.skip(1), sep, other);
        let j = ps[0] + seq![sep] + join_with(ps.skip(1), sep);
        assert forall|i: int| 0 <= i < j.len() implies j[i] != other by {
            if i < ps[0].len() {
                assert(j[i] == ps[0][i]);
            } else if i == ps[0].len() {
                assert(j[i] == sep);
            } else {
                assert(j[i] == join_with(ps.skip(1), sep)[i - ps[0].len() - 1]);
            }
        }
    }
}

/// A join is at least as long as its first segment.
proof fn lemma_join_len(ps: Seq<Seq<char>>, sep: char)
    requires
        ps.len() >= 1,
    ensures
        join_with(ps, sep).len() >= ps[0].len(),
{
    if ps.len() == 1 {
    } else {
    }
}

/// The round-trip law: decoding undoes encoding. Any well-formed table whose
/// values are free of the delimiters '|' and ':' comes back from its blob
/// with the same keys, the same value lists, and the same order. A value
/// containing a delimiter corrupts the blob (for example a table whose one
/// value is "a|b" re-reads as two entries), so such tables are excluded.
pub proof fn lemma_round_trip(t: Table)
    requires
        encodable(t),
    ensures
        valid_blob(encode_table(t)),
        decode_spec(encode_table(t)) == t,
{
    if t.len() == 0 {
        assert(decode_spec(encode_table(t)) =~= t);
    } else {
        let ents = t.map_values(|e: (u32, Seq<Seq<char>>)| encode_entry(e));
        assert forall|i: int| 0 <= i < ents.len() implies sep_free(#[trigger] ents[i], '|') by {
            let e = t[i];
            assert(ents[i] == encode_entry(e));
            let fields = seq![digits_of(e.0 as int)] + e.1;
            lemma_digits_of_digits(e.0 as int);
            assert forall|m: int| 0 <= m < fields.len() implies sep_free(
                #[trigger] fields[m],
                '|',
            ) by {
                if m == 0 {
                    assert(fields[0] == digits_of(e.0 as int));
                    assert forall|q: int| 0 <= q < fields[0].len() implies fields[0][q]
                        != '|' by {
                        assert(is_digit(digits_of(e.0 as int)[q]));
                    }
                } else {
                    assert(fields[m] == e.1[m - 1]);
                }
            }
            lemma_join_sep_free(fields, ':', '|');
        }
        lemma_split_join(ents, '|');
        assert(encode_table(t) == join_with(ents, '|'));
        assert(entries_of(encode_table(t)) == ents);
        assert forall|i: int| 0 <= i < ents.len() implies valid_entry(#[trigger] ents[i])
            && decode_entry(ents[i]) == t[i] by {
            let e = t[i];
            assert(ents[i] == encode_entry(e));
            let fields = seq![digits_of(e.0 as int)] + e.1;
            lemma_digits_of_digits(e.0 as int);
            assert forall|m: int| 0 <= m < fields.len() implies sep_free(
                #[trigger] fields[m],
                ':',
            ) by {
                if m == 0 {
                    assert(fields[0] == digits_of(e.0 as int));
                    assert forall|q: int| 0 <= q < fields[0].len() implies fields[0][q]
                        != ':' by {
                        assert(is_digit(digits_of(e.0 as int)[q]));
                    }
                } else {
                    assert(fields[m] == e.1[m - 1]);
                }
            }
            lemma_split_join(fields, ':');
            assert(split_on(ents[i], ':') == fields);
            assert(e.1.len() > 0);
            assert(fields.len() >= 2);
            assert(fields[0] == digits_of(e.0 as int));
            lemma_digits_val_of(e.0 as int);
            assert(is_key(fields[0]));
            assert(fields.skip(1) =~= e.1);
            assert(decode_entry(ents[i]) == (e.0, e.1));
        }
        assert forall|i: int| 0 <= i < ents.len() implies entry_ok(ents, i) by {
            assert forall|j: int| 0 <= j < i implies decode_entry(ents[j]).0 != decode_entry(
                ents[i],
            ).0 by {
                assert(decode_entry(ents[j]) == t[j]);
                assert(decode_entry(ents[i]) == t[i]);
                assert(t[j].0 != t[i].0);
            }
        }
        lemma_join_len(ents, '|');
        lemma_join_len(seq![digits_of(t[0].0 as int)] + t[0].1, ':');
        lemma_digits_of_digits(t[0].0 as int);
        assert(encode_table(t).len() > 0);
        assert(valid_blob(encode_table(t)));
        assert(decode_spec(encode_table(t)) =~= t);
    }
}

/// Deleting an absent key is a no-op on the table, so the encoded form of
/// the table is unchanged too.
pub proof fn lemma_delete_absent_keeps_encoding(t: Table, k: u32)
    requires
        !has_key(t, k),
    ensures
        encode_table(remove_spec(t, k)) == encode_table(t),
{
    lemma_delete_absent_noop(t, k);
}

/// The one-character string for a digit value.
fn digit_str(d: u32) -> (r: &'static str)
    requires
        d < 10,
    ensures
        r@ == seq![digit_char(d as int)],
{
    if d == 0 {
        proof {
            reveal_strlit("0");
            assert("0"@ =~= seq![digit_char(0)]);
        }
        "0"
    } else if d == 1 {
        proof {
            reveal_strlit("1");
            assert("1"@ =~= seq![digit_char(1)]);
        }
        "1"
    } else if d == 2 {
        proof {
            reveal_strlit("2");
            assert("2"@ =~= seq![digit_char(2)]);
        }
        "2"
    } else if d == 3 {
        proof {
            reveal_strlit("3");
            assert("3"@ =~= seq![digit_char(3)]);
        }
        "3"
    } else if d == 4 {
        proof {
            reveal_strlit("4");
            assert("4"@ =~= seq![digit_char(4)]);
        }
        "4"
    } else if d == 5 {
        proof {
            reveal_strlit("5");
            assert("5"@ =~= seq![digit_char(5)]);
        }
        "5"
    } else if d == 6 {
        proof {
            reveal_strlit("6");
            assert("6"@ =~= seq![digit_char(6)]);
        }
        "6"
    } else if d == 7 {
        proof {
            reveal_strlit("7");
            assert("7"@ =~= seq![digit_char(7)]);
        }
        "7"
    } else if d == 8 {
        proof {
            reveal_strlit("8");
            assert("8"@ =~= seq![digit_char(8)]);
        }
        "8"
    } else {
        proof {
            reveal_strlit("9");
            assert("9"@ =~= seq![digit_char(9)]);
        }
        "9"
    }
}

/// Render a key as its decimal digits.
fn key_to_string(n: u32) -> (r: String)
    ensures
        r@ == digits_of(n as int),
    decreases n,
{
    if n < 10 {
        String::from_str(digit_str(n))
    } else {
        let mut s = key_to_string(n / 10);
        s.append(digit_str(n % 10));
        proof {
            assert(digits_of((n as int) / 10) + seq![digit_char((n as int) % 10)] =~= digits_of(
                (n as int) / 10,
            ).push(digit_char((n as int) % 10)));
        }
        s
    }
}

/// Parse a key field: `Some` exactly when the whole string is a non-empty
/// run of digits whose value fits in 32 bits, as `parse::<u32>` accepts.
fn parse_key(s: &str) -> (r: Option<u32>)
    ensures
        match r {
            Some(k) => is_key(s@) && k == digits_val(s@),
            None => !is_key(s@),
        },
{
    let len = s.unicode_len();
    if len == 0 {
        return None;
    }
    let mut acc: u64 = 0;
    let mut i: usize = 0;
    while i < len
        invariant
            len == s@.len(),
            0 < len,
            i <= len,
            all_digits(s@.take(i as int)),
            acc == digits_val(s@.take(i as int)),
            acc <= u32::MAX,
        decreases len - i,
    {
        let c = s.get_char(i);
        let v = c as u32;
        if v < 48 || v > 57 {
            proof {
                assert(!is_digit(s@[i as int]));
            }
            return None;
        }
        proof {
            assert(s@.take(i + 1).drop_last() =~= s@.take(i as int));
            assert(s@.take(i + 1).last() == s@[i as int]);
            assert(all_digits(s@.take(i + 1)));
        }
        acc = acc * 10 + ((v - 48) as u64);
        if acc > 0xffff_ffff {
            proof {
                if all_digits(s@) {
                    lemma_digits_val_prefix_le(s@, i + 1);
                }
            }
            return None;
        }
        i = i + 1;
    }
    proof {
        assert(s@.take(len as int) =~= s@);
    }
    Some(acc as u32)
}

/// Split a string on every occurrence of `sep`, as the splitting the codec's
/// grammar is read by.
fn split_str(s: &str, sep: char) -> (r: Vec<String>)
    ensures
        r.deep_view() == split_on(s@, sep),
{
    let len = s.unicode_len();
    let mut parts: Vec<String> = Vec::new();
    let mut start: usize = 0;
    let mut i: usize = 0;
    proof {
        assert(parts.deep_view() =~= Seq::<Seq<char>>::empty());
        assert(s@.skip(0) =~= s@);
    }
    while i < len
        invariant
            len == s@.len(),
            start <= i <= len,
            sep_free(s@.subrange(start as int, i as int), sep),
            split_on(s@, sep) == parts.deep_view() + split_on(s@.skip(start as int), sep),
        decreases len - i,
    {
        let c = s.get_char(i);
        if c == sep {
            let ghost pdv = parts.deep_view();
            let ghost a = s@.subrange(start as int, i as int);
            let seg = s.substring_char(start, i);
            parts.push(String::from_str(seg));
            proof {
                assert(parts.deep_view() =~= pdv.push(a));
                assert(s@.skip(start as int) =~= a + seq![sep] + s@.skip(i + 1));
                lemma_split_prefix(a, s@.skip(i + 1), sep);
                assert(pdv + (seq![a] + split_on(s@.skip(i + 1), sep)) =~= pdv.push(a)
                    + split_on(s@.skip(i + 1), sep));
                assert(s@.subrange(i + 1, i + 1) =~= Seq::<char>::empty());
            }
            start = i + 1;
        } else {
            proof {
                assert(s@.subrange(start as int, i + 1) =~= s@.subrange(
                    start as int,
                    i as int,
                ).push(s@[i as int]));
            }
        }
        i = i + 1;
    }
    let ghost pdv = parts.deep_view();
    let ghost a = s@.subrange(start as int, len as int);
    let seg = s.substring_char(start, len);
    parts.push(String::from_str(seg));
    proof {
        assert(a =~= s@.skip(start as int));
        lemma_split_sep_free(s@.skip(start as int), sep);
        assert(parts.deep_view() =~= pdv.push(a));
        assert(pdv + seq![s@.skip(start as int)] =~= pdv.push(a));
    }
    parts
}

impl HashyMap {
    /// The encoding of entry `i` of the table: the key's digits, then each
    /// value preceded by a colon.
    fn entry_string(&self, i: usize) -> (r: String)
        requires
            i < self@.len(),
        ensures
            r@ == encode_entry(self@[i as int]),
    {
        let ghost e = self@[i as int];
        let ghost fields = seq![digits_of(e.0 as int)] + e.1;
        let mut out = key_to_string(self.table[i].0);
        proof {
            assert(e.1 == self.table@[i as int].1.deep_view());
            assert(fields.take(1) =~= seq![digits_of(e.0 as int)]);
            assert(join_with(fields.take(1), ':') == digits_of(e.0 as int));
        }
        let n = self.table[i].1.len();
        let mut j: usize = 0;
        while j < n
            invariant
                i < self@.len(),
                i < self.table@.len(),
                e == self@[i as int],
                fields == seq![digits_of(e.0 as int)] + e.1,
                n == e.1.len(),
                n == self.table@[i as int].1@.len(),
                j <= n,
                out@ == join_with(fields.take(1 + j), ':'),
            decreases n - j,
        {
            proof {
                reveal_strlit(":");
            }
            out.append(":");
            out.append(self.table[i].1[j].as_str());
            proof {
                assert(self.table@[i as int].1@[j as int]@ == e.1[j as int]);
                assert(fields.take(1 + j + 1) =~= fields.take(1 + j).push(e.1[j as int]));
                lemma_join_push(fields.take(1 + j), e.1[j as int], ':');
                assert(":"@ =~= seq![':']);
            }
            j = j + 1;
        }
        proof {
            assert(fields.take(1 + n) =~= fields);
        }
        out
    }

    /// Serialise the table to its blob: entries joined with '|', each entry
    /// its key's digits followed by its values, each preceded by a colon.
    /// The empty table encodes as the empty string. Values are written as
    /// they are; one containing a delimiter will not survive a round trip.
    pub fn to_string(&self) -> (r: String)
        ensures
            r@ == encode_table(self@),
    {
        let ghost ents = self@.map_values(|e: (u32, Seq<Seq<char>>)| encode_entry(e));
        let n = self.table.len();
        if n == 0 {
            let r = String::new();
            proof {
                assert(r@ =~= encode_table(self@));
            }
            return r;
        }
        let mut out = self.entry_string(0);
        proof {
            assert(ents.take(1) =~= seq![encode_entry(self@[0])]);
            assert(join_with(ents.take(1), '|') == encode_entry(self@[0]));
        }
        let mut i: usize = 1;
        while i < n
            invariant
                n == self@.len(),
                n == self.table@.len(),
                ents == self@.map_values(|e: (u32, Seq<Seq<char>>)| encode_entry(e)),
                1 <= i <= n,
                out@ == join_with(ents.take(i as int), '|'),
            decreases n - i,
        {
            proof {
                reveal_strlit("|");
            }
            out.append("|");
            let next = self.entry_string(i);
            out.append(next.as_str());
            proof {
                assert(ents[i as int] == encode_entry(self@[i as int]));
                assert(ents.take(i + 1) =~= ents.take(i as int).push(ents[i as int]));
                lemma_join_push(ents.take(i as int), ents[i as int], '|');
                assert("|"@ =~= seq!['|']);
            }
            i = i + 1;
        }
        proof {
            assert(ents.take(n as int) =~= ents);
        }
        out
    }

    /// Parse a blob back into a table. The empty string decodes to the empty
    /// table. Any segment that breaks the grammar — a non-numeric or
    /// oversized key, no value field — or repeats an earlier key is reported
    /// as `MalformedDatabase` naming the first offending segment; nothing
    /// here panics.
    pub fn from_string(db: String) -> (r: Result<HashyMap, MalformedDatabase>)
        ensures
            match r {
                Ok(m) => valid_blob(db@) && m@ == decode_spec(db@) && wf(m@),
                Err(e) => !valid_blob(db@) && ({
                    let ps = entries_of(db@);
                    &&& e.entry_index < ps.len()
                    &&& !entry_ok(ps, e.entry_index as int)
                    &&& forall|j: int| 0 <= j < e.entry_index ==> entry_ok(ps, j)
                }),
            },
    {
        if db.as_str().unicode_len() == 0 {
            let m = HashyMap::new();
            proof {
                assert(m@ =~= decode_spec(db@));
            }
            return Ok(m);
        }
        let ghost ps = entries_of(db@);
        let parts = split_str(db.as_str(), '|');
        let n = parts.len();
        let mut data: Vec<(u32, Vec<String>)> = Vec::new();
        proof {
            assert(data.deep_view() =~= Seq::<(u32, Seq<Seq<char>>)>::empty());
        }
        let mut i: usize = 0;
        while i < n
            invariant
                db@.len() != 0,
                ps == entries_of(db@),
                parts.deep_view() == ps,
                n == ps.len(),
                i <= n,
                forall|j: int| 0 <= j < i ==> entry_ok(ps, j),
                data.deep_view().len() == i,
                forall|j: int|
                    0 <= j < i ==> #[trigger] data.deep_view()[j] == decode_entry(ps[j]),
            decreases n - i,
        {
            let mut fields = split_str(parts[i].as_str(), ':');
            proof {
                assert(parts.deep_view()[i as int] == parts@[i as int]@);
                assert(fields.deep_view() == split_on(ps[i as int], ':'));
            }
            if fields.len() < 2 {
                proof {
                    assert(!valid_entry(ps[i as int]));
                    assert(!entry_ok(ps, i as int));
                    assert(db@.len() != 0);
                    assert(!valid_blob(db@));
                }
                return Err(MalformedDatabase { entry_index: i });
            }
            let ghost fdv = fields.deep_view();
            let key_str = fields.remove(0);
            proof {
                assert(key_str@ == fdv[0]);
                assert(fields.deep_view() =~= fdv.skip(1));
            }
            let key = match parse_key(key_str.as_str()) {
                Some(k) => k,
                None => {
                    proof {
                        assert(!is_key(fdv[0]));
                        assert(!valid_entry(ps[i as int]));
                        assert(!entry_ok(ps, i as int));
                    }
                    return Err(MalformedDatabase { entry_index: i });
                },
            };
            proof {
                assert(decode_entry(ps[i as int]) == (key, fdv.skip(1)));
                assert(valid_entry(ps[i as int]));
            }
            let mut dup = false;
            let mut j: usize = 0;
            while j < data.len()
                invariant
                    data.deep_view().len() == data@.len(),
                    j <= data@.len(),
                    dup ==> (exists|m: int|
                        0 <= m < data@.len() && #[trigger] data@[m].0 == key),
                    !dup ==> forall|m: int| 0 <= m < j ==> #[trigger] data@[m].0 != key,
                decreases data@.len() - j,
            {
                if data[j].0 == key {
                    dup = true;
                }
                j = j + 1;
            }
            if dup {
                proof {
                    let m = choose|m: int|
                        0 <= m < data@.len() && #[trigger] data@[m].0 == key;
                    assert(data.deep_view()[m] == decode_entry(ps[m]));
                    assert(data.deep_view()[m].0 == data@[m].0);
                    assert(decode_entry(ps[m]).0 == decode_entry(ps[i as int]).0);
                    assert(!entry_ok(ps, i as int));
                }
                return Err(MalformedDatabase { entry_index: i });
            }
            proof {
                assert forall|j2: int| 0 <= j2 < i implies decode_entry(ps[j2]).0
                    != decode_entry(ps[i as int]).0 by {
                    assert(data.deep_view()[j2] == decode_entry(ps[j2]));
                    assert(data@[j2].0 == data.deep_view()[j2].0);
                }
                assert(entry_ok(ps, i as int));
            }
            let ghost ddv = data.deep_view();
            data.push((key, fields));
            proof {
                assert(data.deep_view() =~= ddv.push((key, fdv.skip(1))));
            }
            i = i + 1;
        }
        let m = HashyMap { table: data };
        proof {
            assert(valid_blob(db@));
            assert(m@ =~= decode_spec(db@));
            assert forall|a: int, b: int|
                0 <= a < m@.len() && 0 <= b < m@.len() && a != b implies m@[a].0 != m@[b].0 by {
                if a < b {
                    assert(entry_ok(ps, b));
                } else {
                    assert(entry_ok(ps, a));
                }
            }
            assert forall|a: int| 0 <= a < m@.len() implies m@[a].1.len() > 0 by {
                assert(entry_ok(ps, a));
                assert(split_on(ps[a], ':').len() >= 2);
            }
        }
        Ok(m)
    }
}

} // verus!
