//! Parsing frequency-ranked corpus text into ranked frequency tables.
//!
//! Each non-empty input line has the shape `"<count> <token>"`: the text up
//! to the first space must parse as an unsigned 64-bit count, and the rest of
//! the line is the raw token, sanitized for display. Lines that do not parse
//! are dropped. The collected entries are ranked by count descending, ties
//! keeping their first-seen order (a stable sort).

use vstd::prelude::*;

use crate::sanitize::cleaned_text;
use crate::sanitize::CustomDebugString;

verus! {

/// Spec-level frequency entry: a count and the sanitized token text.
pub type EntryV = (u64, Seq<char>);

/// A decimal digit.
pub open spec fn is_digit(c: char) -> bool {
    48 <= (c as u32) && (c as u32) <= 57
}

/// The numeric value of a decimal digit.
pub open spec fn digit_val(c: char) -> nat {
    ((c as u32) - 48) as nat
}

pub open spec fn all_digits(s: Seq<char>) -> bool {
    forall|i: int| 0 <= i < s.len() ==> is_digit(#[trigger] s[i])
}

/// The value of a sequence of decimal digits, most significant first.
pub open spec fn digits_val(s: Seq<char>) -> nat
    decreases s.len(),
{
    if s.len() == 0 {
        0
    } else {
        digits_val(s.drop_last()) * 10 + digit_val(s.last())
    }
}

/// What a count field parses to: an optional leading '+', then at least one
/// decimal digit, whose value must fit in a u64.
pub open spec fn parse_count(s: Seq<char>) -> Option<u64> {
    let digits = if s.len() > 0 && s[0] == '+' {
        s.subrange(1, s.len() as int)
    } else {
        s
    };
    if digits.len() == 0 || !all_digits(digits) || digits_val(digits) > u64::MAX {
        None
    } else {
        Some(digits_val(digits) as u64)
    }
}

/// The index of the first occurrence of `c` in `s`, or -1 if there is none.
pub open spec fn find_char(s: Seq<char>, c: char) -> int
    decreases s.len(),
{
    if s.len() == 0 {
        -1
    } else if s[0] == c {
        0
    } else if find_char(s.drop_first(), c) < 0 {
        -1
    } else {
        find_char(s.drop_first(), c) + 1
    }
}

proof fn lemma_find_char_at(s: Seq<char>, c: char, k: int)
    requires
        0 <= k < s.len(),
        s[k] == c,
        forall|j: int| 0 <= j < k ==> #[trigger] s[j] != c,
    ensures
        find_char(s, c) == k,
    decreases s.len(),
{
    if k > 0 {
        let rest = s.drop_first();
        assert forall|j: int| 0 <= j < k - 1 implies #[trigger] rest[j] != c by {
            assert(rest[j] == s[j + 1]);
        }
        assert(rest[k - 1] == s[k]);
        lemma_find_char_at(rest, c, k - 1);
    }
}

proof fn lemma_find_char_none(s: Seq<char>, c: char)
    requires
        forall|j: int| 0 <= j < s.len() ==> #[trigger] s[j] != c,
    ensures
        find_char(s, c) == -1,
    decreases s.len(),
{
    if s.len() > 0 {
        let rest = s.drop_first();
        assert forall|j: int| 0 <= j < rest.len() implies #[trigger] rest[j] != c by {
            assert(rest[j] == s[j + 1]);
        }
        lemma_find_char_none(rest, c);
    }
}

/// What one input line parses to: the text before the first space as the
/// count, the rest of the line, sanitized, as the token. A line without a
/// space, or whose count does not parse, yields nothing.
pub open spec fn parse_line(line: Seq<char>) -> Option<EntryV> {
    let i = find_char(line, ' ');
    if !(0 <= i < line.len()) {
        None
    } else {
        match parse_count(line.subrange(0, i)) {
            Some(count) => Some((count, cleaned_text(line.subrange(i + 1, line.len() as int)))),
            None => None,
        }
    }
}

/// A line with one trailing carriage return removed.
pub open spec fn strip_cr(l: Seq<char>) -> Seq<char> {
    if l.len() > 0 && l.last() == '\r' {
        l.drop_last()
    } else {
        l
    }
}

/// The lines of a text: split at each '\n', dropping a '\r' just before the
/// split point; a final line ending is optional.
pub open spec fn lines_of(s: Seq<char>) -> Seq<Seq<char>>
    decreases s.len(),
{
    if s.len() == 0 {
        Seq::empty()
    } else {
        let i = find_char(s, '\n');
        if 0 <= i < s.len() {
            seq![strip_cr(s.subrange(0, i))] + lines_of(s.subrange(i + 1, s.len() as int))
        } else {
            seq![s]
        }
    }
}

/// The entries that a sequence of lines parses to, in input order; lines
/// that do not parse are dropped, not fatal.
pub open spec fn parsed_entries(lines: Seq<Seq<char>>) -> Seq<EntryV>
    decreases lines.len(),
{
    if lines.len() == 0 {
        Seq::empty()
    } else {
        match parse_line(lines.last()) {
            Some(e) => parsed_entries(lines.drop_last()).push(e),
            None => parsed_entries(lines.drop_last()),
        }
    }
}

/// Ranked non-increasing by count.
pub open spec fn sorted_desc(s: Seq<EntryV>) -> bool {
    forall|i: int, j: int| 0 <= i < j < s.len() ==> #[trigger] s[i].0 >= #[trigger] s[j].0
}

/// `e` placed after every entry whose count is at least `e`'s, before the
/// first entry with a smaller count.
pub open spec fn insert_desc(t: Seq<EntryV>, e: EntryV) -> Seq<EntryV>
    decreases t.len(),
{
    if t.len() == 0 {
        seq![e]
    } else if t[0].0 >= e.0 {
        seq![t[0]] + insert_desc(t.drop_first(), e)
    } else {
        seq![e] + t
    }
}

/// The position `insert_desc` puts its entry at.
pub open spec fn insert_pos(t: Seq<EntryV>, e: EntryV) -> int
    decreases t.len(),
{
    if t.len() == 0 {
        0
    } else if t[0].0 >= e.0 {
        1 + insert_pos(t.drop_first(), e)
    } else {
        0
    }
}

/// The ranking of a sequence of entries: each entry in input order inserted
/// after all entries with a count at least its own. This is the stable
/// descending sort by count.
pub open spec fn stable_sort(s: Seq<EntryV>) -> Seq<EntryV>
    decreases s.len(),
{
    if s.len() == 0 {
        Seq::empty()
    } else {
        insert_desc(stable_sort(s.drop_last()), s.last())
    }
}

proof fn lemma_insert_desc_shape(t: Seq<EntryV>, e: EntryV)
    ensures
        0 <= insert_pos(t, e) <= t.len(),
        insert_desc(t, e) == t.subrange(0, insert_pos(t, e)) + seq![e] + t.subrange(
            insert_pos(t, e),
            t.len() as int,
        ),
        forall|j: int| 0 <= j < insert_pos(t, e) ==> #[trigger] t[j].0 >= e.0,
        insert_pos(t, e) < t.len() ==> t[insert_pos(t, e)].0 < e.0,
    decreases t.len(),
{
    if t.len() == 0 {
        assert(insert_desc(t, e) =~= t.subrange(0, 0) + seq![e] + t.subrange(0, 0));
    } else if t[0].0 >= e.0 {
        let rest = t.drop_first();
        lemma_insert_desc_shape(rest, e);
        let p = insert_pos(t, e);
        assert(p == 1 + insert_pos(rest, e));
        assert forall|j: int| 0 <= j < p implies #[trigger] t[j].0 >= e.0 by {
            if j > 0 {
                assert(rest[j - 1] == t[j]);
            }
        }
        if p < t.len() {
            assert(t[p] == rest[p - 1]);
        }
        assert(insert_desc(t, e) =~= t.subrange(0, p) + seq![e] + t.subrange(p, t.len() as int));
    } else {
        assert(insert_desc(t, e) =~= t.subrange(0, 0) + seq![e] + t.subrange(0, t.len() as int));
    }
}

proof fn lemma_insert_pos_at(t: Seq<EntryV>, e: EntryV, k: int)
    requires
        0 <= k <= t.len(),
        forall|j: int| 0 <= j < k ==> #[trigger] t[j].0 >= e.0,
        k < t.len() ==> t[k].0 < e.0,
    ensures
        insert_pos(t, e) == k,
    decreases t.len(),
{
    if t.len() > 0 && t[0].0 >= e.0 {
        let rest = t.drop_first();
        assert forall|j: int| 0 <= j < k - 1 implies #[trigger] rest[j].0 >= e.0 by {
            assert(rest[j] == t[j + 1]);
        }
        if k - 1 < rest.len() {
            assert(rest[k - 1] == t[k]);
        }
        lemma_insert_pos_at(rest, e, k - 1);
    }
}

/// Inserting into a ranked sequence keeps it ranked.
proof fn lemma_insert_desc_sorted(t: Seq<EntryV>, e: EntryV)
    requires
        sorted_desc(t),
    ensures
        sorted_desc(insert_desc(t, e)),
{
    lemma_insert_desc_shape(t, e);
    let p = insert_pos(t, e);
    let r = insert_desc(t, e);
    assert forall|i: int, j: int|
        0 <= i < j < r.len() implies #[trigger] r[i].0 >= #[trigger] r[j].0 by {
        if i < p {
            assert(r[i] == t[i]);
        } else if i == p {
            assert(r[i] == e);
        } else {
            assert(r[i] == t[i - 1]);
        }
        if j < p {
            assert(r[j] == t[j]);
        } else if j == p {
            assert(r[j] == e);
        } else {
            assert(r[j] == t[j - 1]);
        }
    }
}

/// Law: the ranking of any entry sequence is sorted non-increasing by count.
pub proof fn lemma_stable_sort_sorted(s: Seq<EntryV>)
    ensures
        sorted_desc(stable_sort(s)),
    decreases s.len(),
{
    if s.len() > 0 {
        lemma_stable_sort_sorted(s.drop_last());
        lemma_insert_desc_sorted(stable_sort(s.drop_last()), s.last());
    }
}

/// The predicate picking the entries of one count value.
pub open spec fn with_count(c: u64) -> spec_fn(EntryV) -> bool {
    |e: EntryV| e.0 == c
}

proof fn lemma_filter_all_false(s: Seq<EntryV>, pred: spec_fn(EntryV) -> bool)
    requires
        forall|i: int| 0 <= i < s.len() ==> !pred(#[trigger] s[i]),
    ensures
        s.filter(pred) == Seq::<EntryV>::empty(),
    decreases s.len(),
{
    reveal(Seq::filter);
    if s.len() > 0 {
        let rest = s.drop_last();
        assert forall|i: int| 0 <= i < rest.len() implies !pred(#[trigger] rest[i]) by {
            assert(rest[i] == s[i]);
        }
        assert(!pred(s.last()));
        lemma_filter_all_false(rest, pred);
    }
}

proof fn lemma_filter_singleton(e: EntryV, pred: spec_fn(EntryV) -> bool)
    ensures
        seq![e].filter(pred) == if pred(e) {
            seq![e]
        } else {
            Seq::<EntryV>::empty()
        },
{
    reveal(Seq::filter);
    assert(seq![e].drop_last() =~= Seq::<EntryV>::empty());
    assert(seq![e].last() == e);
    assert(Seq::<EntryV>::empty().filter(pred) =~= Seq::<EntryV>::empty());
    if pred(e) {
        assert(seq![e].filter(pred) =~= seq![e]);
    }
}

proof fn lemma_insert_desc_filter(t: Seq<EntryV>, e: EntryV, c: u64)
    requires
        sorted_desc(t),
    ensures
        insert_desc(t, e).filter(with_count(c)) == if e.0 == c {
            t.filter(with_count(c)).push(e)
        } else {
            t.filter(with_count(c))
        },
{
    let pred = with_count(c);
    lemma_insert_desc_shape(t, e);
    let p = insert_pos(t, e);
    let a = t.subrange(0, p);
    let b = t.subrange(p, t.len() as int);
    assert(t =~= a + b);
    Seq::filter_distributes_over_add(a, b, pred);
    Seq::filter_distributes_over_add(a + seq![e], b, pred);
    Seq::filter_distributes_over_add(a, seq![e], pred);
    lemma_filter_singleton(e, pred);
    assert(insert_desc(t, e) == (a + seq![e]) + b);
    if e.0 == c {
        assert forall|i: int| 0 <= i < b.len() implies !pred(#[trigger] b[i]) by {
            assert(b[i] == t[p + i]);
            if p + i > p {
                assert(t[p].0 >= t[p + i].0);
            }
            assert(t[p + i].0 < e.0);
        }
        lemma_filter_all_false(b, pred);
        assert(insert_desc(t, e).filter(pred) =~= t.filter(pred).push(e));
    } else {
        assert(insert_desc(t, e).filter(pred) =~= t.filter(pred));
    }
}

proof fn lemma_insert_desc_multiset(t: Seq<EntryV>, e: EntryV)
    ensures
        insert_desc(t, e).to_multiset() == t.to_multiset().insert(e),
{
    broadcast use vstd::multiset::group_multiset_axioms;
    broadcast use vstd::seq_lib::lemma_multiset_commutative;

    lemma_insert_desc_shape(t, e);
    let p = insert_pos(t, e);
    let a = t.subrange(0, p);
    let b = t.subrange(p, t.len() as int);
    assert(t =~= a + b);
    assert(insert_desc(t, e) == (a + seq![e]) + b);
    a.to_multiset_ensures();
    assert(a.push(e) =~= a + seq![e]);
    assert(insert_desc(t, e).to_multiset() =~= t.to_multiset().insert(e));
}

/// Law: ranking loses nothing and invents nothing; the ranked entries are
/// exactly the parsed entries, as a multiset.
pub proof fn lemma_stable_sort_permutes(s: Seq<EntryV>)
    ensures
        stable_sort(s).to_multiset() == s.to_multiset(),
    decreases s.len(),
{
    if s.len() > 0 {
        lemma_stable_sort_permutes(s.drop_last());
        lemma_insert_desc_multiset(stable_sort(s.drop_last()), s.last());
        s.drop_last().to_multiset_ensures();
        assert(s.drop_last().push(s.last()) =~= s);
        assert(stable_sort(s).to_multiset() =~= s.to_multiset());
    } else {
        assert(stable_sort(s) =~= s);
    }
}

/// Law: ranking is stable. For every count value, the ranked sequence keeps
/// the entries of that count in their original relative order.
pub proof fn lemma_stable_sort_stable(s: Seq<EntryV>, c: u64)
    ensures
        stable_sort(s).filter(with_count(c)) == s.filter(with_count(c)),
    decreases s.len(),
{
    reveal(Seq::filter);
    if s.len() > 0 {
        lemma_stable_sort_stable(s.drop_last(), c);
        lemma_stable_sort_sorted(s.drop_last());
        lemma_insert_desc_filter(stable_sort(s.drop_last()), s.last(), c);
    }
}

/// One ranked frequency entry: how often a token was seen, and its sanitized
/// text.
pub struct FrequencyEntry {
    pub count: u64,
    pub token: CustomDebugString,
}

impl View for FrequencyEntry {
    type V = EntryV;

    open spec fn view(&self) -> EntryV {
        (self.count, self.token@)
    }
}

impl Clone for FrequencyEntry {
    fn clone(&self) -> (r: Self)
        ensures
            r@ == self@,
    {
        FrequencyEntry { count: self.count, token: self.token.clone() }
    }
}

/// The entry views of a sequence of entries.
pub open spec fn entry_views(s: Seq<FrequencyEntry>) -> Seq<EntryV> {
    Seq::new(s.len(), |i: int| s[i]@)
}

/// One n-gram length's frequency table: entries ranked by count descending,
/// ties in first-seen order.
pub struct FrequencyTable {
    entries: Vec<FrequencyEntry>,
}

impl View for FrequencyTable {
    type V = Seq<EntryV>;

    closed spec fn view(&self) -> Seq<EntryV> {
        entry_views(self.entries@)
    }
}

/// Whether `c` is a decimal digit, and its value.
fn digit_of(c: char) -> (r: Option<u64>)
    ensures
        r == if is_digit(c) {
            Some(digit_val(c) as u64)
        } else {
            None::<u64>
        },
{
    let u = c as u32;
    if 48 <= u && u <= 57 {
        Some((u - 48) as u64)
    } else {
        None
    }
}

proof fn lemma_digits_val_prefix_le(s: Seq<char>, k: int)
    requires
        0 <= k <= s.len(),
    ensures
        digits_val(s.subrange(0, k)) <= digits_val(s),
    decreases s.len() - k,
{
    if k == s.len() {
        assert(s.subrange(0, k) =~= s);
    } else {
        let t = s.subrange(0, k + 1);
        assert(t.drop_last() =~= s.subrange(0, k));
        assert(digits_val(t) == digits_val(s.subrange(0, k)) * 10 + digit_val(t.last()));
        assert(digits_val(s.subrange(0, k)) * 10 >= digits_val(s.subrange(0, k)));
        lemma_digits_val_prefix_le(s, k + 1);
    }
}

/// Parses a count field: an optional leading '+', then decimal digits whose
/// value fits in a u64.
fn parse_count_field(s: &str) -> (r: Option<u64>)
    ensures
        r == parse_count(s@),
{
    let n = s.unicode_len();
    let start: usize = if n > 0 && s.get_char(0) == '+' {
        1
    } else {
        0
    };
    let ghost digits = if s@.len() > 0 && s@[0] == '+' {
        s@.subrange(1, s@.len() as int)
    } else {
        s@
    };
    proof {
        assert(digits =~= s@.subrange(start as int, n as int));
    }
    if start == n {
        return None;
    }
    let mut val: u64 = 0;
    let mut i: usize = start;
    while i < n
        invariant
            start <= i <= n,
            n == s@.len(),
            start < n,
            digits == (if s@.len() > 0 && s@[0] == '+' {
                s@.subrange(1, s@.len() as int)
            } else {
                s@
            }),
            digits =~= s@.subrange(start as int, n as int),
            all_digits(digits.subrange(0, i - start)),
            val == digits_val(digits.subrange(0, i - start)),
        decreases n - i,
    {
        let c = s.get_char(i);
        proof {
            assert(digits[i - start] == s@[i as int]);
        }
        let d = match digit_of(c) {
            Some(d) => d,
            None => {
                proof {
                    assert(!is_digit(digits[i - start]));
                    assert(!all_digits(digits));
                    assert(parse_count(s@) is None) by {
                        let dd = if s@.len() > 0 && s@[0] == '+' {
                            s@.subrange(1, s@.len() as int)
                        } else {
                            s@
                        };
                        assert(dd == digits);
                        assert(!all_digits(dd));
                    }
                }
                return None;
            },
        };
        let ghost prefix = digits.subrange(0, i - start);
        let ghost next = digits.subrange(0, i - start + 1);
        proof {
            assert(next.drop_last() =~= prefix);
            assert(next.last() == digits[i - start]);
            assert(digits_val(next) == digits_val(prefix) * 10 + digit_val(c));
        }
        let prod = match val.checked_mul(10) {
            Some(p) => p,
            None => {
                proof {
                    assert(digits_val(next) > u64::MAX);
                    lemma_digits_val_prefix_le(digits, i - start + 1);
                    assert(parse_count(s@) is None) by {
                        let dd = if s@.len() > 0 && s@[0] == '+' {
                            s@.subrange(1, s@.len() as int)
                        } else {
                            s@
                        };
                        assert(dd == digits);
                        assert(digits_val(dd) > u64::MAX);
                    }
                }
                return None;
            },
        };
        let sum = match prod.checked_add(d) {
            Some(x) => x,
            None => {
                proof {
                    assert(digits_val(next) > u64::MAX);
                    lemma_digits_val_prefix_le(digits, i - start + 1);
                    assert(parse_count(s@) is None) by {
                        let dd = if s@.len() > 0 && s@[0] == '+' {
                            s@.subrange(1, s@.len() as int)
                        } else {
                            s@
                        };
                        assert(dd == digits);
                        assert(digits_val(dd) > u64::MAX);
                    }
                }
                return None;
            },
        };
        val = sum;
        i = i + 1;
        proof {
            assert forall|j: int| 0 <= j < i - start implies is_digit(#[trigger] next[j]) by {
                if j < i - start - 1 {
                    assert(next[j] == prefix[j]);
                } else {
                    assert(next[j] == digits[i - 1 - start]);
                }
            }
            assert(digits.subrange(0, i - start) == next);
            assert(all_digits(digits.subrange(0, i - start)));
            assert(val == digits_val(digits.subrange(0, i - start)));
        }
    }
    proof {
        assert(digits.subrange(0, n - start) =~= digits);
    }
    Some(val)
}

/// The first occurrence of `c` in `s` at or after `start`, if any.
fn find_char_at(s: &str, start: usize, c: char) -> (r: Option<usize>)
    requires
        start <= s@.len(),
    ensures
        match r {
            Some(k) => start <= k < s@.len() && s@[k as int] == c && (forall|j: int|
                start <= j < k ==> #[trigger] s@[j] != c),
            None => forall|j: int| start <= j < s@.len() ==> #[trigger] s@[j] != c,
        },
{
    let n = s.unicode_len();
    let mut i: usize = start;
    while i < n
        invariant
            start <= i <= n,
            n == s@.len(),
            forall|j: int| start <= j < i ==> #[trigger] s@[j] != c,
        decreases n - i,
    {
        if s.get_char(i) == c {
            return Some(i);
        }
        i = i + 1;
    }
    None
}

/// Parses one input line into an entry, or nothing if the line does not have
/// the `"<count> <token>"` shape.
fn parse_entry_line(line: &str) -> (r: Option<FrequencyEntry>)
    ensures
        match r {
            Some(e) => parse_line(line@) == Some(e@),
            None => parse_line(line@) is None,
        },
{
    let n = line.unicode_len();
    match find_char_at(line, 0, ' ') {
        None => {
            proof {
                lemma_find_char_none(line@, ' ');
            }
            None
        },
        Some(k) => {
            proof {
                lemma_find_char_at(line@, ' ', k as int);
            }
            let num = line.substring_char(0, k);
            match parse_count_field(num) {
                None => None,
                Some(count) => {
                    let raw = line.substring_char(k + 1, n);
                    let token = CustomDebugString::cleaned(raw);
                    Some(FrequencyEntry { count, token })
                },
            }
        },
    }
}

/// The line views of a vector of lines.
pub open spec fn line_views(s: Seq<String>) -> Seq<Seq<char>> {
    Seq::new(s.len(), |i: int| s[i]@)
}

/// Splits text into lines, as `lines_of` describes.
fn split_lines(s: &str) -> (r: Vec<String>)
    ensures
        line_views(r@) == lines_of(s@),
{
    let n = s.unicode_len();
    let mut out: Vec<String> = Vec::new();
    let mut pos: usize = 0;
    proof {
        assert(s@.subrange(0, n as int) =~= s@);
        assert(line_views(out@) =~= Seq::<Seq<char>>::empty());
        assert(line_views(out@) + lines_of(s@) =~= lines_of(s@));
    }
    while pos < n
        invariant
            pos <= n,
            n == s@.len(),
            lines_of(s@) == line_views(out@) + lines_of(s@.subrange(pos as int, n as int)),
        decreases n - pos,
    {
        let ghost rest = s@.subrange(pos as int, n as int);
        let ghost out0 = out@;
        match find_char_at(s, pos, '\n') {
            None => {
                proof {
                    assert forall|j: int| 0 <= j < rest.len() implies #[trigger] rest[j]
                        != '\n' by {
                        assert(rest[j] == s@[pos + j]);
                    }
                    lemma_find_char_none(rest, '\n');
                }
                let piece = s.substring_char(pos, n);
                out.push(String::from_str(piece));
                proof {
                    assert(lines_of(rest) =~= seq![rest]);
                    assert(line_views(out@) =~= line_views(out0).push(rest));
                    assert(line_views(out@) + lines_of(s@.subrange(n as int, n as int))
                        =~= line_views(out0) + lines_of(rest));
                }
                pos = n;
            },
            Some(k) => {
                proof {
                    assert(rest[k - pos] == s@[k as int]);
                    assert forall|j: int| 0 <= j < k - pos implies #[trigger] rest[j]
                        != '\n' by {
                        assert(rest[j] == s@[pos + j]);
                    }
                    lemma_find_char_at(rest, '\n', k - pos);
                }
                let piece = if k > pos && s.get_char(k - 1) == '\r' {
                    s.substring_char(pos, k - 1)
                } else {
                    s.substring_char(pos, k)
                };
                let ghost line = strip_cr(rest.subrange(0, k - pos));
                proof {
                    if k > pos && s@[k - 1] == '\r' {
                        assert(rest.subrange(0, k - pos).last() == s@[k - 1]);
                        assert(rest.subrange(0, k - pos).drop_last() =~= s@.subrange(
                            pos as int,
                            k - 1,
                        ));
                        assert(piece@ =~= line);
                    } else {
                        assert(rest.subrange(0, k - pos) =~= s@.subrange(pos as int, k as int));
                        if rest.subrange(0, k - pos).len() > 0 {
                            assert(rest.subrange(0, k - pos).last() == s@[k - 1]);
                        }
                        assert(piece@ =~= line);
                    }
                }
                out.push(String::from_str(piece));
                proof {
                    assert(rest.subrange(k - pos + 1, rest.len() as int) =~= s@.subrange(
                        k + 1,
                        n as int,
                    ));
                    assert(lines_of(rest) =~= seq![line] + lines_of(s@.subrange(k + 1, n as int)));
                    assert(line_views(out@) =~= line_views(out0).push(line));
                    assert(line_views(out@) + lines_of(s@.subrange(k + 1, n as int)) =~= line_views(
                        out0,
                    ) + lines_of(rest));
                }
                pos = k + 1;
            },
        }
    }
    proof {
        assert(s@.subrange(pos as int, n as int).len() == 0);
        assert(lines_of(s@.subrange(pos as int, n as int)) =~= Seq::<Seq<char>>::empty());
        assert(line_views(out@) =~= line_views(out@) + lines_of(s@.subrange(pos as int, n as int)));
    }
    out
}

/// Inserts an entry into a ranked vector, after every entry whose count is
/// at least its own.
fn insert_entry(entries: &mut Vec<FrequencyEntry>, e: FrequencyEntry)
    requires
        sorted_desc(entry_views(old(entries)@)),
    ensures
        entry_views(final(entries)@) == insert_desc(entry_views(old(entries)@), e@),
        sorted_desc(entry_views(final(entries)@)),
{
    let ghost t = entry_views(entries@);
    let ghost ev = e@;
    let mut k: usize = 0;
    while k < entries.len() && entries[k].count >= e.count
        invariant
            k <= entries.len(),
            entries == old(entries),
            t == entry_views(entries@),
            ev == e@,
            forall|j: int| 0 <= j < k ==> #[trigger] t[j].0 >= ev.0,
        decreases entries.len() - k,
    {
        proof {
            assert(t[k as int].0 == entries@[k as int].count);
        }
        k = k + 1;
    }
    proof {
        if k < entries.len() {
            assert(t[k as int].0 == entries@[k as int].count);
        }
        lemma_insert_pos_at(t, ev, k as int);
        lemma_insert_desc_shape(t, ev);
        lemma_insert_desc_sorted(t, ev);
    }
    entries.insert(k, e);
    proof {
        assert(entry_views(entries@) =~= t.subrange(0, k as int) + seq![ev] + t.subrange(
            k as int,
            t.len() as int,
        ));
    }
}

impl FrequencyTable {
    /// Ranked non-increasing by count.
    pub open spec fn wf(&self) -> bool {
        sorted_desc(self@)
    }

    /// Parses corpus text, one `"<count> <token>"` entry per line, dropping
    /// lines that do not parse, and ranks the entries by count descending
    /// with first-seen order on ties.
    pub fn from_text(contents: &str) -> (t: FrequencyTable)
        ensures
            t@ == stable_sort(parsed_entries(lines_of(contents@))),
            t.wf(),
    {
        let lines = split_lines(contents);
        let ghost lv = line_views(lines@);
        let mut entries: Vec<FrequencyEntry> = Vec::new();
        let mut i: usize = 0;
        proof {
            assert(entry_views(entries@) =~= Seq::<EntryV>::empty());
            assert(lv.subrange(0, 0) =~= Seq::<Seq<char>>::empty());
        }
        while i < lines.len()
            invariant
                i <= lines.len(),
                lv == line_views(lines@),
                lv == lines_of(contents@),
                entry_views(entries@) == stable_sort(parsed_entries(lv.subrange(0, i as int))),
                sorted_desc(entry_views(entries@)),
            decreases lines.len() - i,
        {
            let line: &String = &lines[i];
            proof {
                assert(lv[i as int] == line@);
                assert(lv.subrange(0, i + 1).drop_last() =~= lv.subrange(0, i as int));
                assert(lv.subrange(0, i + 1).last() == line@);
            }
            let ghost parsed = parsed_entries(lv.subrange(0, i as int));
            match parse_entry_line(line.as_str()) {
                Some(e) => {
                    proof {
                        assert(parsed_entries(lv.subrange(0, i + 1)) == parsed.push(e@));
                        assert(parsed.push(e@).drop_last() =~= parsed);
                        assert(parsed.push(e@).len() > 0);
                        assert(stable_sort(parsed.push(e@)) == insert_desc(
                            stable_sort(parsed),
                            e@,
                        ));
                    }
                    insert_entry(&mut entries, e);
                },
                None => {
                    proof {
                        assert(parsed_entries(lv.subrange(0, i + 1)) == parsed);
                    }
                },
            }
            i = i + 1;
        }
        proof {
            assert(lv.subrange(0, lines@.len() as int) =~= lv);
        }
        FrequencyTable { entries }
    }

    /// The number of entries: the count of distinct ranked tokens.
    pub fn len(&self) -> (n: usize)
        ensures
            n == self@.len(),
    {
        self.entries.len()
    }

    pub fn is_empty(&self) -> (b: bool)
        ensures
            b == (self@.len() == 0),
    {
        self.entries.len() == 0
    }

    /// The count of the entry at rank `i`.
    pub fn count_at(&self, i: usize) -> (c: u64)
        requires
            i < self@.len(),
        ensures
            c == self@[i as int].0,
    {
        self.entries[i].count
    }

    /// The sanitized token of the entry at rank `i`.
    pub fn token_at(&self, i: usize) -> (t: &CustomDebugString)
        requires
            i < self@.len(),
        ensures
            t@ == self@[i as int].1,
    {
        &self.entries[i].token
    }

    /// A new table holding the top `limit` entries of this one; the original
    /// is left as it is.
    pub fn truncated(&self, limit: usize) -> (r: FrequencyTable)
        ensures
            r@ == self@.subrange(
                0,
                if limit <= self@.len() {
                    limit as int
                } else {
                    self@.len() as int
                },
            ),
            self.wf() ==> r.wf(),
    {
        let m = if limit <= self.entries.len() {
            limit
        } else {
            self.entries.len()
        };
        let mut entries: Vec<FrequencyEntry> = Vec::new();
        let mut i: usize = 0;
        proof {
            assert(entry_views(entries@) =~= self@.subrange(0, 0));
        }
        while i < m
            invariant
                i <= m,
                m <= self@.len(),
                m == if limit <= self@.len() {
                    limit as int
                } else {
                    self@.len() as int
                },
                entry_views(entries@) == self@.subrange(0, i as int),
            decreases m - i,
        {
            let e = self.entries[i].clone();
            let ghost prev = entries@;
            entries.push(e);
            proof {
                assert(entry_views(prev).len() == prev.len());
                assert(prev.len() == i as int);
                assert(entries@ == prev.push(e));
                assert forall|j: int|
                    0 <= j < i + 1 implies entry_views(entries@)[j] == self@.subrange(0, i + 1)[j] by {
                    if j < i {
                        assert(entries@[j] == prev[j]);
                        assert(entry_views(prev)[j] == self@[j]);
                    } else {
                        assert(entries@[j] == e);
                        assert(entry_views(self.entries@)[i as int] == self.entries@[i as int]@);
                    }
                }
                assert(entry_views(entries@) =~= self@.subrange(0, i + 1));
            }
            i = i + 1;
        }
        let r = FrequencyTable { entries };
        proof {
            if self.wf() {
                assert forall|a: int, b: int|
                    0 <= a < b < r@.len() implies #[trigger] r@[a].0 >= #[trigger] r@[b].0 by {
                    assert(r@[a] == self@[a]);
                    assert(r@[b] == self@[b]);
                }
            }
        }
        r
    }
}

/// The three per-length frequency tables of one corpus, for n-gram lengths
/// 1, 2 and 3.
pub struct CorpusSet {
    table1: FrequencyTable,
    table2: FrequencyTable,
    table3: FrequencyTable,
}

impl View for CorpusSet {
    type V = (Seq<EntryV>, Seq<EntryV>, Seq<EntryV>);

    closed spec fn view(&self) -> (Seq<EntryV>, Seq<EntryV>, Seq<EntryV>) {
        (self.table1@, self.table2@, self.table3@)
    }
}

/// The view of the table for one n-gram length.
pub open spec fn table_view(c: CorpusSet, length: int) -> Seq<EntryV> {
    if length == 1 {
        c@.0
    } else if length == 2 {
        c@.1
    } else {
        c@.2
    }
}

impl CorpusSet {
    /// Every table is ranked.
    pub open spec fn wf(&self) -> bool {
        &&& sorted_desc(self@.0)
        &&& sorted_desc(self@.1)
        &&& sorted_desc(self@.2)
    }

    /// Builds the corpus from the text of its three per-length files, in
    /// order of n-gram length.
    pub fn from_texts(text1: &str, text2: &str, text3: &str) -> (c: CorpusSet)
        ensures
            c@.0 == stable_sort(parsed_entries(lines_of(text1@))),
            c@.1 == stable_sort(parsed_entries(lines_of(text2@))),
            c@.2 == stable_sort(parsed_entries(lines_of(text3@))),
            c.wf(),
    {
        CorpusSet {
            table1: FrequencyTable::from_text(text1),
            table2: FrequencyTable::from_text(text2),
            table3: FrequencyTable::from_text(text3),
        }
    }

    /// Wraps three already ranked tables, in order of n-gram length.
    pub fn from_tables(
        table1: FrequencyTable,
        table2: FrequencyTable,
        table3: FrequencyTable,
    ) -> (c: CorpusSet)
        requires
            table1.wf(),
            table2.wf(),
            table3.wf(),
        ensures
            c@.0 == table1@,
            c@.1 == table2@,
            c@.2 == table3@,
            c.wf(),
    {
        CorpusSet { table1, table2, table3 }
    }

    /// The table for n-gram length 1, 2 or 3.
    pub fn table(&self, length: usize) -> (t: &FrequencyTable)
        requires
            1 <= length <= 3,
        ensures
            t@ == table_view(*self, length as int),
            self.wf() ==> t.wf(),
    {
        if length == 1 {
            &self.table1
        } else if length == 2 {
            &self.table2
        } else {
            &self.table3
        }
    }
}

} // verus!
