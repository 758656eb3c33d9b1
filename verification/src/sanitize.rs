//! Sanitizing raw token text into a display-safe form: named control
//! characters and spaces become short escape sequences, any other control
//! scalar value becomes the replacement-character sentinel, and everything
//! else passes through unchanged.

use vstd::prelude::*;

verus! {

/// A Unicode scalar value of general category Cc (a control character).
pub open spec fn is_control_char(c: char) -> bool {
    (c as u32) <= 0x1F || (0x7F <= (c as u32) && (c as u32) <= 0x9F)
}

/// A character that sanitization passes through unchanged: neither a control
/// character nor one of the two space forms that get escaped.
pub open spec fn passes_through(c: char) -> bool {
    &&& !is_control_char(c)
    &&& c != ' '
    &&& c != '\u{a0}'
}

/// The display form of one raw scalar value.
pub open spec fn replacement_of(c: char) -> Seq<char> {
    if c == '\0' {
        seq!['\\', '0']
    } else if c == '\u{1}' {
        seq!['^', 'A']
    } else if c == '\u{3}' {
        seq!['^', 'C']
    } else if c == '\u{8}' {
        seq!['\\', 'b']
    } else if c == '\u{9}' {
        seq!['\\', 't']
    } else if c == '\u{12}' {
        seq!['^', 'R']
    } else if c == '\u{14}' {
        seq!['^', 'T']
    } else if c == '\u{16}' {
        seq!['^', 'V']
    } else if c == '\u{17}' {
        seq!['^', 'W']
    } else if c == '\u{18}' {
        seq!['^', 'X']
    } else if c == '\u{1b}' {
        seq!['\\', 'e']
    } else if c == '\u{7f}' {
        seq!['\\', 'd']
    } else if c == ' ' || c == '\u{a0}' {
        seq!['\\', 's']
    } else if is_control_char(c) {
        seq!['\u{fffd}']
    } else {
        seq![c]
    }
}

/// The sanitized display text of a raw token: the concatenation of the
/// replacements of its scalar values, left to right.
pub open spec fn cleaned_text(s: Seq<char>) -> Seq<char>
    decreases s.len(),
{
    if s.len() == 0 {
        Seq::empty()
    } else {
        cleaned_text(s.drop_last()) + replacement_of(s.last())
    }
}

/// The sanitized text of a token that is a single unrepresentable control
/// character: exactly one replacement-character sentinel.
pub open spec fn sentinel_text() -> Seq<char> {
    seq!['\u{fffd}']
}

/// Display-safe token text. Equality and ordering of tokens downstream go by
/// this sanitized text, not by the raw input.
pub struct CustomDebugString {
    text: String,
}

impl View for CustomDebugString {
    type V = Seq<char>;

    closed spec fn view(&self) -> Seq<char> {
        self.text@
    }
}

impl PartialEq for CustomDebugString {
    fn eq(&self, other: &Self) -> bool {
        self.text.eq(&other.text)
    }
}

impl vstd::std_specs::cmp::PartialEqSpecImpl for CustomDebugString {
    open spec fn obeys_eq_spec() -> bool {
        true
    }

    open spec fn eq_spec(&self, other: &Self) -> bool {
        self@ == other@
    }
}

impl Clone for CustomDebugString {
    fn clone(&self) -> (r: Self)
        ensures
            r@ == self@,
    {
        CustomDebugString { text: self.text.clone() }
    }
}

/// Whether `c` is a control character, decided from its scalar value.
fn char_is_control(c: char) -> (b: bool)
    ensures
        b == is_control_char(c),
{
    let u = c as u32;
    u <= 0x1F || (0x7F <= u && u <= 0x9F)
}

impl CustomDebugString {
    /// Sanitizes raw token text, replacing each scalar value by its display
    /// form.
    pub fn cleaned(s: &str) -> (r: Self)
        ensures
            r@ == cleaned_text(s@),
    {
        let n = s.unicode_len();
        let mut text = String::new();
        let mut i: usize = 0;
        while i < n
            invariant
                n == s@.len(),
                i <= n,
                text@ == cleaned_text(s@.subrange(0, i as int)),
            decreases n - i,
        {
            let c = s.get_char(i);
            if c == '\0' {
                proof {
                    reveal_strlit("\\0");
                }
                text.append("\\0");
            } else if c == '\u{1}' {
                proof {
                    reveal_strlit("^A");
                }
                text.append("^A");
            } else if c == '\u{3}' {
                proof {
                    reveal_strlit("^C");
                }
                text.append("^C");
            } else if c == '\u{8}' {
                proof {
                    reveal_strlit("\\b");
                }
                text.append("\\b");
            } else if c == '\u{9}' {
                proof {
                    reveal_strlit("\\t");
                }
                text.append("\\t");
            } else if c == '\u{12}' {
                proof {
                    reveal_strlit("^R");
                }
                text.append("^R");
            } else if c == '\u{14}' {
                proof {
                    reveal_strlit("^T");
                }
                text.append("^T");
            } else if c == '\u{16}' {
                proof {
                    reveal_strlit("^V");
                }
                text.append("^V");
            } else if c == '\u{17}' {
                proof {
                    reveal_strlit("^W");
                }
                text.append("^W");
            } else if c == '\u{18}' {
                proof {
                    reveal_strlit("^X");
                }
                text.append("^X");
            } else if c == '\u{1b}' {
                proof {
                    reveal_strlit("\\e");
                }
                text.append("\\e");
            } else if c == '\u{7f}' {
                proof {
                    reveal_strlit("\\d");
                }
                text.append("\\d");
            } else if c == ' ' || c == '\u{a0}' {
                proof {
                    reveal_strlit("\\s");
                }
                text.append("\\s");
            } else if char_is_control(c) {
                proof {
                    reveal_strlit("\u{fffd}");
                }
                text.append("\u{fffd}");
            } else {
                let piece = s.substring_char(i, i + 1);
                proof {
                    assert(piece@ =~= seq![c]);
                }
                text.append(piece);
            }
            proof {
                assert(s@.subrange(0, i + 1).drop_last() =~= s@.subrange(0, i as int));
                assert(s@.subrange(0, i + 1).last() == c);
                assert(text@ =~= cleaned_text(s@.subrange(0, i + 1)));
            }
            i = i + 1;
        }
        proof {
            assert(s@.subrange(0, n as int) =~= s@);
        }
        CustomDebugString { text }
    }

    /// The sanitized text.
    pub fn text(&self) -> (r: &str)
        ensures
            r@ == self@,
    {
        self.text.as_str()
    }

    /// Whether this token is the unrepresentable sentinel: its sanitized text
    /// is exactly one replacement character.
    pub fn is_sentinel(&self) -> (b: bool)
        ensures
            b == (self@ == sentinel_text()),
    {
        let s = self.text.as_str();
        if s.unicode_len() != 1 {
            proof {
                assert(self@ != sentinel_text());
            }
            false
        } else {
            let c = s.get_char(0);
            if c == '\u{fffd}' {
                proof {
                    assert(self@ =~= sentinel_text());
                }
                true
            } else {
                proof {
                    assert(self@ != sentinel_text());
                }
                false
            }
        }
    }
}

/// Every character of a replacement passes through sanitization unchanged.
proof fn lemma_replacement_passes_through(c: char)
    ensures
        forall|i: int|
            0 <= i < replacement_of(c).len() ==> passes_through(#[trigger] replacement_of(c)[i]),
{
    assert(passes_through('\\'));
    assert(passes_through('0'));
    assert(passes_through('^'));
    assert(passes_through('A'));
    assert(passes_through('C'));
    assert(passes_through('b'));
    assert(passes_through('t'));
    assert(passes_through('R'));
    assert(passes_through('T'));
    assert(passes_through('V'));
    assert(passes_through('W'));
    assert(passes_through('X'));
    assert(passes_through('e'));
    assert(passes_through('d'));
    assert(passes_through('s'));
    assert(passes_through('\u{fffd}'));
}

/// Law: sanitization is the identity on text made only of printable
/// non-space scalar values.
pub proof fn lemma_cleaned_identity(s: Seq<char>)
    requires
        forall|i: int| 0 <= i < s.len() ==> passes_through(#[trigger] s[i]),
    ensures
        cleaned_text(s) == s,
    decreases s.len(),
{
    if s.len() == 0 {
        assert(cleaned_text(s) =~= s);
    } else {
        lemma_cleaned_identity(s.drop_last());
        assert(passes_through(s[s.len() - 1]));
        assert(replacement_of(s.last()) =~= seq![s.last()]);
        assert(cleaned_text(s) =~= s);
    }
}

/// Every character of sanitized text passes through sanitization unchanged.
pub proof fn lemma_cleaned_all_pass_through(s: Seq<char>)
    ensures
        forall|i: int|
            0 <= i < cleaned_text(s).len() ==> passes_through(#[trigger] cleaned_text(s)[i]),
    decreases s.len(),
{
    if s.len() > 0 {
        lemma_cleaned_all_pass_through(s.drop_last());
        lemma_replacement_passes_through(s.last());
        let prefix = cleaned_text(s.drop_last());
        let repl = replacement_of(s.last());
        assert forall|i: int|
            0 <= i < cleaned_text(s).len() implies passes_through(
            #[trigger] cleaned_text(s)[i],
        ) by {
            if i < prefix.len() {
                assert(cleaned_text(s)[i] == prefix[i]);
            } else {
                assert(cleaned_text(s)[i] == repl[i - prefix.len()]);
            }
        }
    }
}

/// Law: sanitization is idempotent; applying it to its own output changes
/// nothing.
pub proof fn lemma_cleaned_idempotent(s: Seq<char>)
    ensures
        cleaned_text(cleaned_text(s)) == cleaned_text(s),
{
    lemma_cleaned_all_pass_through(s);
    lemma_cleaned_identity(cleaned_text(s));
}

} // verus!
