//! A flashcard entry and its one-line text form, `lhs = rhs`.

use vstd::prelude::*;
use vstd::string::*;

verus! {

/// The two sides of a flashcard.
#[derive(Debug)]
pub struct Entry {
    pub lhs: String,
    pub rhs: String,
}

/// What an [`Entry`] is in specifications: the characters of its two sides.
pub ghost struct EntryView {
    pub lhs: Seq<char>,
    pub rhs: Seq<char>,
}

/// The error of parsing a line that holds no separator.
#[derive(Debug, PartialEq, Eq)]
pub struct SideMissingError {}

impl View for Entry {
    type V = EntryView;

    open spec fn view(&self) -> EntryView {
        EntryView { lhs: self.lhs@, rhs: self.rhs@ }
    }
}

impl DeepView for Entry {
    type V = EntryView;

    open spec fn deep_view(&self) -> EntryView {
        self@
    }
}

impl Clone for Entry {
    fn clone(&self) -> (copy: Entry)
        ensures
            copy@ == self@,
    {
        Entry { lhs: self.lhs.clone(), rhs: self.rhs.clone() }
    }
}

impl PartialEq for Entry {
    fn eq(&self, other: &Entry) -> (same: bool) {
        self.lhs == other.lhs && self.rhs == other.rhs
    }
}

impl Eq for Entry {}

impl vstd::std_specs::cmp::PartialEqSpecImpl for Entry {
    open spec fn obeys_eq_spec() -> bool {
        true
    }

    open spec fn eq_spec(&self, other: &Entry) -> bool {
        self.lhs@ == other.lhs@ && self.rhs@ == other.rhs@
    }
}

/// The separator between the two sides of a line: space, equals sign, space.
pub open spec fn separator() -> Seq<char> {
    seq![' ', '=', ' ']
}

/// The separator stands in `s` at position `i`.
pub open spec fn separator_at(s: Seq<char>, i: int) -> bool {
    &&& 0 <= i
    &&& i + 3 <= s.len()
    &&& s[i] == ' '
    &&& s[i + 1] == '='
    &&& s[i + 2] == ' '
}

/// The separator stands somewhere in `s`.
pub open spec fn has_separator(s: Seq<char>) -> bool {
    exists|i: int| separator_at(s, i)
}

/// The position of the first separator of `s` that starts at `from` or later,
/// and `s.len()` where there is none.
pub open spec fn next_separator(s: Seq<char>, from: int) -> int
    decreases s.len() - from,
{
    if from + 3 > s.len() {
        s.len() as int
    } else if separator_at(s, from) {
        from
    } else {
        next_separator(s, from + 1)
    }
}

/// `s` ends in a space and an equals sign, the first two characters of the
/// separator.
pub open spec fn ends_with_half_separator(s: Seq<char>) -> bool {
    s.len() >= 2 && s[s.len() - 2] == ' ' && s[s.len() - 1] == '='
}

/// The line of an entry: its left side, the separator, its right side.
pub open spec fn serialize_spec(e: EntryView) -> Seq<char> {
    e.lhs + separator() + e.rhs
}

/// The entry that a line stands for. The left side is what precedes the first
/// separator; the right side is what lies between that separator and the next
/// one that starts after it, or the end of the line. Whatever follows a second
/// separator is dropped. A line without a separator stands for no entry.
pub open spec fn parse_spec(line: Seq<char>) -> Option<EntryView> {
    let first = next_separator(line, 0);
    if first == line.len() {
        None
    } else {
        let second = next_separator(line, first + 3);
        Some(EntryView { lhs: line.subrange(0, first), rhs: line.subrange(first + 3, second) })
    }
}

/// `next_separator(s, from)` is the least position from `from` on at which the
/// separator stands, and `s.len()` exactly when there is no such position.
pub proof fn lemma_next_separator(s: Seq<char>, from: int)
    requires
        0 <= from <= s.len(),
    ensures
        from <= next_separator(s, from) <= s.len(),
        forall|j: int| from <= j < next_separator(s, from) ==> !separator_at(s, j),
        next_separator(s, from) < s.len() ==> separator_at(s, next_separator(s, from)),
        next_separator(s, from) == s.len() <==> forall|j: int| from <= j ==> !separator_at(s, j),
    decreases s.len() - from,
{
    if from + 3 <= s.len() && !separator_at(s, from) {
        lemma_next_separator(s, from + 1);
    }
}

/// A line stands for an entry exactly when it holds a separator.
pub proof fn lemma_parse_some_iff_separator(line: Seq<char>)
    ensures
        parse_spec(line) is Some <==> has_separator(line),
{
    lemma_next_separator(line, 0);
}

/// The characters of `s`, in order.
fn chars_of(s: &str) -> (chars: Vec<char>)
    ensures
        chars@ == s@,
{
    let mut chars: Vec<char> = Vec::new();
    for c in it: s.chars()
        invariant
            chars@ == it.seq().take(it.index() as int),
            it.seq() == s@,
    {
        chars.push(c);
    }
    chars
}

/// Finds the first separator that starts at `from` or later.
fn find_separator(chars: &Vec<char>, from: usize) -> (at: usize)
    requires
        from <= chars.len(),
    ensures
        at == next_separator(chars@, from as int),
{
    let n: usize = chars.len();
    let mut i: usize = from;
    while n - i >= 3
        invariant
            n == chars.len(),
            from <= i <= n,
            next_separator(chars@, from as int) == next_separator(chars@, i as int),
        decreases n - i,
    {
        if chars[i] == ' ' && chars[i + 1] == '=' && chars[i + 2] == ' ' {
            return i;
        }
        i += 1;
    }
    n
}

impl SideMissingError {
    /// What went wrong, in words.
    pub fn message(&self) -> (text: String)
        ensures
            text@ == "One side missing (marker ' = ' not found)"@,
    {
        String::from_str("One side missing (marker ' = ' not found)")
    }
}

impl core::str::FromStr for Entry {
    type Err = SideMissingError;

    /// Reads an entry from a line of the form `lhs = rhs`, as
    /// [`Entry::parse`] does.
    fn from_str(line: &str) -> (parsed: Result<Entry, SideMissingError>)
        ensures
            parsed is Err <==> !has_separator(line@),
            match parsed {
                Ok(entry) => parse_spec(line@) == Some(entry@),
                Err(_) => parse_spec(line@) is None,
            },
    {
        Entry::parse(line)
    }
}

impl Entry {
    /// Reads an entry from a line of the form `lhs = rhs`.
    pub fn parse(line: &str) -> (parsed: Result<Entry, SideMissingError>)
        ensures
            parsed is Err <==> !has_separator(line@),
            match parsed {
                Ok(entry) => parse_spec(line@) == Some(entry@),
                Err(_) => parse_spec(line@) is None,
            },
    {
        proof {
            lemma_parse_some_iff_separator(line@);
        }
        let chars = chars_of(line);
        let first: usize = find_separator(&chars, 0);
        if first == chars.len() {
            return Err(SideMissingError {  });
        }
        proof {
            lemma_next_separator(line@, 0);
        }
        let second: usize = find_separator(&chars, first + 3);
        proof {
            lemma_next_separator(line@, first + 3);
        }
        let lhs = String::from_str(line.substring_char(0, first));
        let rhs = String::from_str(line.substring_char(first + 3, second));
        Ok(Entry { lhs, rhs })
    }

    /// Writes the entry as one line: `lhs = rhs`.
    pub fn serialize(&self) -> (line: String)
        ensures
            line@ == serialize_spec(self@),
    {
        proof {
            reveal_strlit(" = ");
        }
        let mut line = self.lhs.clone();
        line.append(" = ");
        line.append(self.rhs.as_str());
        assert(" = "@ == separator());
        line
    }
}

/// In the line of an entry whose left side neither holds the separator nor
/// ends in a space and an equals sign, the first separator is the one that
/// was written between the sides.
proof fn lemma_first_separator(e: EntryView)
    requires
        !has_separator(e.lhs),
        !ends_with_half_separator(e.lhs),
    ensures
        next_separator(serialize_spec(e), 0) == e.lhs.len(),
{
    let line = serialize_spec(e);
    let n = e.lhs.len() as int;
    lemma_next_separator(line, 0);
    assert(separator_at(line, n));
    assert forall|j: int| 0 <= j < n implies !separator_at(line, j) by {
        if separator_at(line, j) {
            if j + 3 <= n {
                assert(separator_at(e.lhs, j));
            } else if j + 2 == n {
                assert(e.lhs[n - 2] == ' ' && e.lhs[n - 1] == '=');
            } else {
                assert(line[j + 1] == ' ');
            }
        }
    }
}

/// What was written is read back: parsing the line of an entry gives the entry
/// again, provided that neither side holds the separator and that the left
/// side does not end in a space and an equals sign (such an ending would form
/// a separator with the space that follows it).
pub proof fn lemma_parse_serialize(e: EntryView)
    requires
        !has_separator(e.lhs),
        !has_separator(e.rhs),
        !ends_with_half_separator(e.lhs),
    ensures
        parse_spec(serialize_spec(e)) == Some(e),
{
    let line = serialize_spec(e);
    let n = e.lhs.len() as int;
    lemma_first_separator(e);
    lemma_next_separator(line, n + 3);
    assert forall|j: int| n + 3 <= j implies !separator_at(line, j) by {
        if separator_at(line, j) {
            assert(separator_at(e.rhs, j - n - 3));
        }
    }
    assert(line.subrange(0, n) =~= e.lhs);
    assert(line.subrange(n + 3, line.len() as int) =~= e.rhs);
}

/// The conditions of [`lemma_parse_serialize`] are needed: where a side holds
/// the separator, or the left side ends in a space and an equals sign, parsing
/// the line of an entry gives another entry.
pub proof fn lemma_parse_serialize_only_if(e: EntryView)
    requires
        has_separator(e.lhs) || has_separator(e.rhs) || ends_with_half_separator(e.lhs),
    ensures
        parse_spec(serialize_spec(e)) is Some,
        parse_spec(serialize_spec(e)) != Some(e),
{
    let line = serialize_spec(e);
    let n = e.lhs.len() as int;
    lemma_next_separator(line, 0);
    assert(separator_at(line, n));
    if has_separator(e.lhs) {
        let j = choose|j: int| separator_at(e.lhs, j);
        assert(separator_at(line, j));
    } else if ends_with_half_separator(e.lhs) {
        assert(separator_at(line, n - 2));
    } else {
        let k = choose|k: int| separator_at(e.rhs, k);
        assert(separator_at(line, n + 3 + k));
        lemma_first_separator(e);
        lemma_next_separator(line, n + 3);
    }
}

} // verus!
