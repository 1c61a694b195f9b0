//! The placeholder grammar and its scanner.
//!
//! Six tokens, `${c1}` … `${c6}`, mark the colour slots of an art. The
//! scanner finds them with one multi-pattern automaton, built once and
//! handed to every operation that needs it.

use crate::text::{
    byte_len, bytes_of, first_newline, lemma_first_newline_bounds, lemma_lines_of_break,
    lemma_lines_of_prefixed, lines_of, single_line, strings_bytes, NEWLINE,
};
use aho_corasick::AhoCorasick;
use aho_corasick::BuildError;
use vstd::prelude::*;
use vstd::string::*;
use vstd::utf8::*;

verus! {

/// True for the slots that a token exists for.
pub open spec fn valid_slot(slot: u8) -> bool {
    1 <= slot <= 6
}

/// The token of a slot: `${c`, the slot's digit, `}`.
pub open spec fn token(slot: u8) -> Seq<u8> {
    seq![0x24u8, 0x7bu8, 0x63u8, (0x30 + slot) as u8, 0x7du8]
}

/// The six tokens in slot order.
pub open spec fn placeholder_tokens() -> Seq<Seq<u8>> {
    Seq::new(6, |i: int| token((i + 1) as u8))
}

/// The slot whose token stands at index `i` of `s`, if one does.
pub open spec fn token_at(s: Seq<u8>, i: int) -> Option<u8> {
    if 0 <= i && i + 5 <= s.len() && s[i] == 0x24 && s[i + 1] == 0x7b && s[i + 2] == 0x63 && 0x31
        <= s[i + 3] <= 0x36 && s[i + 4] == 0x7d {
        Some((s[i + 3] - 0x30) as u8)
    } else {
        None
    }
}

/// One occurrence of a placeholder: its slot and its byte span.
#[derive(Clone, Copy, Debug, PartialEq, Eq, Structural)]
pub struct Occurrence {
    pub slot: u8,
    pub start: usize,
    pub end: usize,
}

/// The occurrences in `s` at or behind index `from`, left to right. Tokens
/// cannot overlap, so these are all of them.
pub open spec fn occurrences_from(s: Seq<u8>, from: int) -> Seq<Occurrence>
    decreases s.len() - from,
{
    if from < 0 || from >= s.len() {
        Seq::empty()
    } else {
        match token_at(s, from) {
            Some(slot) => seq![
                Occurrence { slot, start: from as usize, end: (from + 5) as usize },
            ] + occurrences_from(s, from + 5),
            None => occurrences_from(s, from + 1),
        }
    }
}

/// All occurrences of placeholders in `s`, left to right.
pub open spec fn occurrences(s: Seq<u8>) -> Seq<Occurrence> {
    occurrences_from(s, 0)
}

/// `s` with every placeholder replaced by the entry of its slot in `table`
/// (slot 1 by `table[0]`), all else kept.
pub open spec fn replace_tokens(s: Seq<u8>, table: Seq<Seq<u8>>) -> Seq<u8>
    decreases s.len(),
{
    if s.len() == 0 {
        s
    } else {
        match token_at(s, 0) {
            Some(slot) => table[slot - 1] + replace_tokens(s.skip(5), table),
            None => seq![s[0]] + replace_tokens(s.skip(1), table),
        }
    }
}

/// The table that replaces every placeholder by nothing.
pub open spec fn empty_table() -> Seq<Seq<u8>> {
    Seq::new(6, |i: int| Seq::<u8>::empty())
}

/// The table that replaces the placeholders of `slot` by `with` and
/// leaves those of every other slot standing.
pub open spec fn slot_table(slot: u8, with: Seq<u8>) -> Seq<Seq<u8>> {
    Seq::new(
        6,
        |i: int|
            if i + 1 == slot {
                with
            } else {
                token((i + 1) as u8)
            },
    )
}

/// `s` without its placeholders.
pub open spec fn strip_tokens(s: Seq<u8>) -> Seq<u8> {
    replace_tokens(s, empty_table())
}

/// The patterns that an automaton was built from.
pub uninterp spec fn automaton_patterns(automaton: AhoCorasick) -> Seq<Seq<u8>>;

/// True when the builder, in its default configuration, makes an
/// automaton of the patterns. It refuses only where the patterns, their
/// lengths or the automaton's states outgrow its identifiers.
pub uninterp spec fn builder_accepts(patterns: Seq<Seq<u8>>) -> bool;

/// `aho_corasick::AhoCorasick`, the automaton; nothing of its inside is
/// known here.
#[verifier::external_type_specification]
#[verifier::external_body]
pub struct ExAhoCorasick(AhoCorasick);

/// `aho_corasick::BuildError`, the builder's error; it is only passed on.
#[verifier::external_type_specification]
#[verifier::external_body]
pub struct ExBuildError(BuildError);

/// `AhoCorasick::new`: an automaton with the default configuration
/// (standard match semantics, unanchored) over the given patterns, in the
/// given order, or the builder's error. Which of the two depends on the
/// patterns alone.
#[verifier::external_body]
fn build_automaton(patterns: &Vec<String>) -> (r: Result<AhoCorasick, BuildError>)
    ensures
        r is Ok <==> builder_accepts(strings_bytes(patterns@)),
        r matches Ok(automaton) ==> automaton_patterns(automaton) == strings_bytes(patterns@),
{
    AhoCorasick::new(patterns)
}

/// `AhoCorasick::find_iter`, collected: for the six tokens, which are of
/// one length and cannot overlap, the non-overlapping matches under
/// standard semantics are all occurrences from left to right, each with the
/// index of its pattern and its byte span.
#[verifier::external_body]
fn find_matches(automaton: &AhoCorasick, haystack: &str) -> (r: Vec<(usize, usize, usize)>)
    requires
        automaton_patterns(*automaton) == placeholder_tokens(),
    ensures
        r@ == Seq::new(
            occurrences(haystack.spec_bytes()).len(),
            |i: int|
                {
                    let o = occurrences(haystack.spec_bytes())[i];
                    ((o.slot - 1) as usize, o.start, o.end)
                },
        ),
{
    automaton.find_iter(haystack).map(|m| (m.pattern().as_usize(), m.start(), m.end())).collect()
}

/// `AhoCorasick::replace_all`: the haystack with each match that
/// `find_iter` reports replaced by the entry of `replace_with` at the
/// index of its pattern. It panics unless there is one entry per pattern.
#[verifier::external_body]
fn replace_matches(automaton: &AhoCorasick, haystack: &str, replace_with: &Vec<String>) -> (r:
    String)
    requires
        automaton_patterns(*automaton) == placeholder_tokens(),
        replace_with@.len() == 6,
    ensures
        bytes_of(r@) == replace_tokens(haystack.spec_bytes(), strings_bytes(replace_with@)),
{
    automaton.replace_all(haystack, replace_with.as_slice())
}

/// What the scan guarantees of each occurrence and of their order.
pub proof fn lemma_occurrences_from(s: Seq<u8>, from: int)
    requires
        0 <= from,
        s.len() <= usize::MAX,
    ensures
        forall|j: int|
            0 <= j < occurrences_from(s, from).len() ==> {
                let o = #[trigger] occurrences_from(s, from)[j];
                &&& from <= o.start
                &&& o.end == o.start + 5
                &&& o.end <= s.len()
                &&& valid_slot(o.slot)
                &&& token_at(s, o.start as int) == Some(o.slot)
            },
        forall|j: int|
            0 <= j < occurrences_from(s, from).len() - 1 ==> (#[trigger] occurrences_from(
                s,
                from,
            )[j]).end <= occurrences_from(s, from)[j + 1].start,
    decreases s.len() - from,
{
    if from >= s.len() {
    } else {
        match token_at(s, from) {
            Some(slot) => {
                lemma_occurrences_from(s, from + 5);
                let rest = occurrences_from(s, from + 5);
                let all = occurrences_from(s, from);
                assert(all.len() == rest.len() + 1);
                assert forall|j: int| 0 <= j < all.len() implies {
                    let o = #[trigger] all[j];
                    &&& from <= o.start
                    &&& o.end == o.start + 5
                    &&& o.end <= s.len()
                    &&& valid_slot(o.slot)
                    &&& token_at(s, o.start as int) == Some(o.slot)
                } by {
                    if j > 0 {
                        assert(all[j] == rest[j - 1]);
                    }
                }
                assert forall|j: int| 0 <= j < all.len() - 1 implies (#[trigger] all[j]).end
                    <= all[j + 1].start by {
                    assert(all[j + 1] == rest[j]);
                    if j > 0 {
                        assert(all[j] == rest[j - 1]);
                    }
                }
            },
            None => {
                lemma_occurrences_from(s, from + 1);
            },
        }
    }
}

/// Text without occurrences is left as it is by every replacement.
pub proof fn lemma_replace_without_tokens(s: Seq<u8>, from: int, table: Seq<Seq<u8>>)
    requires
        0 <= from <= s.len(),
        occurrences_from(s, from).len() == 0,
    ensures
        replace_tokens(s.skip(from), table) == s.skip(from),
    decreases s.len() - from,
{
    let t = s.skip(from);
    if from < s.len() {
        assert(token_at(s, from) is None);
        assert(token_at(t, 0) is None);
        lemma_replace_without_tokens(s, from + 1, table);
        assert(t.skip(1) =~= s.skip(from + 1));
        assert(seq![t[0]] + t.skip(1) =~= t);
    }
}

/// True when every entry of the table is free of line breaks.
pub open spec fn single_line_table(table: Seq<Seq<u8>>) -> bool {
    table.len() == 6 && forall|k: int| 0 <= k < 6 ==> single_line(#[trigger] table[k])
}

/// A placeholder in front is replaced by its entry, the rest as alone.
pub proof fn lemma_replace_token_first(slot: u8, rest: Seq<u8>, table: Seq<Seq<u8>>)
    requires
        valid_slot(slot),
    ensures
        replace_tokens(token(slot) + rest, table) == table[slot - 1] + replace_tokens(rest, table),
{
    let s = token(slot) + rest;
    assert(token_at(s, 0) == Some(slot));
    assert(s.skip(5) =~= rest);
}

/// Replacing placeholders by entries without line breaks works line by
/// line: the lines of the result are the results of the lines.
pub proof fn lemma_lines_of_replace(s: Seq<u8>, table: Seq<Seq<u8>>)
    requires
        single_line_table(table),
    ensures
        lines_of(replace_tokens(s, table)).len() == lines_of(s).len(),
        forall|i: int|
            0 <= i < lines_of(s).len() ==> #[trigger] lines_of(replace_tokens(s, table))[i]
                == replace_tokens(lines_of(s)[i], table),
    decreases s.len(),
{
    let r = replace_tokens(s, table);
    if s.len() == 0 {
        assert(lines_of(s) =~= seq![s]);
    } else {
        match token_at(s, 0) {
            Some(slot) => {
                let rest = s.skip(5);
                let tok = token(slot);
                let with = table[slot - 1];
                assert(s =~= tok + rest);
                lemma_lines_of_replace(rest, table);
                lemma_lines_of_prefixed(tok, rest);
                lemma_lines_of_prefixed(with, replace_tokens(rest, table));
                lemma_replace_token_first(slot, lines_of(rest)[0], table);
                assert forall|i: int| 0 <= i < lines_of(s).len() implies #[trigger] lines_of(r)[i]
                    == replace_tokens(lines_of(s)[i], table) by {
                    if i > 0 {
                        assert(lines_of(r)[i] == lines_of(replace_tokens(rest, table))[i]);
                    }
                }
            },
            None => {
                let rest = s.skip(1);
                assert(s =~= seq![s[0]] + rest);
                lemma_lines_of_replace(rest, table);
                if s[0] == NEWLINE {
                    lemma_lines_of_break(rest);
                    lemma_lines_of_break(replace_tokens(rest, table));
                    assert(s =~= seq![NEWLINE] + rest);
                    let none = Seq::<u8>::empty();
                    assert(replace_tokens(none, table) == none);
                    assert forall|i: int| 0 <= i < lines_of(s).len() implies #[trigger] lines_of(
                        r,
                    )[i] == replace_tokens(lines_of(s)[i], table) by {
                        if i > 0 {
                            assert(lines_of(s)[i] == lines_of(rest)[i - 1]);
                            assert(lines_of(r)[i] == lines_of(replace_tokens(rest, table))[i - 1]);
                        }
                    }
                } else {
                    let head = seq![s[0]];
                    lemma_lines_of_prefixed(head, rest);
                    lemma_lines_of_prefixed(head, replace_tokens(rest, table));
                    let first = head + lines_of(rest)[0];
                    lemma_first_newline_bounds(rest);
                    assert(lines_of(rest)[0] == rest.take(first_newline(rest)));
                    assert(token_at(first, 0) is None) by {
                        if first.len() >= 5 {
                            assert(first[0] == s[0] && first[1] == s[1] && first[2] == s[2]
                                && first[3] == s[3] && first[4] == s[4]);
                        }
                    }
                    assert(first.skip(1) =~= lines_of(rest)[0]);
                    assert(replace_tokens(first, table) == head + replace_tokens(
                        lines_of(rest)[0],
                        table,
                    ));
                    assert forall|i: int| 0 <= i < lines_of(s).len() implies #[trigger] lines_of(
                        r,
                    )[i] == replace_tokens(lines_of(s)[i], table) by {
                        if i > 0 {
                            assert(lines_of(r)[i] == lines_of(replace_tokens(rest, table))[i]);
                        }
                    }
                }
            },
        }
    }
}

/// The scanner: the automaton over the six placeholder tokens.
pub struct Scanner {
    automaton: AhoCorasick,
}

/// The text of a slot's token: `${c1}` for slot 1, and so on to `${c6}`.
pub fn token_text(slot: u8) -> (r: &'static str)
    requires
        valid_slot(slot),
    ensures
        r.spec_bytes() == token(slot),
{
    let r = if slot == 1 {
        "${c1}"
    } else if slot == 2 {
        "${c2}"
    } else if slot == 3 {
        "${c3}"
    } else if slot == 4 {
        "${c4}"
    } else if slot == 5 {
        "${c5}"
    } else {
        "${c6}"
    };
    proof {
        reveal_strlit("${c1}");
        reveal_strlit("${c2}");
        reveal_strlit("${c3}");
        reveal_strlit("${c4}");
        reveal_strlit("${c5}");
        reveal_strlit("${c6}");
        assert(is_ascii(r));
        is_ascii_spec_bytes(r);
        assert(r.spec_bytes() =~= token(slot));
    }
    r
}

/// The six token texts in slot order.
fn token_texts() -> (r: Vec<String>)
    ensures
        strings_bytes(r@) == placeholder_tokens(),
{
    let mut r: Vec<String> = Vec::new();
    let mut slot: u8 = 1;
    while slot <= 6
        invariant
            1 <= slot <= 7,
            r@.len() == slot - 1,
            forall|i: int|
                0 <= i < r@.len() ==> bytes_of(#[trigger] r@[i]@) == token((i + 1) as u8),
        decreases 7 - slot,
    {
        let text = token_text(slot);
        r.push(String::from_str(text));
        slot += 1;
    }
    proof {
        assert(strings_bytes(r@) =~= placeholder_tokens());
    }
    r
}

impl Scanner {
    #[verifier::type_invariant]
    spec fn holds_the_tokens(&self) -> bool {
        automaton_patterns(self.automaton) == placeholder_tokens()
    }

    /// The patterns that the scanner looks for.
    pub closed spec fn patterns(&self) -> Seq<Seq<u8>> {
        automaton_patterns(self.automaton)
    }

    /// Builds the scanner: its automaton is built from the six tokens in
    /// slot order. There is a scanner exactly where the automaton's builder
    /// accepts them.
    pub fn new() -> (r: Option<Scanner>)
        ensures
            r is Some <==> builder_accepts(placeholder_tokens()),
            r matches Some(scanner) ==> scanner.patterns() == placeholder_tokens(),
    {
        let patterns = token_texts();
        Scanner::around(build_automaton(&patterns))
    }

    /// The scanner around what the builder gave for the six tokens: one
    /// that holds the automaton where there is one, none for an error.
    fn around(built: Result<AhoCorasick, BuildError>) -> (r: Option<Scanner>)
        requires
            built matches Ok(automaton) ==> automaton_patterns(automaton) == placeholder_tokens(),
        ensures
            r is Some <==> built is Ok,
            r matches Some(scanner) ==> built matches Ok(automaton) && scanner.automaton
                == automaton,
    {
        match built {
            Ok(automaton) => Some(Scanner { automaton }),
            Err(_) => None,
        }
    }

    /// All occurrences of placeholders in `text`, left to right.
    pub fn find(&self, text: &str) -> (r: Vec<Occurrence>)
        ensures
            r@ == occurrences(text.spec_bytes()),
    {
        let _len = byte_len(text);
        proof {
            use_type_invariant(self);
            lemma_occurrences_from(text.spec_bytes(), 0);
        }
        let raw = find_matches(&self.automaton, text);
        let ghost occ = occurrences(text.spec_bytes());
        let mut r: Vec<Occurrence> = Vec::new();
        let mut i: usize = 0;
        while i < raw.len()
            invariant
                i <= raw.len(),
                raw@.len() == occ.len(),
                forall|j: int|
                    0 <= j < occ.len() ==> #[trigger] raw@[j] == (
                        (occ[j].slot - 1) as usize,
                        occ[j].start,
                        occ[j].end,
                    ),
                forall|j: int| 0 <= j < occ.len() ==> valid_slot((#[trigger] occ[j]).slot),
                r@ == occ.take(i as int),
            decreases raw.len() - i,
        {
            let (pattern, start, end) = raw[i];
            let ghost o = occ[i as int];
            assert(raw@[i as int] == ((o.slot - 1) as usize, o.start, o.end));
            assert(valid_slot(o.slot));
            let slot: u8 = (pattern + 1) as u8;
            r.push(Occurrence { slot, start, end });
            proof {
                assert(r@ =~= occ.take(i + 1));
            }
            i += 1;
        }
        proof {
            assert(occ.take(i as int) =~= occ);
        }
        r
    }

    /// The first occurrence of a placeholder in `text` that starts at or
    /// behind the byte offset `from`.
    pub fn find_next(&self, text: &str, from: usize) -> (r: Option<Occurrence>)
        ensures
            match r {
                Some(o) => exists|i: int|
                    {
                        &&& 0 <= i < occurrences(text.spec_bytes()).len()
                        &&& #[trigger] occurrences(text.spec_bytes())[i] == o
                        &&& from <= o.start
                        &&& forall|j: int|
                            0 <= j < i ==> (#[trigger] occurrences(text.spec_bytes())[j]).start
                                < from
                    },
                None => forall|j: int|
                    0 <= j < occurrences(text.spec_bytes()).len() ==> (#[trigger] occurrences(
                        text.spec_bytes(),
                    )[j]).start < from,
            },
    {
        let found = self.find(text);
        let mut i: usize = 0;
        while i < found.len()
            invariant
                i <= found@.len(),
                found@ == occurrences(text.spec_bytes()),
                forall|j: int| 0 <= j < i ==> (#[trigger] found@[j]).start < from,
            decreases found.len() - i,
        {
            if found[i].start >= from {
                proof {
                    assert(occurrences(text.spec_bytes())[i as int] == found@[i as int]);
                }
                return Some(found[i]);
            }
            i += 1;
        }
        None
    }

    /// `text` with every placeholder replaced by the entry of its slot in
    /// `replacements`.
    pub fn replace_all(&self, text: &str, replacements: &Vec<String>) -> (r: String)
        requires
            replacements@.len() == 6,
        ensures
            bytes_of(r@) == replace_tokens(text.spec_bytes(), strings_bytes(replacements@)),
    {
        proof {
            use_type_invariant(self);
        }
        replace_matches(&self.automaton, text, replacements)
    }

    /// `text` without its placeholders.
    pub fn strip(&self, text: &str) -> (r: String)
        ensures
            bytes_of(r@) == strip_tokens(text.spec_bytes()),
    {
        let mut table: Vec<String> = Vec::new();
        let mut i: usize = 0;
        while i < 6
            invariant
                i <= 6,
                table@.len() == i,
                forall|j: int| 0 <= j < i ==> (#[trigger] table@[j])@.len() == 0,
            decreases 6 - i,
        {
            table.push(String::new());
            i += 1;
        }
        proof {
            assert(strings_bytes(table@) =~= empty_table());
        }
        self.replace_all(text, &table)
    }
}

} // verus!
