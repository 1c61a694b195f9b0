//! Choosing among named options: which option an answer selects, and the
//! texts of the prompt.

use crate::text::{bytes_of, join_strings, joined, push_text, strings_bytes};
use vstd::prelude::*;
use vstd::string::*;

verus! {

/// The text in lower case, as Unicode defines it.
pub uninterp spec fn lowercase(text: Seq<char>) -> Seq<char>;

/// `str::to_lowercase`: the text in lower case.
#[verifier::external_body]
fn to_lowercase(text: &str) -> (r: String)
    ensures
        r@ == lowercase(text@),
{
    text.to_lowercase()
}

/// `str::starts_with` for a string pattern: true when the pattern is a
/// prefix of the text.
#[verifier::external_body]
fn has_prefix(text: &str, prefix: &str) -> (b: bool)
    ensures
        b == prefix@.is_prefix_of(text@),
{
    text.starts_with(prefix)
}

/// True when the selection names the option in full.
pub open spec fn names(option: Seq<char>, selection: Seq<char>) -> bool {
    lowercase(option) == selection
}

/// True when the selection begins the option's name.
pub open spec fn abbreviates(option: Seq<char>, selection: Seq<char>) -> bool {
    selection.is_prefix_of(lowercase(option))
}

/// True when option `i` is the one that the selection picks: the first
/// that it names in full, or, where it names none, the first whose name
/// it begins.
pub open spec fn picks(options: Seq<String>, selection: Seq<char>, i: int) -> bool {
    &&& 0 <= i < options.len()
    &&& selection.len() > 0
    &&& {
        ||| names(options[i]@, selection) && forall|j: int|
            0 <= j < i ==> !names(#[trigger] options[j]@, selection)
        ||| {
            &&& forall|j: int| 0 <= j < options.len() ==> !names(#[trigger] options[j]@, selection)
            &&& abbreviates(options[i]@, selection)
            &&& forall|j: int| 0 <= j < i ==> !abbreviates(#[trigger] options[j]@, selection)
        }
    }
}

/// True when the selection picks no option: it is empty, or no option's
/// name begins with it.
pub open spec fn picks_none(options: Seq<String>, selection: Seq<char>) -> bool {
    selection.len() == 0 || forall|j: int|
        0 <= j < options.len() ==> !abbreviates(#[trigger] options[j]@, selection)
}

/// A name begins with itself.
pub proof fn lemma_names_abbreviates(option: Seq<char>, selection: Seq<char>)
    requires
        names(option, selection),
    ensures
        abbreviates(option, selection),
{
    assert(selection.is_prefix_of(selection));
}

/// The index of the first option that the selection names in full, or,
/// where `exact` is not set, whose name it begins.
fn first_by(options: &Vec<String>, selection: &str, exact: bool) -> (r: Option<usize>)
    ensures
        match r {
            Some(i) => {
                &&& i < options@.len()
                &&& if exact {
                    names(options@[i as int]@, selection@)
                } else {
                    abbreviates(options@[i as int]@, selection@)
                }
                &&& forall|j: int|
                    0 <= j < i ==> if exact {
                        !names(#[trigger] options@[j]@, selection@)
                    } else {
                        !abbreviates(#[trigger] options@[j]@, selection@)
                    }
            },
            None => forall|j: int|
                0 <= j < options@.len() ==> if exact {
                    !names(#[trigger] options@[j]@, selection@)
                } else {
                    !abbreviates(#[trigger] options@[j]@, selection@)
                },
        },
{
    let wanted = String::from_str(selection);
    let mut i: usize = 0;
    while i < options.len()
        invariant
            i <= options@.len(),
            wanted@ == selection@,
            forall|j: int|
                0 <= j < i ==> if exact {
                    !names(#[trigger] options@[j]@, selection@)
                } else {
                    !abbreviates(#[trigger] options@[j]@, selection@)
                },
        decreases options.len() - i,
    {
        let lower = to_lowercase(options[i].as_str());
        let hit = if exact {
            lower == wanted
        } else {
            has_prefix(lower.as_str(), selection)
        };
        if hit {
            return Some(i);
        }
        i += 1;
    }
    None
}

/// The option that the selection picks: the first whose name in lower
/// case is the selection, else the first whose name in lower case begins
/// with it. An empty selection picks none.
pub fn find_selection(selection: &str, options: &Vec<String>) -> (r: Option<usize>)
    ensures
        match r {
            Some(i) => picks(options@, selection@, i as int),
            None => picks_none(options@, selection@),
        },
{
    if selection.is_empty() {
        return None;
    }
    match first_by(options, selection, true) {
        Some(i) => Some(i),
        None => first_by(options, selection, false),
    }
}

/// What an answer to the prompt selects: the default for an empty answer,
/// else the answer in lower case.
pub fn selection_of(answer: &str, default: &str) -> (r: String)
    ensures
        r@ == if answer@.len() == 0 {
            default@
        } else {
            lowercase(answer@)
        },
{
    if answer.is_empty() {
        String::from_str(default)
    } else {
        to_lowercase(answer)
    }
}

/// An option as the prompt shows it: the default is set off by the codes
/// for bold and underline.
pub open spec fn shown_option(option: Seq<char>, default: Seq<char>) -> Seq<u8> {
    if option == default {
        "&l&n".spec_bytes() + bytes_of(option) + "&L&N".spec_bytes()
    } else {
        bytes_of(option)
    }
}

/// The options as the prompt shows them, with a bar between neighbours.
pub open spec fn shown_options(options: Seq<String>, default: Seq<char>) -> Seq<u8> {
    joined(Seq::new(options.len(), |i: int| shown_option(options[i]@, default)), "|".spec_bytes())
}

/// The text of the prompt: the question, and in brackets the options with
/// the default set off, or the default alone.
pub open spec fn prompt_text(
    prompt: Seq<char>,
    options: Seq<String>,
    default: Seq<char>,
    show_options: bool,
) -> Seq<u8> {
    if show_options {
        bytes_of(prompt) + " (".spec_bytes() + shown_options(options, default) + ")".spec_bytes()
    } else {
        bytes_of(prompt) + " (default: ".spec_bytes() + bytes_of(default) + ")".spec_bytes()
    }
}

/// The text that asks for a choice among the options.
pub fn literal_prompt(prompt: &str, options: &Vec<String>, default: &str, show_options: bool) -> (r:
    String)
    ensures
        bytes_of(r@) == prompt_text(prompt@, options@, default@, show_options),
{
    let mut text = String::from_str(prompt);
    if show_options {
        let marked = String::from_str(default);
        let mut shown: Vec<String> = Vec::new();
        let mut i: usize = 0;
        while i < options.len()
            invariant
                i <= options@.len(),
                marked@ == default@,
                shown@.len() == i,
                forall|k: int|
                    0 <= k < i ==> bytes_of(#[trigger] shown@[k]@) == shown_option(
                        options@[k]@,
                        default@,
                    ),
            decreases options.len() - i,
        {
            let option = options[i].as_str();
            let mut entry = String::new();
            proof {
                assert(bytes_of(entry@) =~= Seq::<u8>::empty());
            }
            if options[i] == marked {
                push_text(&mut entry, "&l&n");
                push_text(&mut entry, option);
                push_text(&mut entry, "&L&N");
            } else {
                push_text(&mut entry, option);
            }
            proof {
                assert(bytes_of(entry@) =~= shown_option(options@[i as int]@, default@));
            }
            shown.push(entry);
            i += 1;
        }
        proof {
            assert(strings_bytes(shown@) =~= Seq::new(
                options@.len(),
                |k: int| shown_option(options@[k]@, default@),
            ));
        }
        let list = join_strings(&shown, "|");
        push_text(&mut text, " (");
        push_text(&mut text, list.as_str());
        push_text(&mut text, ")");
    } else {
        push_text(&mut text, " (default: ");
        push_text(&mut text, default);
        push_text(&mut text, ")");
    }
    text
}

/// The text that refuses a selection: it names the selection and the
/// options, with a bar between neighbours.
pub fn invalid_selection(selection: &str, options: &Vec<String>) -> (r: String)
    ensures
        bytes_of(r@) == "Invalid selection! ".spec_bytes() + selection.spec_bytes()
            + " is not one of ".spec_bytes() + joined(strings_bytes(options@), "|".spec_bytes()),
{
    let mut text = String::from_str("Invalid selection! ");
    push_text(&mut text, selection);
    push_text(&mut text, " is not one of ");
    let list = join_strings(options, "|");
    push_text(&mut text, list.as_str());
    text
}

} // verus!
