//! What to run to show an art: the fetch tool, its arguments, and the
//! text that goes into the file it reads.

use crate::text::{bytes_of, lemma_ascii_boundary, lemma_bytes_of_valid, push_text, slice};
use vstd::prelude::*;
use vstd::string::*;
use vstd::utf8::*;

verus! {

/// The backslash.
pub const BACKSLASH: u8 = 0x5c;

/// The renderer that prints the art.
#[derive(Clone, Copy, Debug, PartialEq, Eq, Structural)]
pub enum Backend {
    Neofetch,
    Fastfetch,
    FastfetchOld,
    Qwqfetch,
}

/// The program that a backend runs.
#[derive(Clone, Copy, Debug, PartialEq, Eq, Structural)]
pub enum Fetcher {
    Neofetch,
    Fastfetch,
}

/// One run of a fetch tool: the program, its arguments, and what to write
/// into the art file before it starts.
#[derive(Clone, Debug, PartialEq, Eq)]
pub struct Invocation {
    pub fetcher: Fetcher,
    pub args: Vec<String>,
    pub content: String,
}

/// The character contents of a vector of strings.
pub open spec fn arg_views(args: Seq<String>) -> Seq<Seq<char>> {
    Seq::new(args.len(), |i: int| args[i]@)
}

/// The arguments given on top of those that the backend needs.
pub open spec fn extra_args(args: Option<&Vec<String>>) -> Seq<Seq<char>> {
    match args {
        Some(extra) => arg_views(extra@),
        None => Seq::empty(),
    }
}

/// `s` with every backslash doubled.
pub open spec fn escaped(s: Seq<u8>) -> Seq<u8>
    decreases s.len(),
{
    if s.len() == 0 {
        s
    } else if s[0] == BACKSLASH {
        seq![BACKSLASH, BACKSLASH] + escaped(s.skip(1))
    } else {
        seq![s[0]] + escaped(s.skip(1))
    }
}

/// `s` with every pair of backslashes, taken from the left, made one.
pub open spec fn unescaped(s: Seq<u8>) -> Seq<u8>
    decreases s.len(),
{
    if s.len() == 0 {
        s
    } else if s.len() >= 2 && s[0] == BACKSLASH && s[1] == BACKSLASH {
        seq![BACKSLASH] + unescaped(s.skip(2))
    } else {
        seq![s[0]] + unescaped(s.skip(1))
    }
}

/// A stretch without backslashes passes through the escaping as it is.
pub proof fn lemma_escaped_plain(s: Seq<u8>, n: int)
    requires
        0 <= n <= s.len(),
        forall|k: int| 0 <= k < n ==> s[k] != BACKSLASH,
    ensures
        escaped(s) == s.take(n) + escaped(s.skip(n)),
    decreases n,
{
    if n == 0 {
        assert(s.skip(0) =~= s);
        assert(s.take(0) + escaped(s) =~= escaped(s));
    } else {
        let rest = s.skip(1);
        lemma_escaped_plain(rest, n - 1);
        assert(rest.skip(n - 1) =~= s.skip(n));
        assert(seq![s[0]] + rest.take(n - 1) =~= s.take(n));
        assert(escaped(s) =~= s.take(n) + escaped(s.skip(n)));
    }
}

/// A stretch without backslashes passes through the unescaping as it is.
pub proof fn lemma_unescaped_plain(s: Seq<u8>, n: int)
    requires
        0 <= n <= s.len(),
        forall|k: int| 0 <= k < n ==> s[k] != BACKSLASH,
    ensures
        unescaped(s) == s.take(n) + unescaped(s.skip(n)),
    decreases n,
{
    if n == 0 {
        assert(s.skip(0) =~= s);
        assert(s.take(0) + unescaped(s) =~= unescaped(s));
    } else {
        let rest = s.skip(1);
        lemma_unescaped_plain(rest, n - 1);
        assert(rest.skip(n - 1) =~= s.skip(n));
        assert(seq![s[0]] + rest.take(n - 1) =~= s.take(n));
        assert(unescaped(s) =~= s.take(n) + unescaped(s.skip(n)));
    }
}

/// Escaping undone gives the text back.
pub proof fn lemma_unescaped_escaped(s: Seq<u8>)
    ensures
        unescaped(escaped(s)) == s,
    decreases s.len(),
{
    if s.len() > 0 {
        let rest = s.skip(1);
        lemma_unescaped_escaped(rest);
        let e = escaped(s);
        if s[0] == BACKSLASH {
            assert(e.skip(2) =~= escaped(rest));
        } else {
            assert(e.skip(1) =~= escaped(rest));
        }
        assert(seq![s[0]] + rest =~= s);
    }
}

/// The text with every backslash doubled, as neofetch wants it, which
/// prints the art through `printf`.
pub fn escape_backslashes(text: &str) -> (r: String)
    ensures
        bytes_of(r@) == escaped(text.spec_bytes()),
{
    let bytes = text.as_bytes();
    let n = bytes.len();
    let mut out = String::new();
    let mut start: usize = 0;
    let mut i: usize = 0;
    proof {
        lemma_bytes_of_valid(text@);
        is_char_boundary_start_end_of_seq(bytes@);
        assert(bytes@.skip(0) =~= bytes@);
        assert(bytes_of(out@) + escaped(bytes@) =~= escaped(bytes@));
    }
    while i < n
        invariant
            n == bytes@.len(),
            bytes@ == text.spec_bytes(),
            valid_utf8(bytes@),
            start <= i <= n,
            is_char_boundary(bytes@, start as int),
            forall|k: int| start <= k < i ==> bytes@[k] != BACKSLASH,
            escaped(bytes@) == bytes_of(out@) + escaped(bytes@.skip(start as int)),
        decreases n - i,
    {
        if bytes[i] == BACKSLASH {
            let two = "\\\\";
            proof {
                lemma_ascii_boundary(bytes@, i as int);
                reveal_strlit("\\\\");
                assert(is_ascii(two));
                is_ascii_spec_bytes(two);
                assert(two.spec_bytes() =~= seq![BACKSLASH, BACKSLASH]);
                let tail = bytes@.skip(start as int);
                lemma_escaped_plain(tail, i - start);
                assert(tail.take(i - start) =~= bytes@.subrange(start as int, i as int));
                assert(tail.skip(i - start).skip(1) =~= bytes@.skip(i + 1));
                assert(tail.skip(i - start)[0] == BACKSLASH);
            }
            let ghost before = bytes_of(out@);
            push_text(&mut out, slice(text, start, i));
            push_text(&mut out, two);
            proof {
                assert(escaped(bytes@) =~= bytes_of(out@) + escaped(bytes@.skip(i + 1)));
            }
            start = i + 1;
        }
        i += 1;
    }
    proof {
        let tail = bytes@.skip(start as int);
        lemma_escaped_plain(tail, tail.len() as int);
        assert(tail.take(tail.len() as int) =~= bytes@.subrange(start as int, n as int));
        assert(tail.skip(tail.len() as int) =~= Seq::<u8>::empty());
    }
    let ghost before = bytes_of(out@);
    push_text(&mut out, slice(text, start, n));
    proof {
        assert(escaped(bytes@) =~= bytes_of(out@));
    }
    out
}

/// The text with every doubled backslash made one: what neofetch prints
/// for `printf`, read back.
pub fn unescape_backslashes(text: &str) -> (r: String)
    ensures
        bytes_of(r@) == unescaped(text.spec_bytes()),
{
    let bytes = text.as_bytes();
    let n = bytes.len();
    let mut out = String::new();
    let mut start: usize = 0;
    let mut i: usize = 0;
    proof {
        lemma_bytes_of_valid(text@);
        is_char_boundary_start_end_of_seq(bytes@);
        assert(bytes@.skip(0) =~= bytes@);
        assert(bytes_of(out@) + unescaped(bytes@) =~= unescaped(bytes@));
    }
    while i < n
        invariant
            n == bytes@.len(),
            bytes@ == text.spec_bytes(),
            valid_utf8(bytes@),
            start <= i <= n,
            is_char_boundary(bytes@, start as int),
            forall|k: int| start <= k < i ==> bytes@[k] != BACKSLASH,
            unescaped(bytes@) == bytes_of(out@) + unescaped(bytes@.skip(start as int)),
        decreases n - i,
    {
        if bytes[i] == BACKSLASH && i + 1 < n && bytes[i + 1] == BACKSLASH {
            let one = "\\";
            proof {
                lemma_ascii_boundary(bytes@, i as int);
                lemma_ascii_boundary(bytes@, i + 1);
                reveal_strlit("\\");
                assert(is_ascii(one));
                is_ascii_spec_bytes(one);
                assert(one.spec_bytes() =~= seq![BACKSLASH]);
                let tail = bytes@.skip(start as int);
                lemma_unescaped_plain(tail, i - start);
                assert(tail.take(i - start) =~= bytes@.subrange(start as int, i as int));
                let here = tail.skip(i - start);
                assert(here.skip(2) =~= bytes@.skip(i + 2));
                assert(here[0] == BACKSLASH && here[1] == BACKSLASH);
            }
            push_text(&mut out, slice(text, start, i));
            push_text(&mut out, one);
            proof {
                assert(unescaped(bytes@) =~= bytes_of(out@) + unescaped(bytes@.skip(i + 2)));
            }
            start = i + 2;
            i += 2;
        } else if bytes[i] == BACKSLASH {
            proof {
                lemma_ascii_boundary(bytes@, i as int);
                let tail = bytes@.skip(start as int);
                lemma_unescaped_plain(tail, i - start);
                assert(tail.take(i - start) =~= bytes@.subrange(start as int, i as int));
                let here = tail.skip(i - start);
                assert(here.skip(1) =~= bytes@.skip(i + 1));
                assert(here[0] == BACKSLASH);
                assert(here.len() >= 2 ==> here[1] == bytes@[i + 1]);
            }
            push_text(&mut out, slice(text, start, i + 1));
            proof {
                assert(bytes@.subrange(start as int, i + 1) =~= bytes@.subrange(
                    start as int,
                    i as int,
                ) + seq![BACKSLASH]);
                assert(unescaped(bytes@) =~= bytes_of(out@) + unescaped(bytes@.skip(i + 1)));
            }
            start = i + 1;
            i += 1;
        } else {
            i += 1;
        }
    }
    proof {
        let tail = bytes@.skip(start as int);
        lemma_unescaped_plain(tail, tail.len() as int);
        assert(tail.take(tail.len() as int) =~= bytes@.subrange(start as int, n as int));
        assert(tail.skip(tail.len() as int) =~= Seq::<u8>::empty());
    }
    push_text(&mut out, slice(text, start, n));
    proof {
        assert(unescaped(bytes@) =~= bytes_of(out@));
    }
    out
}

/// Adds the caller's own arguments behind those that the backend needs.
fn push_extra(list: &mut Vec<String>, args: Option<&Vec<String>>)
    ensures
        arg_views(final(list)@) == arg_views(old(list)@) + extra_args(args),
{
    let ghost before = arg_views(list@);
    match args {
        Some(extra) => {
            let mut i: usize = 0;
            proof {
                assert(arg_views(list@) =~= before + arg_views(extra@).take(0));
            }
            while i < extra.len()
                invariant
                    i <= extra@.len(),
                    arg_views(list@) == before + arg_views(extra@).take(i as int),
                decreases extra.len() - i,
            {
                let ghost earlier = list@;
                let arg = extra[i].clone();
                list.push(arg);
                proof {
                    assert(arg_views(list@) =~= arg_views(earlier).push(extra@[i as int]@));
                    assert(arg_views(list@) =~= before + arg_views(extra@).take(i + 1));
                }
                i += 1;
            }
            proof {
                assert(arg_views(extra@).take(i as int) =~= arg_views(extra@));
            }
        },
        None => {
            proof {
                assert(arg_views(list@) =~= before + extra_args(args));
            }
        },
    }
}

/// How to show the art `asc` with the backend, once the art file at `path`
/// exists: what to write into the file, and the program and arguments to
/// run then.
///
/// Neofetch prints the art through `printf`, so its file holds the art
/// with every backslash doubled, and it is told to read the art from the
/// file and to take the art's own colours. Fastfetch reads the file raw;
/// the old one has another name for that. The caller's arguments follow.
pub fn run(asc: String, backend: Backend, args: Option<&Vec<String>>, path: &str) -> (r: Invocation)
    requires
        !(backend is Qwqfetch),
    ensures
        match backend {
            Backend::Neofetch => {
                &&& r.fetcher == Fetcher::Neofetch
                &&& bytes_of(r.content@) == escaped(bytes_of(asc@))
                &&& arg_views(r.args@) == seq![
                    "--ascii"@,
                    "--source"@,
                    path@,
                    "--ascii-colors"@,
                ] + extra_args(args)
            },
            Backend::Fastfetch => {
                &&& r.fetcher == Fetcher::Fastfetch
                &&& r.content@ == asc@
                &&& arg_views(r.args@) == seq!["--file-raw"@, path@] + extra_args(args)
            },
            _ => {
                &&& r.fetcher == Fetcher::Fastfetch
                &&& r.content@ == asc@
                &&& arg_views(r.args@) == seq!["--raw"@, path@] + extra_args(args)
            },
        },
{
    let mut list: Vec<String> = Vec::new();
    match backend {
        Backend::Neofetch => {
            let content = escape_backslashes(asc.as_str());
            list.push(String::from_str("--ascii"));
            list.push(String::from_str("--source"));
            list.push(String::from_str(path));
            list.push(String::from_str("--ascii-colors"));
            proof {
                assert(arg_views(list@) =~= seq![
                    "--ascii"@,
                    "--source"@,
                    path@,
                    "--ascii-colors"@,
                ]);
            }
            push_extra(&mut list, args);
            Invocation { fetcher: Fetcher::Neofetch, args: list, content }
        },
        Backend::Fastfetch => {
            list.push(String::from_str("--file-raw"));
            list.push(String::from_str(path));
            proof {
                assert(arg_views(list@) =~= seq!["--file-raw"@, path@]);
            }
            push_extra(&mut list, args);
            Invocation { fetcher: Fetcher::Fastfetch, args: list, content: asc }
        },
        _ => {
            list.push(String::from_str("--raw"));
            list.push(String::from_str(path));
            proof {
                assert(arg_views(list@) =~= seq!["--raw"@, path@]);
            }
            push_extra(&mut list, args);
            Invocation { fetcher: Fetcher::Fastfetch, args: list, content: asc }
        },
    }
}

/// How to ask the backend for the name of the distribution: the program
/// and its arguments. Nothing is written to a file.
pub fn get_distro_name(backend: Backend) -> (r: Invocation)
    requires
        !(backend is Qwqfetch),
    ensures
        r.content@.len() == 0,
        match backend {
            Backend::Neofetch => r.fetcher == Fetcher::Neofetch && arg_views(r.args@) == seq![
                "ascii_distro_name"@,
            ],
            _ => r.fetcher == Fetcher::Fastfetch && arg_views(r.args@) == seq![
                "--logo"@,
                "none"@,
                "-s"@,
                "OS"@,
                "--disable-linewrap"@,
                "--os-key"@,
                " "@,
            ],
        },
{
    let mut list: Vec<String> = Vec::new();
    match backend {
        Backend::Neofetch => {
            list.push(String::from_str("ascii_distro_name"));
            proof {
                assert(arg_views(list@) =~= seq!["ascii_distro_name"@]);
            }
            Invocation { fetcher: Fetcher::Neofetch, args: list, content: String::new() }
        },
        _ => {
            list.push(String::from_str("--logo"));
            list.push(String::from_str("none"));
            list.push(String::from_str("-s"));
            list.push(String::from_str("OS"));
            list.push(String::from_str("--disable-linewrap"));
            list.push(String::from_str("--os-key"));
            list.push(String::from_str(" "));
            proof {
                assert(arg_views(list@) =~= seq![
                    "--logo"@,
                    "none"@,
                    "-s"@,
                    "OS"@,
                    "--disable-linewrap"@,
                    "--os-key"@,
                    " "@,
                ]);
            }
            Invocation { fetcher: Fetcher::Fastfetch, args: list, content: String::new() }
        },
    }
}

/// True for the exit code with which an old fastfetch refuses the
/// argument for reading a file raw: it must be upgraded, or run as the
/// old backend.
pub fn needs_upgrade(exit_code: Option<i32>) -> (b: bool)
    ensures
        b == (exit_code == Some(144i32)),
{
    match exit_code {
        Some(code) => code == 144,
        None => false,
    }
}

} // verus!
