use hyfetch::alignment::ColorAlignment;
use hyfetch::distro::Distro;
use hyfetch::fetch::{
    escape_backslashes, get_distro_name, needs_upgrade, run, unescape_backslashes, Backend,
    Fetcher,
};

fn strings(items: &[&str]) -> Vec<String> {
    items.iter().map(|s| s.to_string()).collect()
}

#[test]
fn run_neofetch_doubles_backslashes_and_names_the_file() {
    let r = run("/\\_/\\".to_string(), Backend::Neofetch, None, "/tmp/ascii.txt");
    assert_eq!(r.fetcher, Fetcher::Neofetch);
    assert_eq!(r.content, "/\\\\_/\\\\");
    assert_eq!(r.args, strings(&["--ascii", "--source", "/tmp/ascii.txt", "--ascii-colors"]));
}

#[test]
fn run_neofetch_appends_the_callers_arguments() {
    let extra = strings(&["--off", "x y"]);
    let r = run("a".to_string(), Backend::Neofetch, Some(&extra), "p");
    assert_eq!(r.args, strings(&["--ascii", "--source", "p", "--ascii-colors", "--off", "x y"]));
}

#[test]
fn run_fastfetch_reads_the_file_raw() {
    let extra = strings(&["-c", "all"]);
    let r = run("a\\b".to_string(), Backend::Fastfetch, Some(&extra), "p");
    assert_eq!(r.fetcher, Fetcher::Fastfetch);
    assert_eq!(r.content, "a\\b");
    assert_eq!(r.args, strings(&["--file-raw", "p", "-c", "all"]));
}

#[test]
fn run_old_fastfetch_uses_the_old_argument() {
    let r = run("a".to_string(), Backend::FastfetchOld, None, "p");
    assert_eq!(r.fetcher, Fetcher::Fastfetch);
    assert_eq!(r.content, "a");
    assert_eq!(r.args, strings(&["--raw", "p"]));
}

#[test]
fn get_distro_name_asks_neofetch_for_the_name() {
    let r = get_distro_name(Backend::Neofetch);
    assert_eq!(r.fetcher, Fetcher::Neofetch);
    assert_eq!(r.args, strings(&["ascii_distro_name"]));
    assert_eq!(r.content, "");
}

#[test]
fn get_distro_name_asks_fastfetch_for_the_os_line() {
    for backend in [Backend::Fastfetch, Backend::FastfetchOld] {
        let r = get_distro_name(backend);
        assert_eq!(r.fetcher, Fetcher::Fastfetch);
        assert_eq!(
            r.args,
            strings(&["--logo", "none", "-s", "OS", "--disable-linewrap", "--os-key", " "])
        );
        assert_eq!(r.content, "");
    }
}

#[test]
fn needs_upgrade_only_for_exit_code_144() {
    assert!(needs_upgrade(Some(144)));
    assert!(!needs_upgrade(Some(0)));
    assert!(!needs_upgrade(Some(1)));
    assert!(!needs_upgrade(None));
}

#[test]
fn escape_doubles_every_backslash() {
    assert_eq!(escape_backslashes(""), "");
    assert_eq!(escape_backslashes("abc"), "abc");
    assert_eq!(escape_backslashes("\\"), "\\\\");
    assert_eq!(escape_backslashes("a\\\\b\\"), "a\\\\\\\\b\\\\");
    assert_eq!(escape_backslashes("\u{e9}\\\u{2588}"), "\u{e9}\\\\\u{2588}");
}

#[test]
fn unescape_halves_pairs_from_the_left() {
    assert_eq!(unescape_backslashes(""), "");
    assert_eq!(unescape_backslashes("a\\b"), "a\\b");
    assert_eq!(unescape_backslashes("a\\\\b"), "a\\b");
    assert_eq!(unescape_backslashes("\\\\\\"), "\\\\");
    assert_eq!(unescape_backslashes("\\\\\\\\"), "\\\\");
    assert_eq!(unescape_backslashes("\u{e9}\\\\\u{2588}\\"), "\u{e9}\\\u{2588}\\");
}

#[test]
fn unescape_undoes_escape() {
    for text in ["", "plain", "\\", "a\\\\b\\", "/\\_/\\\n\\\\\\"] {
        assert_eq!(unescape_backslashes(&escape_backslashes(text)), text);
    }
}

#[test]
fn fore_back_of_the_outlined_arts() {
    for distro in [
        Distro::Anarchy,
        Distro::ArchStrike,
        Distro::Astra_Linux,
        Distro::Chapeau,
        Distro::Fedora,
        Distro::GalliumOS,
        Distro::KrassOS,
        Distro::Kubuntu,
        Distro::Lubuntu,
        Distro::openEuler,
        Distro::Peppermint,
        Distro::Pop__OS,
        Distro::Ubuntu_Cinnamon,
        Distro::Ubuntu_Kylin,
        Distro::Ubuntu_MATE,
        Distro::Ubuntu_old,
        Distro::Ubuntu_Studio,
        Distro::Ubuntu_Sway,
        Distro::Ultramarine_Linux,
        Distro::Univention,
        Distro::Vanilla,
        Distro::Xubuntu,
    ] {
        assert_eq!(ColorAlignment::fore_back(distro), Some((2, 1)));
    }
}

#[test]
fn fore_back_of_antergos_is_the_other_way_round() {
    assert_eq!(ColorAlignment::fore_back(Distro::Antergos), Some((1, 2)));
}

#[test]
fn fore_back_of_any_other_distro_is_none() {
    assert_eq!(ColorAlignment::fore_back(Distro::Other), None);
}
