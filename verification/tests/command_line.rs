//! The command line.

use macswapi::cli::{command, parse_args, parse_number, usage, Command, Config};

fn strings(words: &[&str]) -> Vec<String> {
    words.iter().map(|s| s.to_string()).collect()
}

fn parse(words: &[&str]) -> Result<Config, String> {
    parse_args(&strings(words))
}

fn plain(topn: usize) -> Config {
    Config { topn, show_parent: false, watch_secs: None, help: false }
}

#[test]
fn test_parse_args_accepts_strict_interval_order() {
    assert_eq!(
        parse(&["20", "--delta", "5"]).unwrap(),
        Config {
            topn: 20,
            show_parent: false,
            watch_secs: Some(5),
            help: false,
        }
    );
}

#[test]
fn test_parse_args_rejects_n_after_interval_flag() {
    assert!(parse(&["--delta", "5", "20"]).is_err());
}

#[test]
fn test_parse_args_rejects_zero_interval() {
    assert!(parse(&["--watch", "0"]).is_err());
}

#[test]
fn each_fault_has_its_message() {
    let fault = |words: &[&str]| parse(words).unwrap_err();
    assert_eq!(fault(&["-w", "5", "--delta"]), "duplicate interval flag");
    assert_eq!(fault(&["-w", "--watch"]), "duplicate interval flag");
    assert_eq!(fault(&["-w", "0"]), "watch interval must be positive");
    assert_eq!(fault(&["-w", "5", "20"]), "N must appear before the interval flag");
    assert_eq!(fault(&["-w", "-p", "20"]), "N must appear before the interval flag");
    assert_eq!(fault(&["--wat"]), "unknown arg: --wat");
    assert_eq!(fault(&[""]), "unknown arg: ");
    assert_eq!(fault(&["-1"]), "unknown arg: -1");
    assert_eq!(fault(&["99999999999999999999"]), "unknown arg: 99999999999999999999");
}

#[test]
fn flags_mean_what_they_should() {
    assert_eq!(parse(&[]), Ok(plain(20)));
    assert_eq!(parse(&["0"]), Ok(plain(0)));
    assert_eq!(parse(&["7", "8"]), Ok(plain(8)));
    assert_eq!(parse(&["+9"]), Ok(plain(9)));
    for flag in ["-p", "--parent"] {
        assert_eq!(parse(&[flag]), Ok(Config { show_parent: true, ..plain(20) }));
        assert_eq!(
            parse(&["-w", "2", flag]),
            Ok(Config { show_parent: true, watch_secs: Some(2), ..plain(20) })
        );
    }
    for flag in ["-w", "--watch", "--delta"] {
        assert_eq!(parse(&[flag]), Ok(Config { watch_secs: Some(3), ..plain(20) }));
        assert_eq!(
            parse(&["50", flag, "18446744073709551615"]),
            Ok(Config { watch_secs: Some(u64::MAX), ..plain(50) })
        );
        assert_eq!(
            parse(&[flag, "-p"]),
            Ok(Config { watch_secs: Some(3), show_parent: true, ..plain(20) })
        );
    }
}

#[test]
fn help_ends_the_reading() {
    for flag in ["-h", "--help"] {
        assert!(parse(&[flag]).unwrap().help);
        assert!(parse(&["-w", flag, "nonsense"]).unwrap().help);
        assert!(parse(&["nonsense", flag]).is_err());
    }
}

#[test]
fn a_help_flag_keeps_what_stands_in_front_of_it() {
    assert_eq!(
        parse(&["7", "-p", "-w", "-h", "nonsense"]),
        Ok(Config { topn: 7, show_parent: true, watch_secs: Some(3), help: true })
    );
    assert_eq!(parse(&["-h", "9", "-p"]), Ok(Config { help: true, ..plain(20) }));
    assert_eq!(parse(&["-w", "0", "-h"]), parse(&["-w", "0"]));
    assert_eq!(parse(&["-w", "5", "6", "--help"]), parse(&["-w", "5", "6"]));
}

#[test]
fn the_last_number_of_rows_counts() {
    assert_eq!(parse(&["-w", "5"]).unwrap().topn, 20);
    assert_eq!(parse(&["8", "-w", "5"]).unwrap().topn, 8);
    assert_eq!(parse(&["8", "-p", "9", "-p"]).unwrap().topn, 9);
    assert_eq!(parse(&["8", "9", "--delta", "5", "-p"]).unwrap().topn, 9);
}

#[test]
fn the_first_fault_is_reported() {
    let fault = |words: &[&str]| parse(words).unwrap_err();
    assert_eq!(fault(&["x", "-w", "0"]), "unknown arg: x");
    assert_eq!(fault(&["-w", "0", "x"]), "watch interval must be positive");
    assert_eq!(fault(&["-w", "7", "8", "-w"]), "N must appear before the interval flag");
    assert_eq!(fault(&["-w", "7", "-w", "8"]), "duplicate interval flag");
}

#[test]
fn lines_without_a_fault_are_accepted() {
    for words in [
        &["1", "-p", "2", "-w"][..],
        &["-p", "--parent", "--watch", "7", "-p"],
        &["+5", "--delta", "+6"],
        &["-w", "-p"],
    ] {
        assert!(parse(words).is_ok(), "{words:?}");
    }
}

#[test]
fn numbers_are_read_as_the_standard_library_reads_them() {
    for s in [
        "", "+", "-", "0", "00", "+0", "-0", "7", "+7", "++7", "7+", " 7", "7 ", "1_0", "0x10",
        "18446744073709551615", "18446744073709551616", "018446744073709551615",
        "99999999999999999999999", "1a", "\u{661}", "٣",
    ] {
        assert_eq!(parse_number(s, u64::MAX), s.parse::<u64>().ok(), "{s:?}");
        let small = s.parse::<u8>().ok().map(|n| n as u64);
        assert_eq!(parse_number(s, 255), small, "{s:?}");
    }
    assert_eq!(parse_number("255", 255), Some(255));
    assert_eq!(parse_number("256", 255), None);
    assert_eq!(parse_number("5", 3), None);
}

#[test]
fn commands_follow_the_configuration() {
    assert_eq!(
        command(&strings(&["5", "-p"])),
        Command::Snapshot { topn: 5, show_parent: true }
    );
    assert_eq!(
        command(&strings(&["5", "-w"])),
        Command::Watch { interval: 3, topn: 5, show_parent: false }
    );
    assert_eq!(command(&strings(&["-w", "9", "-h"])), Command::Help);
    assert_eq!(
        command(&strings(&["x"])),
        Command::Reject { message: "unknown arg: x".to_string() }
    );
}

#[test]
fn help_has_eight_lines() {
    let lines = usage();
    assert_eq!(lines.len(), 8);
    assert_eq!(lines[0], "macswapi [N] [-p|--parent] [-w|--watch|--delta [SECS]]");
    assert_eq!(lines[7], "  -h --help    this help");
}
