use vcd_header::parser::CommandParser;
use vcd_header::types::{TimeScale, TimeUnit};
use vcd_header::vcd::{VCDLoader, VCD};

#[test]
fn comments_on_one_line_keep_their_order() {
    let contents = "$comment c1 $end $comment c2 $end";
    let vcd = VCDLoader::load_from_str(contents).unwrap();
    assert_eq!(vcd.comments, vec!["c1", "c2"]);
}

#[test]
fn absent_commands_yield_the_defaults() {
    let contents = "$date only date $end";
    let vcd = VCDLoader::load_from_str(contents).unwrap();
    assert_eq!(vcd.date, "only date");
    assert_eq!(vcd.version, "");
    assert_eq!(vcd.timescale, TimeScale { value: 0, unit: TimeUnit::S });
    assert_eq!(vcd.comments, Vec::<String>::new());
}

#[test]
fn intruding_command_reports_missing_end_on_its_line() {
    let contents = "$date Text $version 1.0 $end";
    let err = VCDLoader::load_from_str(contents).unwrap_err();
    assert_eq!(err.message, "$date missing an $end");
    assert_eq!(err.line, 1);
}

#[test]
fn second_version_block_reports_multiple_commands() {
    let contents = "$version V1 $end $version V2 $end";
    let err = VCDLoader::load_from_str(contents).unwrap_err();
    assert_eq!(err.message, "Multiple $version commands is invalid");
    assert_eq!(err.line, 1);
}

#[test]
fn unclosed_block_reports_the_final_line() {
    let contents = "$date\n Text";
    let err = VCDLoader::load_from_str(contents).unwrap_err();
    assert_eq!(err.message, "$date missing an $end");
    assert_eq!(err.line, 2);
}

#[test]
fn runs_of_spaces_collapse_to_single_spaces() {
    let contents = "$date   a    b   $end";
    let vcd = VCDLoader::load_from_str(contents).unwrap();
    assert_eq!(vcd.date, "a b");
}

#[test]
fn newline_token_inside_a_block_leaves_a_double_space() {
    let contents = "$comment a \n b $end";
    let vcd = VCDLoader::load_from_str(contents).unwrap();
    assert_eq!(vcd.comments, vec!["a  b"]);
}

#[test]
fn first_end_token_of_an_empty_block_becomes_content() {
    let contents = "$date $end $end";
    let vcd = VCDLoader::load_from_str(contents).unwrap();
    assert_eq!(vcd.date, "$end");
}

#[test]
fn date_error_wins_over_version_error() {
    let contents = "$date D $version V";
    let err = VCDLoader::load_from_str(contents).unwrap_err();
    assert_eq!(err.message, "$date missing an $end");
}

#[test]
fn parse_command_collects_every_block() {
    let r = CommandParser::new()
        .lines("x $comment a $end y $comment b $end")
        .command("$comment")
        .enforce_only_one_of_command(false)
        .parse_command()
        .unwrap();
    assert_eq!(r, vec!["a", "b"]);
}

#[test]
fn parse_command_of_an_absent_command_is_empty() {
    let r = CommandParser::new()
        .lines("no commands here")
        .command("$date")
        .enforce_only_one_of_command(true)
        .parse_command()
        .unwrap();
    assert_eq!(r, Vec::<String>::new());
}

#[test]
fn timescale_tokens_decode_exactly() {
    assert_eq!(TimeScale::load_from_str("1ps"), Some(TimeScale { value: 1, unit: TimeUnit::PS }));
    assert_eq!(
        TimeScale::load_from_str("123us"),
        Some(TimeScale { value: 123, unit: TimeUnit::US })
    );
    assert_eq!(TimeScale::load_from_str("10ns"), Some(TimeScale { value: 10, unit: TimeUnit::NS }));
    assert_eq!(TimeScale::load_from_str("42ms"), Some(TimeScale { value: 42, unit: TimeUnit::MS }));
    assert_eq!(TimeScale::load_from_str("7fs"), Some(TimeScale { value: 7, unit: TimeUnit::FS }));
    assert_eq!(TimeScale::load_from_str("9s"), Some(TimeScale { value: 9, unit: TimeUnit::S }));
}

#[test]
fn malformed_timescale_tokens_do_not_decode() {
    assert_eq!(TimeScale::load_from_str(""), None);
    assert_eq!(TimeScale::load_from_str("ps"), None);
    assert_eq!(TimeScale::load_from_str("1"), None);
    assert_eq!(TimeScale::load_from_str("1 ps"), None);
    assert_eq!(TimeScale::load_from_str("1PS"), None);
    assert_eq!(TimeScale::load_from_str("1psx"), None);
}

#[test]
fn timescale_magnitude_is_bounded_by_u64() {
    assert_eq!(
        TimeScale::load_from_str("18446744073709551615s"),
        Some(TimeScale { value: u64::MAX, unit: TimeUnit::S })
    );
    assert_eq!(TimeScale::load_from_str("18446744073709551616s"), None);
}

#[test]
fn load_from_file_returns_the_default_record() {
    let vcd: VCD = VCDLoader::load_from_file("wave.vcd").unwrap();
    assert_eq!(vcd.date, "");
    assert_eq!(vcd.version, "");
    assert_eq!(vcd.timescale, TimeScale { value: 0, unit: TimeUnit::S });
    assert_eq!(vcd.comments, Vec::<String>::new());
}

#[test]
fn default_timescale_is_zero_seconds() {
    assert_eq!(TimeScale::new(), TimeScale { value: 0, unit: TimeUnit::S });
}
