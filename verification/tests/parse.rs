use std::io::Write;

use rcvcounter::{parse_ballots, race_of, ConfigError, ParseError, Race};

fn build_zip(entries: &[(&str, &[u8])]) -> Vec<u8> {
    let cursor = std::io::Cursor::new(Vec::new());
    let mut w = zip::ZipWriter::new(cursor);
    let options = zip::write::SimpleFileOptions::default();
    for (name, data) in entries {
        w.start_file(*name, options).unwrap();
        w.write_all(data).unwrap();
    }
    w.finish().unwrap().into_inner()
}

const CHP: &[u8] = b".ELECT 2\n.CANDIDATE C01, \"Smith, Alice\"\n.CANDIDATE C02, Bob Jones\n.INCLUDE P1.PRM\n";
const PRM: &[u8] = b"b1,1)C01[1],C02[2]\nb2,1)C02[1]\n\n";

#[test]
fn parses_a_small_election() {
    let zip = build_zip(&[("School/Rules.chp", CHP), ("School/P1.prm", PRM)]);
    let bd = parse_ballots(&zip, Race::School).unwrap();
    assert_eq!(bd.seats, 2);
    assert_eq!(bd.candidates, vec!["Alice Smith".to_string(), "Bob Jones".to_string()]);
    assert_eq!(bd.precints, vec!["p1".to_string()]);
    assert_eq!(bd.ballots.len(), 1);
    assert_eq!(bd.ballot_ids, vec![vec!["b1".to_string(), "b2".to_string()]]);
    let mut expected1 = [0u8; 16];
    expected1[0] = 1;
    expected1[1] = 2;
    let mut expected2 = [0u8; 16];
    expected2[0] = 2;
    assert_eq!(bd.ballots[0], vec![expected1, expected2]);
}

#[test]
fn race_marker_selects_the_rules_file() {
    let zip = build_zip(&[("School/Rules.chp", CHP), ("School/P1.prm", PRM)]);
    // The council race finds no matching rules file in this archive.
    assert!(matches!(parse_ballots(&zip, Race::Council), Err(ParseError::MissingChp)));
}

#[test]
fn garbage_is_not_an_archive() {
    assert!(matches!(
        parse_ballots(b"this is not a zip file", Race::School),
        Err(ParseError::BadArchive)
    ));
}

#[test]
fn missing_included_ballot_file() {
    let zip = build_zip(&[("School/Rules.chp", CHP)]);
    assert!(matches!(parse_ballots(&zip, Race::School), Err(ParseError::MissingPrm)));
}

#[test]
fn bad_seat_count() {
    let chp = b".ELECT two\n.CANDIDATE C01, A\n";
    let zip = build_zip(&[("School/Rules.chp", chp)]);
    assert!(matches!(parse_ballots(&zip, Race::School), Err(ParseError::BadSeats)));
}

#[test]
fn bad_candidate_definition() {
    let chp = b".ELECT 1\n.CANDIDATE nocomma\n";
    let zip = build_zip(&[("School/Rules.chp", chp)]);
    assert!(matches!(parse_ballots(&zip, Race::School), Err(ParseError::BadCandidateDef)));
}

#[test]
fn unknown_candidate_id_on_a_ballot() {
    let prm = b"b1,1)C99[1]\n";
    let zip = build_zip(&[("School/Rules.chp", CHP), ("School/P1.prm", prm)]);
    assert!(matches!(parse_ballots(&zip, Race::School), Err(ParseError::UnknownCandidateId)));
}

#[test]
fn ballot_line_without_terminator() {
    let prm = b"b1,1 C01[1]\n";
    let zip = build_zip(&[("School/Rules.chp", CHP), ("School/P1.prm", prm)]);
    assert!(matches!(parse_ballots(&zip, Race::School), Err(ParseError::BadBallot)));
}

#[test]
fn ballot_id_without_field_separator() {
    let prm = b"b1)C01[1]\n";
    let zip = build_zip(&[("School/Rules.chp", CHP), ("School/P1.prm", prm)]);
    assert!(matches!(parse_ballots(&zip, Race::School), Err(ParseError::BadBallotId)));
}

#[test]
fn ranking_without_bracket() {
    let prm = b"b1,1)C01\n";
    let zip = build_zip(&[("School/Rules.chp", CHP), ("School/P1.prm", prm)]);
    assert!(matches!(parse_ballots(&zip, Race::School), Err(ParseError::BadRanking)));
}

#[test]
fn equals_tokens_and_empty_tokens_are_skipped() {
    let prm = b"b1,1),=skip,C02[1],\n";
    let zip = build_zip(&[("School/Rules.chp", CHP), ("School/P1.prm", prm)]);
    let bd = parse_ballots(&zip, Race::School).unwrap();
    let mut expected = [0u8; 16];
    expected[0] = 2;
    assert_eq!(bd.ballots[0], vec![expected]);
}

#[test]
fn blank_rankings_produce_no_ballot() {
    let prm = b"b1,1)\nb2,1)C01[1]\n";
    let zip = build_zip(&[("School/Rules.chp", CHP), ("School/P1.prm", prm)]);
    let bd = parse_ballots(&zip, Race::School).unwrap();
    assert_eq!(bd.ballots[0].len(), 1);
    assert_eq!(bd.ballot_ids[0], vec!["b2".to_string()]);
}

#[test]
fn custom_separators() {
    let chp = b".ELECT 1\n.BALLOT-FORMAT-SEPS ;|\n.CANDIDATE C01, A\n.INCLUDE P1.PRM\n";
    let prm = b"b1;1|C01[1]\n";
    let zip = build_zip(&[("School/Rules.chp", chp), ("School/P1.prm", prm)]);
    let bd = parse_ballots(&zip, Race::School).unwrap();
    let mut expected = [0u8; 16];
    expected[0] = 1;
    assert_eq!(bd.ballots[0], vec![expected]);
}

#[test]
fn separator_definition_too_short() {
    let chp = b".ELECT 1\n.BALLOT-FORMAT-SEPS ;\n";
    let zip = build_zip(&[("School/Rules.chp", chp)]);
    assert!(matches!(parse_ballots(&zip, Race::School), Err(ParseError::BadSeparators)));
}

#[test]
fn too_many_candidates() {
    let mut chp = b".ELECT 1\n".to_vec();
    for i in 0..256 {
        chp.extend_from_slice(format!(".CANDIDATE C{i:03}, N{i}\n").as_bytes());
    }
    let zip = build_zip(&[("School/Rules.chp", &chp)]);
    assert!(matches!(parse_ballots(&zip, Race::School), Err(ParseError::TooManyCandidates)));
}

#[test]
fn ballot_file_must_be_utf8() {
    let prm: &[u8] = b"b1,1)C01[1]\n\xff\xfe\n";
    let zip = build_zip(&[("School/Rules.chp", CHP), ("School/P1.prm", prm)]);
    assert!(matches!(parse_ballots(&zip, Race::School), Err(ParseError::NotUtf8)));
}

#[test]
fn rules_file_falls_back_to_latin1() {
    // 0xE9 is not valid UTF-8 on its own; as Latin-1 it reads as 'é'.
    let chp: &[u8] = b".ELECT 1\n.CANDIDATE C01, Ren\xe9e\n";
    let zip = build_zip(&[("School/Rules.chp", chp)]);
    let bd = parse_ballots(&zip, Race::School).unwrap();
    assert_eq!(bd.candidates, vec!["Ren\u{e9}e".to_string()]);
}

#[test]
fn upper_case_file_names_are_matched() {
    let zip = build_zip(&[("School/RULES.CHP", CHP), ("School/P1.PRM", PRM)]);
    let bd = parse_ballots(&zip, Race::School).unwrap();
    assert_eq!(bd.ballots[0].len(), 2);
    assert_eq!(bd.precints, vec!["p1".to_string()]);
}

#[test]
fn sixteen_preferences_cap() {
    let mut chp = b".ELECT 1\n".to_vec();
    for i in 1..=20 {
        chp.extend_from_slice(format!(".CANDIDATE C{i:02}, N{i}\n").as_bytes());
    }
    chp.extend_from_slice(b".INCLUDE P1.PRM\n");
    let mut line = b"b1,1)".to_vec();
    let tokens: Vec<String> = (1..=20).map(|i| format!("C{i:02}[{i}]")).collect();
    line.extend_from_slice(tokens.join(",").as_bytes());
    line.push(b'\n');
    let zip = build_zip(&[("School/Rules.chp", &chp), ("School/P1.prm", &line)]);
    let bd = parse_ballots(&zip, Race::School).unwrap();
    let b = bd.ballots[0][0];
    for k in 0..16 {
        assert_eq!(b[k], (k + 1) as u8);
    }
}

#[test]
fn error_messages_name_the_failure() {
    let e = parse_ballots(b"junk", Race::School).unwrap_err();
    assert_eq!(e.message(), "could not read the ballot archive");
    let zip = build_zip(&[("School/Rules.chp", b".ELECT x\n")]);
    let e = parse_ballots(&zip, Race::School).unwrap_err();
    assert_eq!(e.message(), "failed to parse the seat count");
}

#[test]
fn duplicate_rankings_are_normalized() {
    // The same candidate ranked twice keeps only the first rank.
    let prm = b"b1,1)C01[1],C01[2],C02[3]\n";
    let zip = build_zip(&[("School/Rules.chp", CHP), ("School/P1.prm", prm)]);
    let bd = parse_ballots(&zip, Race::School).unwrap();
    let mut expected = [0u8; 16];
    expected[0] = 1;
    expected[1] = 2;
    assert_eq!(bd.ballots[0], vec![expected]);
}

#[test]
fn election_codes_name_races() {
    assert_eq!(race_of("sc21"), Ok(Race::School));
    assert_eq!(race_of("sc23"), Ok(Race::School));
    assert_eq!(race_of("cc21"), Ok(Race::Council));
    assert_eq!(race_of("cc23"), Ok(Race::Council));
    assert_eq!(race_of("mayor"), Err(ConfigError::UnknownElection));
}
