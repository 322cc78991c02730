use solitaire::game::{Action, FoundationSource, TableauSource};
use solitaire::parse::ParseActionError;
use std::str::FromStr;

#[test]
fn parses_draw() {
    assert_eq!(Action::parse("draw"), Ok(Action::Draw));
}

#[test]
fn parses_build_from_waste() {
    assert_eq!(
        Action::parse("build u"),
        Ok(Action::BuildFoundation { src: FoundationSource::Upturned })
    );
}

#[test]
fn parses_build_from_tableau() {
    assert_eq!(
        Action::parse("build 3"),
        Ok(Action::BuildFoundation { src: FoundationSource::Tableau(3) })
    );
    assert_eq!(
        Action::parse("build 0"),
        Ok(Action::BuildFoundation { src: FoundationSource::Tableau(0) })
    );
}

#[test]
fn parses_move_from_waste() {
    assert_eq!(
        Action::parse("move u 4"),
        Ok(Action::BuildTableau { src: TableauSource::Upturned, dst: 4 })
    );
}

#[test]
fn parses_move_between_tableaus() {
    assert_eq!(
        Action::parse("move 1 2 3"),
        Ok(Action::BuildTableau { src: TableauSource::Tableau { index: 1, size: 2 }, dst: 3 })
    );
}

#[test]
fn rejects_unknown_commands() {
    for bad in [
        "",
        " ",
        "quit",
        "draw ",
        " draw",
        "draw u",
        "build",
        "build x",
        "build -1",
        "build 1 2",
        "move",
        "move u",
        "move 1 2",
        "move 1 2 3 4",
        "move a 2 3",
        "Draw",
    ] {
        let r = Action::parse(bad);
        let ParseActionError::Invalid(m) = r.expect_err(bad);
        assert_eq!(m, format!("Unknown command {}", bad));
    }
}

#[test]
fn rejects_numbers_too_large_for_the_machine() {
    let r = Action::parse("build 99999999999999999999999999");
    assert!(r.is_err());
    // The largest index still fits.
    let max = format!("build {}", usize::MAX);
    assert_eq!(
        Action::parse(&max),
        Ok(Action::BuildFoundation { src: FoundationSource::Tableau(usize::MAX) })
    );
}

#[test]
fn from_str_matches_parse() {
    assert_eq!(Action::from_str("draw"), Ok(Action::Draw));
    assert!(Action::from_str("nope").is_err());
}
