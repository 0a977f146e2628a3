//! The grammar agrees with the same grammar written with nom's combinators.

use mnemosyne::parser::{story, story_block, story_command, story_id, story_text, ErrorKind, ParseError, Path, StoryParse};
use nom::{
    bytes::complete::{tag, take_while},
    character::complete::{alphanumeric0, alphanumeric1, multispace0},
    multi::many0,
    sequence::{delimited, tuple},
    IResult,
};

fn nom_id(input: &str) -> IResult<&str, String> {
    tuple((multispace0, delimited(tag("["), alphanumeric1, tag("]"))))(input)
        .map(|(next_input, (_, id))| (next_input, id.into()))
}

fn nom_text(input: &str) -> IResult<&str, String> {
    take_while(|c: char| c != '\\')(input).map(|(next_input, parsed)| (next_input, parsed.into()))
}

fn nom_command(input: &str) -> IResult<&str, Path> {
    tuple((
        tag("\\"),
        alphanumeric0,
        multispace0,
        delimited(tag("("), alphanumeric0, tag(")")),
        multispace0,
        delimited(tag("{"), take_while(|c: char| c != '}'), tag("}")),
        multispace0,
    ))(input)
    .map(|(left_input, res)| {
        let (_, id, _, command, _, label, _) = res;
        (
            left_input,
            Path { next_path: id.into(), command: command.into(), label: label.into() },
        )
    })
}

fn nom_block(input: &str) -> IResult<&str, StoryParse> {
    tuple((nom_id, nom_text, many0(nom_command)))(input).map(|(left_input, (id, text, command))| {
        (left_input, StoryParse { id: id, content: text, children: command })
    })
}

fn nom_story(input: &str) -> IResult<&str, Vec<StoryParse>> {
    many0(nom_block)(input)
}

fn same<T: PartialEq + std::fmt::Debug>(ours: Result<(String, T), ParseError>, theirs: IResult<&str, T>) {
    match (ours, theirs) {
        (Ok((rest, v)), Ok((rest2, v2))) => {
            assert_eq!(rest, rest2);
            assert_eq!(v, v2);
        }
        (Err(e), Err(nom::Err::Error(e2))) => {
            assert_eq!(e.input, e2.input);
            let kind = match e2.code {
                nom::error::ErrorKind::Tag => ErrorKind::Tag,
                nom::error::ErrorKind::AlphaNumeric => ErrorKind::AlphaNumeric,
                nom::error::ErrorKind::Many0 => ErrorKind::Many0,
                other => panic!("unexpected error kind {:?}", other),
            };
            assert_eq!(e.kind, kind);
        }
        (a, b) => panic!("disagreement: {:?} / {:?}", a, b),
    }
}

const INPUTS: &[&str] = &[
    "",
    "[",
    "[]",
    "[a",
    "[a]",
    " \t\r\n[START]text",
    "[x-y]",
    "[\u{e9}t\u{e9}]",
    "sadbnk",
    "\\",
    "\\W",
    "\\W (",
    "\\W (w",
    "\\W (w)",
    "\\W (w) {",
    "\\W (w) {l",
    "\\W (w) {l}",
    "\\W(w){l}  \n rest",
    "\\ () {}",
    "\\W (w w){l}",
    "[START]\n You enter a forest.\n \\WEST1 (west){You think of going west} \n \\EAST1 (east){You think of going east}\n \\Lay (lay){You decide to take a rest}\n\n [WEST1]\n You go west\n \\East (east){east}\n ",
    "[A] one\n[B] two",
    "[A]\\B (b){x}[B]\\A (a){y}",
    "[A]\\B (b){x}junk\\C (c){z}",
    "[A]text\\bad [B]more",
    "  [A] \u{17e}odis \u{1F600} \\B (b){\u{eb}}",
];

#[test]
fn id_agrees_with_nom() {
    for input in INPUTS {
        same(story_id(input), nom_id(input));
    }
}

#[test]
fn text_agrees_with_nom() {
    for input in INPUTS {
        same(story_text(input), nom_text(input));
    }
}

#[test]
fn command_agrees_with_nom() {
    for input in INPUTS {
        same(story_command(input), nom_command(input));
    }
}

#[test]
fn block_agrees_with_nom() {
    for input in INPUTS {
        same(story_block(input), nom_block(input));
    }
}

#[test]
fn story_agrees_with_nom() {
    for input in INPUTS {
        same(story(input), nom_story(input));
    }
}
