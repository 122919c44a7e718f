use dy::dyspec::{KeySpec, ValidDYSpec, ValueType};
use dy::error::{ParseError, ParseErrorType};
use dy::parser::tokenize_into_lines;
use dy::semantic::{Block, build_blocks_tree};
use dy::{TextRange, range_on_line_with_length, range_on_lines};

fn key(id: &str, vt: ValueType, once: bool, required: bool, subkeys: Vec<KeySpec>) -> KeySpec {
    KeySpec { id: id.to_string(), desc: "test".to_string(), subkeys, vt, once, required }
}

fn goal_spec() -> KeySpec {
    key("goal", ValueType::Multiline, true, true, vec![])
}

fn code_spec() -> KeySpec {
    key("code", ValueType::SingleLine, true, true, vec![])
}

fn course_spec() -> KeySpec {
    key("course", ValueType::SingleLine, true, true, vec![code_spec(), goal_spec()])
}

fn testing_course_spec() -> Vec<KeySpec> {
    vec![course_spec()]
}

fn subskill_spec() -> KeySpec {
    key("subskill", ValueType::Multiline, false, false, vec![])
}

fn skill_spec() -> KeySpec {
    key("skill", ValueType::Multiline, false, true, vec![subskill_spec()])
}

fn testing_skills_spec() -> Vec<KeySpec> {
    vec![skill_spec()]
}

fn args_spec() -> KeySpec {
    key("args", ValueType::SingleLine, true, false, vec![])
}

fn see_spec() -> KeySpec {
    key("see", ValueType::Multiline, false, true, vec![])
}

fn type_spec() -> KeySpec {
    key("type", ValueType::SingleLine, false, false, vec![])
}

fn exit_spec() -> KeySpec {
    key("exit", ValueType::SingleLine, true, false, vec![])
}

fn check_spec() -> KeySpec {
    key(
        "check",
        ValueType::SingleLine,
        false,
        true,
        vec![args_spec(), see_spec(), type_spec(), exit_spec()],
    )
}

fn exo_spec() -> KeySpec {
    key("exo", ValueType::Multiline, true, true, vec![check_spec()])
}

fn testing_exos_spec() -> Vec<KeySpec> {
    vec![exo_spec()]
}

fn block(key: KeySpec, text: Vec<&str>, range: TextRange, subblocks: Vec<Block>) -> Block {
    Block { key, text: text.iter().map(|t| t.to_string()).collect(), range, subblocks }
}

fn err(range: TextRange, error: ParseErrorType) -> ParseError {
    ParseError { range, some_file: None, error }
}

fn get_blocks(spec: Vec<KeySpec>, text: &str) -> (Vec<Block>, Vec<ParseError>) {
    let valid = ValidDYSpec::new(spec).unwrap();
    let lines = tokenize_into_lines(&valid, text);
    build_blocks_tree(&valid, lines)
}

#[test]
fn test_can_build_blocks_for_simple_course() {
    let text = "course Programmation 1
code PRG1
goal Apprendre des bases solides du C++";
    let (blocks, errors) = get_blocks(testing_course_spec(), text);
    assert_eq!(
        blocks,
        vec![block(
            course_spec(),
            vec!["Programmation 1"],
            range_on_lines(0, 2, 39),
            vec![
                block(code_spec(), vec!["PRG1"], range_on_line_with_length(1, 9), vec![]),
                block(
                    goal_spec(),
                    vec!["Apprendre des bases solides du C++"],
                    range_on_line_with_length(2, 39),
                    vec![],
                ),
            ],
        )]
    );
    assert_eq!(errors, vec![]);
}

#[test]
fn test_can_build_blocks_for_complex_skills() {
    let text = "skill A
subskill B
skill C
skill D
subskill E";
    let (blocks, errors) = get_blocks(testing_skills_spec(), text);
    assert_eq!(
        blocks,
        vec![
            block(
                skill_spec(),
                vec!["A"],
                range_on_lines(0, 1, 10),
                vec![block(
                    subskill_spec(),
                    vec!["B"],
                    range_on_line_with_length(1, 10),
                    vec![],
                )],
            ),
            block(skill_spec(), vec!["C"], range_on_line_with_length(2, 7), vec![]),
            block(
                skill_spec(),
                vec!["D"],
                range_on_lines(3, 4, 10),
                vec![block(
                    subskill_spec(),
                    vec!["E"],
                    range_on_line_with_length(4, 10),
                    vec![],
                )],
            ),
        ]
    );
    assert_eq!(errors, vec![]);
}

#[test]
fn test_can_detect_wrong_key_positions() {
    let text = "goal learn c++
course Programmation 1
code hey";
    let (_, errors) = get_blocks(testing_course_spec(), text);
    assert_eq!(
        errors,
        vec![err(
            range_on_line_with_length(0, 4),
            ParseErrorType::WrongKeyPosition("goal".to_string(), "??".to_string()),
        )]
    );
}

#[test]
fn test_can_detect_duplicated_key_error() {
    let text = "course Programmation 1
course oups";
    let (blocks, errors) = get_blocks(testing_course_spec(), text);
    assert_eq!(
        blocks,
        vec![block(
            course_spec(),
            vec!["Programmation 1"],
            range_on_line_with_length(0, 22),
            vec![],
        )]
    );
    assert_eq!(
        errors,
        vec![err(
            range_on_line_with_length(1, 6),
            ParseErrorType::DuplicatedKey("course".to_string(), 0),
        )]
    );
}

#[test]
fn test_every_later_once_duplicate_is_dropped() {
    let text = "course A
course B
course C";
    let (blocks, errors) = get_blocks(testing_course_spec(), text);
    assert_eq!(
        blocks,
        vec![block(course_spec(), vec!["A"], range_on_line_with_length(0, 8), vec![])]
    );
    assert_eq!(
        errors,
        vec![
            err(
                range_on_line_with_length(1, 6),
                ParseErrorType::DuplicatedKey("course".to_string(), 0),
            ),
            err(
                range_on_line_with_length(2, 6),
                ParseErrorType::DuplicatedKey("course".to_string(), 0),
            ),
        ]
    );
}

#[test]
fn test_can_build_blocks_with_multiline_keys_ignoring_comments() {
    let text = "// amazing file
// just ignored
skill A
// yop
A desc
// yop in middle
A desc 2
subskill AA
skill B
// just ignored
B desc
// just ignored
subskill C
// just ignored
// just ignored
// just ignored
C desc
C desc 2
// just ignored
// just ignored
// just ignored
";
    let (blocks, errors) = get_blocks(testing_skills_spec(), text);
    assert_eq!(
        blocks,
        vec![
            block(
                skill_spec(),
                vec!["A", "A desc", "A desc 2"],
                range_on_lines(2, 7, 11),
                vec![block(
                    subskill_spec(),
                    vec!["AA"],
                    range_on_line_with_length(7, 11),
                    vec![],
                )],
            ),
            block(
                skill_spec(),
                vec!["B", "B desc"],
                range_on_lines(8, 17, 8),
                vec![block(
                    subskill_spec(),
                    vec!["C", "C desc", "C desc 2"],
                    range_on_lines(12, 17, 8),
                    vec![],
                )],
            ),
        ]
    );
    assert_eq!(errors, vec![]);
}

#[test]
fn test_can_detect_invalid_multiline_content() {
    let text = "course Programmation 1
some multiline content oups
code PRG1
goal Apprendre des bases solides du C++";
    let (blocks, errors) = get_blocks(testing_course_spec(), text);
    assert_eq!(
        errors,
        vec![err(
            range_on_line_with_length(1, 27),
            ParseErrorType::InvalidMultilineContent("course".to_string()),
        )]
    );
    assert_eq!(
        blocks,
        vec![block(
            course_spec(),
            vec!["Programmation 1"],
            range_on_lines(0, 3, 39),
            vec![
                block(code_spec(), vec!["PRG1"], range_on_line_with_length(2, 9), vec![]),
                block(
                    goal_spec(),
                    vec!["Apprendre des bases solides du C++"],
                    range_on_line_with_length(3, 39),
                    vec![],
                ),
            ],
        )]
    );
}

#[test]
fn test_can_detect_content_out_of_key() {
    let text = "
some random content

course Programmation 1
code PRG1
goal Apprendre des bases solides du C++";
    let (blocks, errors) = get_blocks(testing_course_spec(), text);
    assert_eq!(
        errors,
        vec![err(range_on_line_with_length(1, 19), ParseErrorType::ContentOutOfKey)]
    );
    assert_eq!(
        blocks,
        vec![block(
            course_spec(),
            vec!["Programmation 1"],
            range_on_lines(3, 5, 39),
            vec![
                block(code_spec(), vec!["PRG1"], range_on_line_with_length(4, 9), vec![]),
                block(
                    goal_spec(),
                    vec!["Apprendre des bases solides du C++"],
                    range_on_line_with_length(5, 39),
                    vec![],
                ),
            ],
        )]
    );
}

#[test]
fn test_can_extract_complex_exos_blocks_with_errors_ignorance() {
    let text = "// great exo
exo hey
a great instruction
on several lines

check validate it
args John
see Hello John
type Doe
see Hello John Doe
exit 0

check error
args john doe
args invalid duplicated args !
see too many arguments
exit 1
exit double exit !

// Another one !
exo duplicated invalid exo !
check error with duplicate
";
    let (blocks, errors) = get_blocks(testing_exos_spec(), text);
    assert_eq!(
        errors,
        vec![
            err(
                range_on_line_with_length(14, 4),
                ParseErrorType::DuplicatedKey("args".to_string(), 2),
            ),
            err(
                range_on_line_with_length(17, 4),
                ParseErrorType::DuplicatedKey("exit".to_string(), 2),
            ),
            err(
                range_on_line_with_length(20, 3),
                ParseErrorType::DuplicatedKey("exo".to_string(), 0),
            ),
        ]
    );
    assert_eq!(
        blocks,
        vec![block(
            exo_spec(),
            vec!["hey", "a great instruction", "on several lines"],
            range_on_lines(1, 16, 6),
            vec![
                block(
                    check_spec(),
                    vec!["validate it"],
                    range_on_lines(5, 10, 6),
                    vec![
                        block(args_spec(), vec!["John"], range_on_line_with_length(6, 9), vec![]),
                        block(
                            see_spec(),
                            vec!["Hello John"],
                            range_on_line_with_length(7, 14),
                            vec![],
                        ),
                        block(type_spec(), vec!["Doe"], range_on_line_with_length(8, 8), vec![]),
                        block(
                            see_spec(),
                            vec!["Hello John Doe"],
                            range_on_line_with_length(9, 18),
                            vec![],
                        ),
                        block(exit_spec(), vec!["0"], range_on_line_with_length(10, 6), vec![]),
                    ],
                ),
                block(
                    check_spec(),
                    vec!["error"],
                    range_on_lines(12, 16, 6),
                    vec![
                        block(
                            args_spec(),
                            vec!["john doe"],
                            range_on_line_with_length(13, 13),
                            vec![],
                        ),
                        block(
                            see_spec(),
                            vec!["too many arguments"],
                            range_on_line_with_length(15, 22),
                            vec![],
                        ),
                        block(exit_spec(), vec!["1"], range_on_line_with_length(16, 6), vec![]),
                    ],
                ),
            ],
        )]
    );
}

#[test]
fn test_strange_exo_parsing_can_correctly_ignore_error() {
    let text = "random text
exo hey there
some content
// just a comment
see not good because incorrect level
check yes
args 1
see good
args duplicated !
type good
check 2
";
    let (blocks, errors) = get_blocks(testing_exos_spec(), text);
    assert_eq!(
        errors,
        vec![
            err(range_on_line_with_length(0, 11), ParseErrorType::ContentOutOfKey),
            err(
                range_on_line_with_length(4, 3),
                ParseErrorType::WrongKeyPosition("see".to_string(), "??".to_string()),
            ),
            err(
                range_on_line_with_length(8, 4),
                ParseErrorType::DuplicatedKey("args".to_string(), 2),
            ),
        ]
    );
    assert_eq!(
        blocks,
        vec![block(
            exo_spec(),
            vec!["hey there", "some content"],
            range_on_lines(1, 10, 7),
            vec![
                block(
                    check_spec(),
                    vec!["yes"],
                    range_on_lines(5, 9, 9),
                    vec![
                        block(args_spec(), vec!["1"], range_on_line_with_length(6, 6), vec![]),
                        block(see_spec(), vec!["good"], range_on_line_with_length(7, 8), vec![]),
                        block(type_spec(), vec!["good"], range_on_line_with_length(9, 9), vec![]),
                    ],
                ),
                block(check_spec(), vec!["2"], range_on_line_with_length(10, 7), vec![]),
            ],
        )]
    );
}

#[test]
fn test_empty_lines_are_present_in_block_text() {
    let text = "exo hey there
some instruction

~~~

some code

~~~
";
    let (blocks, errors) = get_blocks(testing_exos_spec(), text);
    assert_eq!(errors, vec![]);
    // entirely-whitespace lines are consumed and ignored, so only the
    // non-blank lines stand in the block's text; the range still reaches
    // the last folded line
    assert_eq!(
        blocks,
        vec![block(
            exo_spec(),
            vec!["hey there", "some instruction", "~~~", "some code", "~~~"],
            range_on_lines(0, 7, 3),
            vec![],
        )]
    );
}

#[test]
fn test_block_joined_text_helpers() {
    let text = "exo hey there
some instruction

last line
";
    let (blocks, _) = get_blocks(testing_exos_spec(), text);
    assert_eq!(
        blocks[0].get_joined_text(),
        "hey there\nsome instruction\nlast line".to_string()
    );
    let (first, rest) = blocks[0].get_text_with_joined_splits_at(1);
    assert_eq!(first, "hey there".to_string());
    assert_eq!(rest, "some instruction\nlast line".to_string());
}
