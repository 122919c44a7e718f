use dy::ParseResult;
use dy::course::{DYCourse, parse_course};
use dy::error::{ParseError, ParseErrorType};
use dy::exo::{Check, DYExo, TermAction, parse_exos};
use dy::range_on_line_part;
use dy::skill::{DYSkill, parse_skills};

fn skill(name: &str, description: &str, directory: &str, subskills: Vec<DYSkill>) -> DYSkill {
    DYSkill {
        name: name.to_string(),
        description: description.to_string(),
        directory: directory.to_string(),
        subskills,
    }
}

#[test]
fn test_can_parse_simple_valid_course() {
    let text = "course Programmation 1
code PRG1
goal Apprendre des bases solides du C++";
    let some_file_path = Some("course.dy".to_string());
    assert_eq!(
        parse_course(&some_file_path, text),
        ParseResult {
            items: vec![DYCourse {
                name: "Programmation 1".to_string(),
                instruction: "".to_string(),
                code: "PRG1".to_string(),
                goal: "Apprendre des bases solides du C++".to_string(),
            }],
            errors: vec![],
            some_file_path,
            some_file_content: None,
        }
    );
}

#[test]
fn test_can_parse_a_simple_exo() {
    let text = "
// the basic just greet me exo !
exo Just greet me
A simple hello program that **asks your firstname and lastname and greets you**.
Make sure to validate firstname and lastname content. They must contain only A-Z and a-z chars. 
Do not use a regex. Try to avoid repeating the validation logic.

The goal is to train input/output with `printf` and `scanf`.

check Can enter the full name and be greeted
args kinda
see What is your firstname ?
type John
see Hello John, what's your lastname ?
type Doe
see Have a nice day John Doe !
exit 0

check It validates the firstname text
see What is your firstname ?
type John23
see This doesn't look like a firstname...
exit 2
";
    let some_file = &Some("exo.dy".to_string());
    assert_eq!(
        parse_exos(some_file, text),
        ParseResult {
            some_file_path: some_file.clone(),
            some_file_content: None,
            items: vec![DYExo {
                name: "Just greet me".to_string(),
                instruction: "A simple hello program that **asks your firstname and lastname and greets you**.\nMake sure to validate firstname and lastname content. They must contain only A-Z and a-z chars. \nDo not use a regex. Try to avoid repeating the validation logic.\nThe goal is to train input/output with `printf` and `scanf`.".to_string(),
                checks: vec![
                    Check {
                        name: "Can enter the full name and be greeted".to_string(),
                        args: vec!["kinda".to_string()],
                        exit: Some(0),
                        sequence: vec![
                            TermAction::See("What is your firstname ?".to_string()),
                            TermAction::Type("John".to_string()),
                            TermAction::See("Hello John, what's your lastname ?".to_string()),
                            TermAction::Type("Doe".to_string()),
                            TermAction::See("Have a nice day John Doe !".to_string()),
                        ],
                    },
                    Check {
                        name: "It validates the firstname text".to_string(),
                        args: vec![],
                        exit: Some(2),
                        sequence: vec![
                            TermAction::See("What is your firstname ?".to_string()),
                            TermAction::Type("John23".to_string()),
                            TermAction::See("This doesn't look like a firstname...".to_string()),
                        ],
                    },
                ],
            }],
            errors: vec![],
        }
    );
}

#[test]
fn test_can_error_on_invalid_exit_code() {
    let text = "exo test
check test
see hello
exit blabla
";
    let some_file = &Some("exo.dy".to_string());
    assert_eq!(
        parse_exos(some_file, text),
        ParseResult {
            some_file_path: some_file.clone(),
            some_file_content: Some(text.to_string()),
            items: vec![DYExo {
                name: "test".to_string(),
                instruction: "".to_string(),
                checks: vec![Check {
                    name: "test".to_string(),
                    args: vec![],
                    exit: None,
                    sequence: vec![TermAction::See("hello".to_string())],
                }],
            }],
            errors: vec![ParseError {
                range: range_on_line_part(3, 5, 11),
                some_file: None,
                error: ParseErrorType::ValidationError(
                    "Couldn't parse the given value as the program's exit code (signed 32bits integer)".to_string(),
                ),
            }],
        }
    );
}

#[test]
fn test_can_extract_args_by_space_split() {
    let text = "exo test
check test
args 1 2 3 hey there
see hello
";
    let some_file = &Some("exo.dy".to_string());
    assert_eq!(
        parse_exos(some_file, text),
        ParseResult {
            some_file_path: some_file.clone(),
            some_file_content: None,
            items: vec![DYExo {
                name: "test".to_string(),
                instruction: "".to_string(),
                checks: vec![Check {
                    name: "test".to_string(),
                    args: vec![
                        "1".to_string(),
                        "2".to_string(),
                        "3".to_string(),
                        "hey".to_string(),
                        "there".to_string(),
                    ],
                    exit: None,
                    sequence: vec![TermAction::See("hello".to_string())],
                }],
            }],
            errors: vec![],
        }
    );
}

#[test]
fn test_detect_empty_args_error_but_ignores_empty_type() {
    let text = "exo test
check test
see hello
// that's an error
args
// that's okay
type
";
    let some_file = &Some("exo.dy".to_string());
    assert_eq!(
        parse_exos(some_file, text),
        ParseResult {
            some_file_path: some_file.clone(),
            some_file_content: Some(text.to_string()),
            items: vec![DYExo {
                name: "test".to_string(),
                instruction: "".to_string(),
                checks: vec![Check {
                    name: "test".to_string(),
                    args: vec![],
                    exit: None,
                    sequence: vec![
                        TermAction::See("hello".to_string()),
                        TermAction::Type("".to_string()),
                    ],
                }],
            }],
            errors: vec![ParseError {
                range: range_on_line_part(4, 4, 4),
                some_file: None,
                error: ParseErrorType::MissingRequiredValue("args".to_string()),
            }],
        }
    );
}

#[test]
fn test_can_parse_simple_skills() {
    let text = "
// Great skills list
skill Classes
dir classes

skill Opérateurs
Maitriser l'usage de **tous les opérateurs utiles**, pour manipuler
des nombres, des bits, ou encore des flux. Redéfinir les opérateurs
existants pour nos classes.
dir ops
subskill Calculs simples
Juste des calculs de math !

subskill Calculs avancés et précision
subskill Opérateurs de flux

subskill Manipulation de bits
subskill Redéfinition d'opérateurs

";
    let some_file = &Some("skills.dy".to_string());
    assert_eq!(
        parse_skills(some_file, text),
        ParseResult {
            some_file_path: some_file.clone(),
            some_file_content: None,
            items: vec![
                skill("Classes", "", "classes", vec![]),
                skill(
                    "Opérateurs",
                    "Maitriser l'usage de **tous les opérateurs utiles**, pour manipuler\ndes nombres, des bits, ou encore des flux. Redéfinir les opérateurs\nexistants pour nos classes.",
                    "ops",
                    vec![
                        skill("Calculs simples", "Juste des calculs de math !", "", vec![]),
                        skill("Calculs avancés et précision", "", "", vec![]),
                        skill("Opérateurs de flux", "", "", vec![]),
                        skill("Manipulation de bits", "", "", vec![]),
                        skill("Redéfinition d'opérateurs", "", "", vec![]),
                    ],
                ),
            ],
            errors: vec![],
        }
    );
}

#[test]
fn test_can_detect_subskill_missing_value() {
    let text = "skill A
great desc
dir a
subskill


";
    let some_file = &Some("skills.dy".to_string());
    assert_eq!(
        parse_skills(some_file, text),
        ParseResult {
            some_file_path: some_file.clone(),
            some_file_content: Some(text.to_string()),
            items: vec![DYSkill {
                name: "A".to_string(),
                directory: "a".to_string(),
                description: "great desc".to_string(),
                subskills: vec![skill("", "", "", vec![])],
            }],
            errors: vec![ParseError {
                range: range_on_line_part(3, 8, 8),
                some_file: None,
                error: ParseErrorType::MissingRequiredValue("subskill".to_string()),
            }],
        }
    );
}

#[test]
fn test_course_parse_recovers_after_misplaced_key() {
    // a key valid only under `course` appears at the document root: it is
    // reported and dropped, and the following structure still parses
    let text = "goal x
course y
code z";
    let r = parse_course(&None, text);
    assert_eq!(
        r.errors,
        vec![ParseError {
            range: dy::range_on_line_with_length(0, 4),
            some_file: None,
            error: ParseErrorType::WrongKeyPosition("goal".to_string(), "??".to_string()),
        }]
    );
    assert_eq!(
        r.items,
        vec![DYCourse {
            name: "y".to_string(),
            instruction: "".to_string(),
            code: "z".to_string(),
            goal: "".to_string(),
        }]
    );
}

#[test]
fn test_course_parse_keeps_last_goal_value_shape() {
    // a goal spanning several lines is joined with newlines, untrimmed per line
    let text = "course C
code X
goal line one
line two";
    let r = parse_course(&None, text);
    assert_eq!(r.errors, vec![]);
    assert_eq!(r.items[0].goal, "line one\nline two".to_string());
}

#[test]
fn test_exo_exit_accepts_extreme_values() {
    let text = "exo test
check test
see hello
exit -2147483648
";
    let r = parse_exos(&None, text);
    assert_eq!(r.errors, vec![]);
    assert_eq!(r.items[0].checks[0].exit, Some(-2147483648));
}

#[test]
fn test_exo_exit_rejects_overflowing_values() {
    let text = "exo test
check test
see hello
exit 2147483648
";
    let r = parse_exos(&None, text);
    assert_eq!(r.errors.len(), 1);
    assert!(matches!(r.errors[0].error, ParseErrorType::ValidationError(_)));
    assert_eq!(r.items[0].checks[0].exit, None);
}
