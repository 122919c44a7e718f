use dy::dyspec::{KeySpec, ValidDYSpec, ValueType};
use dy::parser::{Line, LinePart, LineType, line_starts_with_key, tokenize_into_lines};

fn key(id: &str, vt: ValueType, once: bool, required: bool, subkeys: Vec<KeySpec>) -> KeySpec {
    KeySpec { id: id.to_string(), desc: "test".to_string(), subkeys, vt, once, required }
}

fn testing_course_spec() -> Vec<KeySpec> {
    vec![key(
        "course",
        ValueType::SingleLine,
        true,
        true,
        vec![
            key("code", ValueType::SingleLine, true, true, vec![]),
            key("goal", ValueType::Multiline, true, true, vec![]),
        ],
    )]
}

fn testing_exos_spec() -> Vec<KeySpec> {
    vec![key(
        "exo",
        ValueType::Multiline,
        true,
        true,
        vec![key(
            "check",
            ValueType::SingleLine,
            false,
            true,
            vec![
                key("args", ValueType::SingleLine, true, false, vec![]),
                key("see", ValueType::Multiline, false, true, vec![]),
                key("type", ValueType::SingleLine, false, false, vec![]),
                key("exit", ValueType::SingleLine, true, false, vec![]),
            ],
        )],
    )]
}

fn line(index: usize, slice: &str, lt: LineType) -> Line {
    Line { index, slice: slice.to_string(), lt }
}

fn with_key(id: &str) -> LineType {
    LineType::WithKey(id.to_string())
}

#[test]
fn test_line_into_parts() {
    assert_eq!(
        line(0, "course AB C D", with_key("course")).tokenize_parts(),
        vec![
            LinePart::Key("course".to_string()),
            LinePart::Value("AB C D".to_string())
        ]
    );
    assert_eq!(
        line(0, "// something here", LineType::Comment).tokenize_parts(),
        vec![LinePart::Value("// something here".to_string())]
    );
    assert_eq!(
        line(0, "something here", LineType::Unknown).tokenize_parts(),
        vec![LinePart::Value("something here".to_string())]
    );
}

#[test]
fn test_line_starts_with_key() {
    assert!(line_starts_with_key("course hey there", "course"));
    assert!(line_starts_with_key("course", "course"));
    assert!(line_starts_with_key("course ", "course"));
    assert!(line_starts_with_key("course\n", "course"));
    assert!(!line_starts_with_key("coursea", "course"));
    assert!(!line_starts_with_key("course$", "course"));
    assert!(!line_starts_with_key("cour", "course"));
    assert!(!line_starts_with_key("cour", "course"));
}

#[test]
fn parser_test_line_starts_with_key() {
    assert!(line_starts_with_key("course hey there", "course"));
    assert!(line_starts_with_key("course", "course"));
    assert!(line_starts_with_key("course ", "course"));
    assert!(line_starts_with_key("course\n", "course"));
    assert!(!line_starts_with_key("coursea", "course"));
    assert!(!line_starts_with_key("course$", "course"));
    assert!(!line_starts_with_key("cour", "course"));
    assert!(!line_starts_with_key("cour", "course"));
}

#[test]
fn test_can_tokenize_basic_lines() {
    let text = "course Programmation 1
code PRG1
goal Apprendre des bases solides du C++";
    assert_eq!(
        tokenize_into_lines(&ValidDYSpec::new(testing_course_spec()).unwrap(), text),
        vec![
            line(0, "course Programmation 1", with_key("course")),
            line(1, "code PRG1", with_key("code")),
            line(2, "goal Apprendre des bases solides du C++", with_key("goal")),
        ]
    );
}

#[test]
fn parser_test_can_tokenize_basic_lines() {
    let text = "course Programmation 1
code PRG1
goal Apprendre des bases solides du C++";
    assert_eq!(
        tokenize_into_lines(&ValidDYSpec::new(testing_course_spec()).unwrap(), text),
        vec![
            line(0, "course Programmation 1", with_key("course")),
            line(1, "code PRG1", with_key("code")),
            line(2, "goal Apprendre des bases solides du C++", with_key("goal")),
        ]
    );
}

#[test]
fn test_can_tokenize_comments_and_empty() {
    let text = "// just a comment
course Programmation 1
code PRG1
// another comment
goal Apprendre des bases solides du C++

// yet another one
 // not a comment
";
    assert_eq!(
        tokenize_into_lines(&ValidDYSpec::new(testing_course_spec()).unwrap(), text),
        vec![
            line(0, "// just a comment", LineType::Comment),
            line(1, "course Programmation 1", with_key("course")),
            line(2, "code PRG1", with_key("code")),
            line(3, "// another comment", LineType::Comment),
            line(4, "goal Apprendre des bases solides du C++", with_key("goal")),
            line(5, "", LineType::Unknown),
            line(6, "// yet another one", LineType::Comment),
            line(7, " // not a comment", LineType::Unknown),
        ]
    );
}

#[test]
fn parser_test_can_tokenize_comments_and_empty() {
    let text = "// just a comment
course Programmation 1
code PRG1
// another comment
goal Apprendre des bases solides du C++

// yet another one
";
    assert_eq!(
        tokenize_into_lines(&ValidDYSpec::new(testing_course_spec()).unwrap(), text),
        vec![
            line(0, "// just a comment", LineType::Comment),
            line(1, "course Programmation 1", with_key("course")),
            line(2, "code PRG1", with_key("code")),
            line(3, "// another comment", LineType::Comment),
            line(4, "goal Apprendre des bases solides du C++", with_key("goal")),
            line(5, "", LineType::Unknown),
            line(6, "// yet another one", LineType::Comment),
        ]
    );
}

#[test]
fn test_can_tokenize_lines_with_invalid_keys_and_empty_lines() {
    let text = "courseo Programmation 1
codehey
goalApprendre slaut

blabla";
    let binding = ValidDYSpec::new(testing_course_spec()).unwrap();
    let lines = tokenize_into_lines(&binding, text);
    assert_eq!(lines.len(), 5);
    assert!(lines.iter().all(|l| l.lt == LineType::Unknown));
}

#[test]
fn parser_test_can_tokenize_lines_with_invalid_keys_and_empty_lines() {
    let text = "courseo Programmation 1
codehey
goalApprendre slaut

blabla";
    let binding = ValidDYSpec::new(testing_course_spec()).unwrap();
    let lines = tokenize_into_lines(&binding, text);
    assert_eq!(lines.len(), 5);
    assert!(lines.iter().all(|l| l.lt == LineType::Unknown));
}

#[test]
fn test_can_tokenize_and_ignore_anything_inside_code_blocks() {
    let text = "
// hey there
exo hey there
some instruction
~~~rust
// super function
// ?????
fn main() {
    // hey yooo
}

// ignored prefix
exo hey
see something
~~~
// ignored

```
// super css
h1{
color:blue; // included
}
/* included */
```
// ignored again!
";
    let binding = ValidDYSpec::new(testing_exos_spec()).unwrap();
    let lines = tokenize_into_lines(&binding, text);
    assert_eq!(
        lines,
        vec![
            line(0, "", LineType::Unknown),
            line(1, "// hey there", LineType::Comment),
            line(2, "exo hey there", with_key("exo")),
            line(3, "some instruction", LineType::Unknown),
            line(4, "~~~rust", LineType::Unknown),
            line(5, "// super function", LineType::Unknown),
            line(6, "// ?????", LineType::Unknown),
            line(7, "fn main() {", LineType::Unknown),
            line(8, "    // hey yooo", LineType::Unknown),
            line(9, "}", LineType::Unknown),
            line(10, "", LineType::Unknown),
            line(11, "// ignored prefix", LineType::Unknown),
            line(12, "exo hey", LineType::Unknown),
            line(13, "see something", LineType::Unknown),
            line(14, "~~~", LineType::Unknown),
            line(15, "// ignored", LineType::Comment),
            line(16, "", LineType::Unknown),
            line(17, "```", LineType::Unknown),
            line(18, "// super css", LineType::Unknown),
            line(19, "h1{", LineType::Unknown),
            line(20, "color:blue; // included", LineType::Unknown),
            line(21, "}", LineType::Unknown),
            line(22, "/* included */", LineType::Unknown),
            line(23, "```", LineType::Unknown),
            line(24, "// ignored again!", LineType::Comment),
        ]
    );
}

#[test]
fn test_tokenizing_twice_gives_identical_lines() {
    let text = "course Programmation 1
~~~
code inert
~~~
code PRG1
// comment
goal something";
    let binding = ValidDYSpec::new(testing_course_spec()).unwrap();
    let first = tokenize_into_lines(&binding, text);
    let second = tokenize_into_lines(&binding, text);
    assert_eq!(first, second);
}
