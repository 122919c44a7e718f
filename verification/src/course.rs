//! The DY specification for a course file and the mapping of a parsed block
//! into a course record.

use vstd::prelude::*;
use vstd::string::StrSliceExecFns;
use crate::{FromDYBlock, ParseResult, parse_with_spec};
use crate::dyspec::{KeySpec, KeySpecM, ValidDYSpec, ValueType, key_ids, keys_view, key_view,
    lemma_keys_view, tree_ids, ids_unique};
use crate::error::{ErrM, ParseError};
use crate::parser::tokenization;
use crate::semantic::{Block, BlockM, block_view, blocks_view, built, keys_depth,
    lemma_blocks_view, wf_block, blocks_wf};
use crate::text::{joined_nl, str_eq, trimmed};

verus! {

/// A course: a name, a code and the learning goals.
#[derive(Debug, PartialEq, Eq)]
pub struct DYCourse {
    pub name: String,
    pub instruction: String,
    pub code: String,
    pub goal: String,
}

/// The value of the last `code` child: its text joined and trimmed.
pub open spec fn course_code(subs: Seq<BlockM>) -> Seq<char>
    decreases subs.len(),
{
    if subs.len() == 0 {
        Seq::empty()
    } else if subs.last().key.id == "code"@ {
        trimmed(joined_nl(subs.last().text))
    } else {
        course_code(subs.drop_last())
    }
}

/// The value of the last `goal` child: its text joined, kept as written.
pub open spec fn course_goal(subs: Seq<BlockM>) -> Seq<char>
    decreases subs.len(),
{
    if subs.len() == 0 {
        Seq::empty()
    } else if subs.last().key.id == "goal"@ {
        joined_nl(subs.last().text)
    } else {
        course_goal(subs.drop_last())
    }
}

impl FromDYBlock for DYCourse {
    /// Mapping a course block reports no value-level diagnostics.
    open spec fn errors_model(b: BlockM) -> Seq<ErrM> {
        Seq::empty()
    }

    open spec fn entity_ok(b: BlockM, e: Self) -> bool {
        &&& e.name@ == trimmed(joined_nl(b.text))
        &&& e.instruction@ == Seq::<char>::empty()
        &&& e.code@ == course_code(b.subblocks)
        &&& e.goal@ == course_goal(b.subblocks)
    }

    fn from_block_with_validation(block: &Block) -> (r: (Vec<ParseError>, Self)) {
        let ghost subs = blocks_view(block.subblocks@);
        proof {
            lemma_blocks_view(block.subblocks@);
        }
        let name = block.get_joined_text();
        let mut code = String::new();
        let mut goal = String::new();
        let mut i: usize = 0;
        proof {
            assert(subs.take(0).len() == 0);
            assert(course_code(subs.take(0)) == Seq::<char>::empty());
            assert(course_goal(subs.take(0)) == Seq::<char>::empty());
        }
        while i < block.subblocks.len()
            invariant
                0 <= i <= block.subblocks@.len(),
                subs == blocks_view(block.subblocks@),
                subs.len() == block.subblocks@.len(),
                forall|m: int|
                    0 <= m < subs.len() ==> subs[m] == block_view(block.subblocks@[m]),
                code@ == course_code(subs.take(i as int)),
                goal@ == course_goal(subs.take(i as int)),
            decreases block.subblocks@.len() - i,
        {
            let sb = &block.subblocks[i];
            proof {
                assert(subs.take(i as int + 1).drop_last() =~= subs.take(i as int));
                assert(subs.take(i as int + 1).last() == subs[i as int]);
            }
            if str_eq(sb.key.id.as_str(), "code") {
                code = sb.get_joined_text();
            }
            if str_eq(sb.key.id.as_str(), "goal") {
                goal = crate::text::join_with_newlines(&sb.text);
            }
            proof {
                assert(code@ == course_code(subs.take(i as int + 1)));
                assert(goal@ == course_goal(subs.take(i as int + 1)));
            }
            i = i + 1;
        }
        proof {
            assert(subs.take(subs.len() as int) =~= subs);
        }
        let instruction = String::new();
        let errors: Vec<ParseError> = Vec::new();
        proof {
            assert(crate::error::errs_view(errors@) =~= Seq::<ErrM>::empty());
        }
        (errors, DYCourse { name, instruction, code, goal })
    }
}

/// The model of the course specification: one `course` key with `code` and
/// `goal` under it.
pub open spec fn course_spec_m() -> Seq<KeySpecM> {
    seq![
        KeySpecM {
            id: "course"@,
            desc: "A course groups skills and exos related to a common set of learning goals."@,
            subkeys: seq![
                KeySpecM {
                    id: "code"@,
                    desc: "The code of the course is a shorter name of the course."@,
                    subkeys: Seq::empty(),
                    vt: ValueType::SingleLine,
                    once: true,
                    required: true,
                },
                KeySpecM {
                    id: "goal"@,
                    desc: "The goal key describes the learning goals of this course."@,
                    subkeys: Seq::empty(),
                    vt: ValueType::Multiline,
                    once: true,
                    required: true,
                },
            ],
            vt: ValueType::SingleLine,
            once: true,
            required: true,
        },
    ]
}

/// Build the course specification tree.
pub fn course_spec() -> (r: Vec<KeySpec>)
    ensures
        keys_view(r@) == course_spec_m(),
{
    let code = KeySpec {
        id: "code".to_owned(),
        desc: "The code of the course is a shorter name of the course.".to_owned(),
        subkeys: Vec::new(),
        vt: ValueType::SingleLine,
        once: true,
        required: true,
    };
    let goal = KeySpec {
        id: "goal".to_owned(),
        desc: "The goal key describes the learning goals of this course.".to_owned(),
        subkeys: Vec::new(),
        vt: ValueType::Multiline,
        once: true,
        required: true,
    };
    let mut subkeys: Vec<KeySpec> = Vec::new();
    let ghost codev = key_view(code);
    let ghost goalv = key_view(goal);
    subkeys.push(code);
    subkeys.push(goal);
    proof {
        lemma_keys_view(subkeys@);
        assert(keys_view(subkeys@) =~= seq![codev, goalv]);
        assert(keys_view(Seq::<KeySpec>::empty()) =~= Seq::<KeySpecM>::empty());
    }
    let course = KeySpec {
        id: "course".to_owned(),
        desc: "A course groups skills and exos related to a common set of learning goals."
            .to_owned(),
        subkeys,
        vt: ValueType::SingleLine,
        once: true,
        required: true,
    };
    let ghost coursev = key_view(course);
    let mut spec: Vec<KeySpec> = Vec::new();
    spec.push(course);
    proof {
        lemma_keys_view(spec@);
        assert(keys_view(spec@) =~= seq![coursev]);
        assert(keys_view(spec@) =~= course_spec_m());
    }
    spec
}

/// The course specification is valid: its identifiers are distinct and its
/// nesting is shallow.
pub proof fn lemma_course_spec_valid()
    ensures
        ids_unique(course_spec_m()),
        keys_depth(course_spec_m()) <= 256,
        course_spec_m().len() > 0,
{
    let sm = course_spec_m();
    let course = sm[0];
    let code = course.subkeys[0];
    let goal = course.subkeys[1];
    reveal_strlit("course");
    reveal_strlit("code");
    reveal_strlit("goal");
    let tail = course.subkeys.drop_first();
    assert(tail.len() == 1 && tail[0] == goal);
    assert(tail.drop_first().len() == 0);
    assert(tree_ids(tail.drop_first()) == Seq::<Seq<char>>::empty());
    assert(tree_ids(goal.subkeys) == Seq::<Seq<char>>::empty());
    assert(tree_ids(code.subkeys) == Seq::<Seq<char>>::empty());
    assert(key_ids(goal) =~= seq!["goal"@]);
    assert(key_ids(code) =~= seq!["code"@]);
    assert(tree_ids(tail) == key_ids(tail[0]) + tree_ids(tail.drop_first()));
    assert(tree_ids(tail) =~= seq!["goal"@]);
    assert(tree_ids(course.subkeys) == key_ids(code) + tree_ids(tail));
    assert(tree_ids(course.subkeys) =~= seq!["code"@, "goal"@]);
    assert(key_ids(course) =~= seq!["course"@, "code"@, "goal"@]);
    assert(sm.drop_first().len() == 0);
    assert(tree_ids(sm.drop_first()) == Seq::<Seq<char>>::empty());
    assert(tree_ids(sm) == key_ids(course) + tree_ids(sm.drop_first()));
    assert(tree_ids(sm) =~= seq!["course"@, "code"@, "goal"@]);
    assert("course"@.len() == 6 && "code"@.len() == 4 && "goal"@.len() == 4);
    assert("code"@[0] == 'c' && "goal"@[0] == 'g');
    assert(tree_ids(sm).no_duplicates());
    assert(keys_depth(code.subkeys) == 0);
    assert(keys_depth(goal.subkeys) == 0);
    assert(keys_depth(tail.drop_first()) == 0);
    assert(keys_depth(tail) == 1);
    assert(keys_depth(course.subkeys) == 1);
    assert(keys_depth(sm.drop_first()) == 0);
    assert(keys_depth(sm) == 2);
}

/// Parse a course document: at most one `course` block with its `code` and
/// `goal`, mapped to a `DYCourse` record.
pub fn parse_course(some_file: &Option<String>, content: &str) -> (r: ParseResult<DYCourse>)
    requires
        content@.len() <= u32::MAX,
    ensures
        ({
            let b = built(tokenization(course_spec_m(), content@), course_spec_m());
            &&& r.items@.len() == b.0.len()
            &&& (forall|i: int|
                0 <= i < b.0.len() ==> DYCourse::entity_ok(b.0[i], #[trigger] r.items@[i]))
            &&& crate::error::errs_view(r.errors@) == crate::semantic::sort_errs(
                b.1 + crate::mapped_errs::<DYCourse>(b.0),
            )
            &&& r.some_file_path == *some_file
            &&& (crate::error::errs_view(r.errors@).len() == 0 ==> r.some_file_content is None)
            &&& (crate::error::errs_view(r.errors@).len() > 0 ==> (r.some_file_content
                matches Some(c) && c@ == content@))
        }),
{
    let sp = course_spec();
    proof {
        lemma_course_spec_valid();
    }
    match ValidDYSpec::new(sp) {
        Ok(valid) => parse_with_spec::<DYCourse>(&valid, some_file, content),
        Err(_) => {
            proof {
                assert(false);
            }
            ParseResult {
                items: Vec::new(),
                errors: Vec::new(),
                some_file_path: None,
                some_file_content: None,
            }
        },
    }
}

} // verus!
