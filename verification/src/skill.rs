//! The DY specification for a skills file and the recursive mapping of a
//! parsed block into a skill record with its subskills.

use vstd::prelude::*;
use vstd::string::StrSliceExecFns;
use crate::{FromDYBlock, ParseResult, parse_with_spec, range_on_line_part};
use crate::dyspec::{KeySpec, KeySpecM, ValidDYSpec, ValueType, key_ids, keys_view, key_view,
    lemma_keys_view, tree_ids, ids_unique, str_views};
use crate::error::{ErrM, ErrTypeM, ParseError, ParseErrorType, errs_view, err_view, rng_part};
use crate::parser::tokenization;
use crate::semantic::{Block, BlockM, block_view, blocks_view, blocks_wf, built, keys_depth,
    lemma_blocks_view, lemma_blocks_wf_iff, wf_block, sort_errs};
use crate::text::{joined_nl, str_eq, trimmed};

verus! {

/// A skill: a name, a free-form description, the directory holding its
/// exercises, and nested subskills.
#[derive(Debug, PartialEq, Eq)]
pub struct DYSkill {
    pub name: String,
    pub description: String,
    /// The directory where the exercises of this skill are stored.
    pub directory: String,
    pub subskills: Vec<DYSkill>,
}

/// Model of one skill.
pub ghost struct SkillM {
    pub name: Seq<char>,
    pub description: Seq<char>,
    pub directory: Seq<char>,
    pub subskills: Seq<SkillM>,
}

/// Model of a `DYSkill` value.
pub open spec fn skill_view(e: DYSkill) -> SkillM
    decreases e,
{
    SkillM {
        name: e.name@,
        description: e.description@,
        directory: e.directory@,
        subskills: skills_view(e.subskills@),
    }
}

/// Models of a list of skills.
pub open spec fn skills_view(es: Seq<DYSkill>) -> Seq<SkillM>
    decreases es,
{
    if es.len() == 0 {
        Seq::empty()
    } else {
        skills_view(es.drop_last()).push(skill_view(es.last()))
    }
}

pub proof fn lemma_skills_view(es: Seq<DYSkill>)
    ensures
        skills_view(es).len() == es.len(),
        forall|i: int| 0 <= i < es.len() ==> skills_view(es)[i] == skill_view(es[i]),
    decreases es.len(),
{
    if es.len() > 0 {
        lemma_skills_view(es.drop_last());
    }
}

/// The value of the last `dir` child: its text joined and trimmed.
pub open spec fn skill_dir(subs: Seq<BlockM>) -> Seq<char>
    decreases subs.len(),
{
    if subs.len() == 0 {
        Seq::empty()
    } else if subs.last().key.id == "dir"@ {
        trimmed(joined_nl(subs.last().text))
    } else {
        skill_dir(subs.drop_last())
    }
}

/// The skill a block describes: first text line is the name, the rest the
/// description, with the directory and the subskills from the children.
pub open spec fn skill_of(b: BlockM) -> SkillM
    decreases b, 1int,
{
    SkillM {
        name: trimmed(joined_nl(b.text.take(1))),
        description: trimmed(joined_nl(b.text.skip(1))),
        directory: skill_dir(b.subblocks),
        subskills: skills_of(b.subblocks),
    }
}

/// The skills of the `subskill` children, in order.
pub open spec fn skills_of(subs: Seq<BlockM>) -> Seq<SkillM>
    decreases subs, 0int,
{
    if subs.len() == 0 {
        Seq::empty()
    } else {
        let rest = skills_of(subs.drop_first());
        if subs[0].key.id == "subskill"@ {
            seq![skill_of(subs[0])] + rest
        } else {
            rest
        }
    }
}

/// The diagnostic for a `subskill` with no value at all.
pub open spec fn subskill_missing_err(sub: BlockM) -> ErrM {
    ErrM {
        range: rng_part(sub.range.start_line, "subskill"@.len() as int, "subskill"@.len() as int),
        some_file: None,
        error: ErrTypeM::MissingRequiredValue("subskill"@),
    }
}

/// The diagnostics of mapping a skill block: an empty `subskill` is a
/// missing required value, and subskills are validated recursively.
pub open spec fn skill_errs(b: BlockM) -> Seq<ErrM>
    decreases b, 1int,
{
    skill_errs_list(b.subblocks)
}

pub open spec fn skill_errs_list(subs: Seq<BlockM>) -> Seq<ErrM>
    decreases subs, 0int,
{
    if subs.len() == 0 {
        Seq::empty()
    } else {
        let own = if subs[0].key.id == "subskill"@ {
            (if trimmed(joined_nl(subs[0].text)).len() == 0 {
                seq![subskill_missing_err(subs[0])]
            } else {
                Seq::<ErrM>::empty()
            }) + skill_errs(subs[0])
        } else {
            Seq::<ErrM>::empty()
        };
        own + skill_errs_list(subs.drop_first())
    }
}

/// Build a skill from its block, reporting empty subskills, and recursing
/// into the subskill blocks.
fn skill_build(block: &Block) -> (r: (Vec<ParseError>, DYSkill))
    requires
        wf_block(block_view(*block)),
    ensures
        errs_view(r.0@) == skill_errs(block_view(*block)),
        skill_view(r.1) == skill_of(block_view(*block)),
    decreases block,
{
    let ghost bm = block_view(*block);
    let ghost subs = blocks_view(block.subblocks@);
    proof {
        lemma_blocks_view(block.subblocks@);
        lemma_blocks_wf_iff(subs);
        assert(blocks_wf(bm.subblocks));
        assert(bm.text.len() >= 1);
    }
    let (name, description) = block.get_text_with_joined_splits_at(1);
    let mut errors: Vec<ParseError> = Vec::new();
    let mut directory = String::new();
    let mut subskills: Vec<DYSkill> = Vec::new();
    let mut i: usize = 0;
    proof {
        assert(subs.take(0).len() == 0);
        assert(skill_dir(subs.take(0)) == Seq::<char>::empty());
        assert(errs_view(errors@) =~= Seq::<ErrM>::empty());
        assert(skills_view(subskills@) =~= Seq::<SkillM>::empty());
    }
    while i < block.subblocks.len()
        invariant
            0 <= i <= block.subblocks@.len(),
            subs == blocks_view(block.subblocks@),
            subs == bm.subblocks,
            bm == block_view(*block),
            subs.len() == block.subblocks@.len(),
            forall|m: int| 0 <= m < subs.len() ==> subs[m] == block_view(block.subblocks@[m]),
            forall|m: int| 0 <= m < subs.len() ==> wf_block(#[trigger] subs[m]),
            directory@ == skill_dir(subs.take(i as int)),
            errs_view(errors@) == skill_errs_list(subs.take(i as int)),
            skills_view(subskills@) == skills_of(subs.take(i as int)),
        decreases block.subblocks@.len() - i,
    {
        let ghost pre = subs.take(i as int);
        let ghost post = subs.take(i as int + 1);
        proof {
            assert(post.drop_last() =~= pre);
            assert(post.last() == subs[i as int]);
            // skill_errs_list and skills_of recurse from the front, so relate
            // the one-longer prefix by the generic take lemma below.
            lemma_skill_list_take(subs, i as int);
        }
        let sb = &block.subblocks[i];
        if str_eq(sb.key.id.as_str(), "dir") {
            directory = sb.get_joined_text();
        }
        if str_eq(sb.key.id.as_str(), "subskill") {
            let joined = sb.get_joined_text();
            if joined.as_str().unicode_len() == 0 {
                let idlen = "subskill".unicode_len();
                proof {
                    reveal_strlit("subskill");
                    assert("subskill"@.len() == 8);
                }
                let e = ParseError {
                    range: range_on_line_part(sb.range.start.line, idlen as u32, idlen as u32),
                    some_file: None,
                    error: ParseErrorType::MissingRequiredValue("subskill".to_owned()),
                };
                let ghost preve = errors@;
                errors.push(e);
                proof {
                    assert(errors@ =~= preve.push(e));
                    assert(errs_view(errors@) =~= errs_view(preve).push(err_view(e)));
                    assert(err_view(e) == subskill_missing_err(subs[i as int]));
                }
            }
            let (suberrs, subentity) = skill_build(sb);
            let ghost prevsk = subskills@;
            let ghost subev = skill_view(subentity);
            subskills.push(subentity);
            let mut se = suberrs;
            let ghost se_m = errs_view(se@);
            let ghost preve2 = errs_view(errors@);
            errors.append(&mut se);
            proof {
                assert(errs_view(errors@) =~= preve2 + se_m);
                assert(subskills@.drop_last() =~= prevsk);
                assert(subskills@.last() == subentity);
                assert(skills_view(subskills@) == skills_view(subskills@.drop_last()).push(
                    skill_view(subskills@.last()),
                ));
                assert(skills_view(subskills@) == skills_view(prevsk).push(subev));
                assert(subev == skill_of(subs[i as int]));
            }
        }
        proof {
            assert(directory@ == skill_dir(post));
            assert(errs_view(errors@) =~= skill_errs_list(post));
            assert(skills_view(subskills@) =~= skills_of(post));
        }
        i = i + 1;
    }
    proof {
        assert(subs.take(subs.len() as int) =~= subs);
        assert(bm.text == str_views(block.text@));
    }
    (errors, DYSkill { name, description, directory, subskills })
}

/// Unfolding the front-recursive folds at a prefix: one more sibling adds
/// its own contribution at the end.
proof fn lemma_skill_list_take(subs: Seq<BlockM>, i: int)
    requires
        0 <= i < subs.len(),
    ensures
        skill_errs_list(subs.take(i + 1)) == skill_errs_list(subs.take(i)) + (if subs[i].key.id
            == "subskill"@ {
            (if trimmed(joined_nl(subs[i].text)).len() == 0 {
                seq![subskill_missing_err(subs[i])]
            } else {
                Seq::<ErrM>::empty()
            }) + skill_errs(subs[i])
        } else {
            Seq::<ErrM>::empty()
        }),
        skills_of(subs.take(i + 1)) == skills_of(subs.take(i)) + (if subs[i].key.id
            == "subskill"@ {
            seq![skill_of(subs[i])]
        } else {
            Seq::<SkillM>::empty()
        }),
    decreases i,
{
    if i == 0 {
        let t = subs.take(1);
        assert(t[0] == subs[0]);
        assert(t.drop_first() =~= subs.take(0));
        assert(subs.take(0).len() == 0);
        assert(skill_errs_list(subs.take(0)) == Seq::<ErrM>::empty());
        assert(skills_of(subs.take(0)) == Seq::<SkillM>::empty());
        assert(skill_errs_list(t) =~= skill_errs_list(subs.take(0)) + (if subs[0].key.id
            == "subskill"@ {
            (if trimmed(joined_nl(subs[0].text)).len() == 0 {
                seq![subskill_missing_err(subs[0])]
            } else {
                Seq::<ErrM>::empty()
            }) + skill_errs(subs[0])
        } else {
            Seq::<ErrM>::empty()
        }));
        assert(skills_of(t) =~= skills_of(subs.take(0)) + (if subs[0].key.id == "subskill"@ {
            seq![skill_of(subs[0])]
        } else {
            Seq::<SkillM>::empty()
        }));
    } else {
        lemma_skill_list_take(subs.drop_first(), i - 1);
        let a = subs.take(i + 1);
        let b = subs.take(i);
        assert(a[0] == subs[0] && b[0] == subs[0]);
        assert(a.drop_first() =~= subs.drop_first().take(i));
        assert(b.drop_first() =~= subs.drop_first().take(i - 1));
        assert(subs.drop_first()[i - 1] == subs[i]);
        let own0e = if subs[0].key.id == "subskill"@ {
            (if trimmed(joined_nl(subs[0].text)).len() == 0 {
                seq![subskill_missing_err(subs[0])]
            } else {
                Seq::<ErrM>::empty()
            }) + skill_errs(subs[0])
        } else {
            Seq::<ErrM>::empty()
        };
        let ownie = if subs[i].key.id == "subskill"@ {
            (if trimmed(joined_nl(subs[i].text)).len() == 0 {
                seq![subskill_missing_err(subs[i])]
            } else {
                Seq::<ErrM>::empty()
            }) + skill_errs(subs[i])
        } else {
            Seq::<ErrM>::empty()
        };
        assert(skill_errs_list(a) == own0e + skill_errs_list(subs.drop_first().take(i)));
        assert(skill_errs_list(b) == own0e + skill_errs_list(subs.drop_first().take(i - 1)));
        assert(own0e + (skill_errs_list(subs.drop_first().take(i - 1)) + ownie) =~= (own0e
            + skill_errs_list(subs.drop_first().take(i - 1))) + ownie);
        let own0s = if subs[0].key.id == "subskill"@ {
            seq![skill_of(subs[0])]
        } else {
            Seq::<SkillM>::empty()
        };
        let ownis = if subs[i].key.id == "subskill"@ {
            seq![skill_of(subs[i])]
        } else {
            Seq::<SkillM>::empty()
        };
        assert(skills_of(a) == own0s + skills_of(subs.drop_first().take(i)));
        assert(skills_of(b) == own0s + skills_of(subs.drop_first().take(i - 1)));
        assert(own0s + (skills_of(subs.drop_first().take(i - 1)) + ownis) =~= (own0s + skills_of(
            subs.drop_first().take(i - 1),
        )) + ownis);
    }
}

impl FromDYBlock for DYSkill {
    open spec fn errors_model(b: BlockM) -> Seq<ErrM> {
        skill_errs(b)
    }

    open spec fn entity_ok(b: BlockM, e: Self) -> bool {
        skill_view(e) == skill_of(b)
    }

    fn from_block_with_validation(block: &Block) -> (r: (Vec<ParseError>, Self)) {
        skill_build(block)
    }
}

/// The model of the skills specification: any number of `skill` keys, each
/// with `subskill` and `dir` under it.
pub open spec fn skills_spec_m() -> Seq<KeySpecM> {
    seq![
        KeySpecM {
            id: "skill"@,
            desc: "The skill describes what students are expected to be able to do."@,
            subkeys: seq![
                KeySpecM {
                    id: "subskill"@,
                    desc: "The subskill is the same as a skill but must be more specific."@,
                    subkeys: Seq::empty(),
                    vt: ValueType::Multiline,
                    once: false,
                    required: false,
                },
                KeySpecM {
                    id: "dir"@,
                    desc: "The directory where exos of this skill are stored."@,
                    subkeys: Seq::empty(),
                    vt: ValueType::SingleLine,
                    once: true,
                    required: true,
                },
            ],
            vt: ValueType::Multiline,
            once: false,
            required: true,
        },
    ]
}

/// Build the skills specification tree.
pub fn skills_spec() -> (r: Vec<KeySpec>)
    ensures
        keys_view(r@) == skills_spec_m(),
{
    let subskill = KeySpec {
        id: "subskill".to_owned(),
        desc: "The subskill is the same as a skill but must be more specific.".to_owned(),
        subkeys: Vec::new(),
        vt: ValueType::Multiline,
        once: false,
        required: false,
    };
    let dir = KeySpec {
        id: "dir".to_owned(),
        desc: "The directory where exos of this skill are stored.".to_owned(),
        subkeys: Vec::new(),
        vt: ValueType::SingleLine,
        once: true,
        required: true,
    };
    let ghost subskillv = key_view(subskill);
    let ghost dirv = key_view(dir);
    let mut subkeys: Vec<KeySpec> = Vec::new();
    subkeys.push(subskill);
    subkeys.push(dir);
    proof {
        lemma_keys_view(subkeys@);
        assert(keys_view(subkeys@) =~= seq![subskillv, dirv]);
        assert(keys_view(Seq::<KeySpec>::empty()) =~= Seq::<KeySpecM>::empty());
    }
    let skill = KeySpec {
        id: "skill".to_owned(),
        desc: "The skill describes what students are expected to be able to do.".to_owned(),
        subkeys,
        vt: ValueType::Multiline,
        once: false,
        required: true,
    };
    let ghost skillv = key_view(skill);
    let mut spec: Vec<KeySpec> = Vec::new();
    spec.push(skill);
    proof {
        lemma_keys_view(spec@);
        assert(keys_view(spec@) =~= seq![skillv]);
        assert(keys_view(spec@) =~= skills_spec_m());
    }
    spec
}

/// The skills specification is valid.
pub proof fn lemma_skills_spec_valid()
    ensures
        ids_unique(skills_spec_m()),
        keys_depth(skills_spec_m()) <= 256,
        skills_spec_m().len() > 0,
{
    let sm = skills_spec_m();
    let skill = sm[0];
    let subskill = skill.subkeys[0];
    let dir = skill.subkeys[1];
    reveal_strlit("skill");
    reveal_strlit("subskill");
    reveal_strlit("dir");
    let tail = skill.subkeys.drop_first();
    assert(tail.len() == 1 && tail[0] == dir);
    assert(tail.drop_first().len() == 0);
    assert(tree_ids(tail.drop_first()) == Seq::<Seq<char>>::empty());
    assert(tree_ids(dir.subkeys) == Seq::<Seq<char>>::empty());
    assert(tree_ids(subskill.subkeys) == Seq::<Seq<char>>::empty());
    assert(key_ids(dir) =~= seq!["dir"@]);
    assert(key_ids(subskill) =~= seq!["subskill"@]);
    assert(tree_ids(tail) == key_ids(tail[0]) + tree_ids(tail.drop_first()));
    assert(tree_ids(tail) =~= seq!["dir"@]);
    assert(tree_ids(skill.subkeys) == key_ids(subskill) + tree_ids(tail));
    assert(tree_ids(skill.subkeys) =~= seq!["subskill"@, "dir"@]);
    assert(key_ids(skill) =~= seq!["skill"@, "subskill"@, "dir"@]);
    assert(sm.drop_first().len() == 0);
    assert(tree_ids(sm.drop_first()) == Seq::<Seq<char>>::empty());
    assert(tree_ids(sm) == key_ids(skill) + tree_ids(sm.drop_first()));
    assert(tree_ids(sm) =~= seq!["skill"@, "subskill"@, "dir"@]);
    assert("skill"@.len() == 5 && "subskill"@.len() == 8 && "dir"@.len() == 3);
    assert(tree_ids(sm).no_duplicates());
    assert(keys_depth(subskill.subkeys) == 0);
    assert(keys_depth(dir.subkeys) == 0);
    assert(keys_depth(tail.drop_first()) == 0);
    assert(keys_depth(tail) == 1);
    assert(keys_depth(skill.subkeys) == 1);
    assert(keys_depth(sm.drop_first()) == 0);
    assert(keys_depth(sm) == 2);
}

/// Parse a skills document: a list of `skill` blocks with their `dir` and
/// `subskill` children, mapped to `DYSkill` records.
pub fn parse_skills(some_file: &Option<String>, content: &str) -> (r: ParseResult<DYSkill>)
    requires
        content@.len() <= u32::MAX,
    ensures
        ({
            let b = built(tokenization(skills_spec_m(), content@), skills_spec_m());
            &&& r.items@.len() == b.0.len()
            &&& (forall|i: int|
                0 <= i < b.0.len() ==> DYSkill::entity_ok(b.0[i], #[trigger] r.items@[i]))
            &&& errs_view(r.errors@) == sort_errs(b.1 + crate::mapped_errs::<DYSkill>(b.0))
            &&& r.some_file_path == *some_file
            &&& (errs_view(r.errors@).len() == 0 ==> r.some_file_content is None)
            &&& (errs_view(r.errors@).len() > 0 ==> (r.some_file_content matches Some(c) && c@
                == content@))
        }),
{
    let sp = skills_spec();
    proof {
        lemma_skills_spec_valid();
    }
    match ValidDYSpec::new(sp) {
        Ok(valid) => parse_with_spec::<DYSkill>(&valid, some_file, content),
        Err(_) => {
            proof {
                assert(false);
            }
            ParseResult {
                items: Vec::new(),
                errors: Vec::new(),
                some_file_path: None,
                some_file_content: None,
            }
        },
    }
}

} // verus!
