//! The DY specification for an exercise file and the mapping of a parsed
//! block into an exercise with its automated checks.

use vstd::prelude::*;
use vstd::string::StrSliceExecFns;
use crate::{FromDYBlock, ParseResult, parse_with_spec, range_on_line_part};
use crate::dyspec::{KeySpec, KeySpecM, ValidDYSpec, ValueType, key_ids, keys_view, key_view,
    lemma_keys_view, tree_ids, ids_unique, str_views};
use crate::error::{ErrM, ErrTypeM, ParseError, ParseErrorType, errs_view, err_view, rng_part};
use crate::parser::tokenization;
use crate::semantic::{Block, BlockM, block_view, blocks_view, blocks_wf, built, keys_depth,
    lemma_blocks_view, lemma_blocks_wf_iff, wf_block, sort_errs};
use crate::text::{joined_nl, parse_i32_str, parsed_i32, space_split, split_on_spaces, str_eq,
    trimmed};

verus! {

/// An action of a check's terminal session: expect some output, or type a
/// line of input.
#[derive(Debug, PartialEq, Eq)]
pub enum TermAction {
    /// Make sure the given text appears in the program's output.
    See(String),
    /// Inject the given text, plus a newline, into the program's input.
    Type(String),
}

/// One automated check of an exercise.
#[derive(Debug, PartialEq, Eq)]
pub struct Check {
    pub name: String,
    /// The arguments passed to the exo program, split on spaces.
    pub args: Vec<String>,
    /// The expected exit code of the exo program, if one was given.
    pub exit: Option<i32>,
    /// The scripted terminal session.
    pub sequence: Vec<TermAction>,
}

/// An exercise: a name, an instruction text and its checks.
#[derive(Debug, PartialEq, Eq)]
pub struct DYExo {
    pub name: String,
    pub instruction: String,
    pub checks: Vec<Check>,
}

/// Model of an action.
pub ghost enum ActM {
    See(Seq<char>),
    Type(Seq<char>),
}

/// Model of a `TermAction` value.
pub open spec fn act_view(a: TermAction) -> ActM {
    match a {
        TermAction::See(s) => ActM::See(s@),
        TermAction::Type(s) => ActM::Type(s@),
    }
}

/// Model of one check.
pub ghost struct CheckM {
    pub name: Seq<char>,
    pub args: Seq<Seq<char>>,
    pub exit: Option<i32>,
    pub sequence: Seq<ActM>,
}

/// Model of a `Check` value.
pub open spec fn check_view(c: Check) -> CheckM {
    CheckM {
        name: c.name@,
        args: str_views(c.args@),
        exit: c.exit,
        sequence: c.sequence@.map_values(|a: TermAction| act_view(a)),
    }
}

/// Model of a `DYExo` value.
pub ghost struct ExoM {
    pub name: Seq<char>,
    pub instruction: Seq<char>,
    pub checks: Seq<CheckM>,
}

pub open spec fn exo_view(e: DYExo) -> ExoM {
    ExoM {
        name: e.name@,
        instruction: e.instruction@,
        checks: e.checks@.map_values(|c: Check| check_view(c)),
    }
}

/// A block's whole text, joined and trimmed.
pub open spec fn block_text_joined(b: BlockM) -> Seq<char> {
    trimmed(joined_nl(b.text))
}

/// The arguments of a check: the space-split value of the last `args` child
/// whose value is not empty, or none at all.
pub open spec fn check_args(subs: Seq<BlockM>) -> Seq<Seq<char>>
    decreases subs.len(),
{
    if subs.len() == 0 {
        Seq::empty()
    } else if subs.last().key.id == "args"@ && block_text_joined(subs.last()).len() > 0 {
        space_split(block_text_joined(subs.last()))
    } else {
        check_args(subs.drop_last())
    }
}

/// The expected exit code: what parsing the last `exit` child yields.
pub open spec fn check_exit(subs: Seq<BlockM>) -> Option<i32>
    decreases subs.len(),
{
    if subs.len() == 0 {
        None
    } else if subs.last().key.id == "exit"@ {
        parsed_i32(block_text_joined(subs.last()))
    } else {
        check_exit(subs.drop_last())
    }
}

/// The scripted session: one action per `type` or `see` child, in order.
pub open spec fn check_seq(subs: Seq<BlockM>) -> Seq<ActM>
    decreases subs.len(),
{
    if subs.len() == 0 {
        Seq::empty()
    } else {
        let own = if subs[0].key.id == "type"@ {
            seq![ActM::Type(block_text_joined(subs[0]))]
        } else if subs[0].key.id == "see"@ {
            seq![ActM::See(block_text_joined(subs[0]))]
        } else {
            Seq::<ActM>::empty()
        };
        own + check_seq(subs.drop_first())
    }
}

/// The message of an exit code that cannot be parsed.
pub open spec fn exit_code_msg() -> Seq<char> {
    "Couldn't parse the given value as the program's exit code (signed 32bits integer)"@
}

/// The diagnostic for an `args` key with no value.
pub open spec fn args_missing_err(sub: BlockM) -> ErrM {
    ErrM {
        range: rng_part(sub.range.start_line, "args"@.len() as int, "args"@.len() as int),
        some_file: None,
        error: ErrTypeM::MissingRequiredValue("args"@),
    }
}

/// The diagnostic for an `exit` value that is no 32-bit integer, pointing at
/// the value after the key.
pub open spec fn exit_invalid_err(sub: BlockM) -> ErrM {
    ErrM {
        range: rng_part(
            sub.range.start_line,
            sub.range.start_char + "exit"@.len() as int + 1,
            sub.range.end_char,
        ),
        some_file: None,
        error: ErrTypeM::ValidationError(exit_code_msg()),
    }
}

/// The diagnostics of one check's children, in order: empty `args` values
/// and unparsable `exit` values.
pub open spec fn check_errs(subs: Seq<BlockM>) -> Seq<ErrM>
    decreases subs.len(),
{
    if subs.len() == 0 {
        Seq::empty()
    } else {
        let own = if subs[0].key.id == "args"@ {
            if block_text_joined(subs[0]).len() == 0 {
                seq![args_missing_err(subs[0])]
            } else {
                Seq::<ErrM>::empty()
            }
        } else if subs[0].key.id == "exit"@ {
            if parsed_i32(block_text_joined(subs[0])) is None {
                seq![exit_invalid_err(subs[0])]
            } else {
                Seq::<ErrM>::empty()
            }
        } else {
            Seq::<ErrM>::empty()
        };
        own + check_errs(subs.drop_first())
    }
}

/// The diagnostics among a list that report a value failing a key-specific
/// check.
pub open spec fn validation_errs(es: Seq<ErrM>) -> Seq<ErrM>
    decreases es.len(),
{
    if es.len() == 0 {
        Seq::empty()
    } else {
        let own = if es[0].error is ValidationError {
            seq![es[0]]
        } else {
            Seq::<ErrM>::empty()
        };
        own + validation_errs(es.drop_first())
    }
}

proof fn lemma_validation_errs_concat(a: Seq<ErrM>, b: Seq<ErrM>)
    ensures
        validation_errs(a + b) == validation_errs(a) + validation_errs(b),
    decreases a.len(),
{
    if a.len() == 0 {
        assert(a + b =~= b);
        assert(validation_errs(a) == Seq::<ErrM>::empty());
        assert(validation_errs(a) + validation_errs(b) =~= validation_errs(b));
    } else {
        assert((a + b)[0] == a[0]);
        assert((a + b).drop_first() =~= a.drop_first() + b);
        lemma_validation_errs_concat(a.drop_first(), b);
        let own = if a[0].error is ValidationError {
            seq![a[0]]
        } else {
            Seq::<ErrM>::empty()
        };
        assert(validation_errs(a + b) == own + (validation_errs(a.drop_first())
            + validation_errs(b)));
        assert(own + (validation_errs(a.drop_first()) + validation_errs(b)) =~= (own
            + validation_errs(a.drop_first())) + validation_errs(b));
    }
}

/// Children without an `exit` key never report a value-parse failure.
proof fn lemma_check_errs_no_exit(subs: Seq<BlockM>)
    requires
        forall|m: int| 0 <= m < subs.len() ==> (#[trigger] subs[m]).key.id != "exit"@,
    ensures
        validation_errs(check_errs(subs)) == Seq::<ErrM>::empty(),
    decreases subs.len(),
{
    if subs.len() > 0 {
        let t = subs.drop_first();
        assert(forall|m: int| 0 <= m < t.len() ==> t[m] == subs[m + 1]);
        lemma_check_errs_no_exit(t);
        let own = if subs[0].key.id == "args"@ {
            if block_text_joined(subs[0]).len() == 0 {
                seq![args_missing_err(subs[0])]
            } else {
                Seq::<ErrM>::empty()
            }
        } else if subs[0].key.id == "exit"@ {
            if parsed_i32(block_text_joined(subs[0])) is None {
                seq![exit_invalid_err(subs[0])]
            } else {
                Seq::<ErrM>::empty()
            }
        } else {
            Seq::<ErrM>::empty()
        };
        assert(check_errs(subs) == own + check_errs(t));
        lemma_validation_errs_concat(own, check_errs(t));
        assert(validation_errs(own) == Seq::<ErrM>::empty()) by {
            if own.len() > 0 {
                assert(own[0] == args_missing_err(subs[0]));
                assert(own.drop_first().len() == 0);
                assert(validation_errs(own.drop_first()) == Seq::<ErrM>::empty());
                assert(validation_errs(own) =~= Seq::<ErrM>::empty());
            }
        }
        assert(validation_errs(check_errs(subs)) =~= Seq::<ErrM>::empty());
    }
}

proof fn lemma_check_exit_single(subs: Seq<BlockM>, m: int)
    requires
        0 <= m < subs.len(),
        subs[m].key.id == "exit"@,
        forall|m2: int|
            0 <= m2 < subs.len() && m2 != m ==> (#[trigger] subs[m2]).key.id != "exit"@,
    ensures
        check_exit(subs) == parsed_i32(block_text_joined(subs[m])),
    decreases subs.len(),
{
    if m == subs.len() - 1 {
        assert(subs.last() == subs[m]);
    } else {
        assert(subs.last().key.id != "exit"@);
        let t = subs.drop_last();
        assert(forall|m2: int| 0 <= m2 < t.len() ==> t[m2] == subs[m2]);
        lemma_check_exit_single(t, m);
    }
}

proof fn lemma_check_errs_single_exit(subs: Seq<BlockM>, m: int)
    requires
        0 <= m < subs.len(),
        subs[m].key.id == "exit"@,
        forall|m2: int|
            0 <= m2 < subs.len() && m2 != m ==> (#[trigger] subs[m2]).key.id != "exit"@,
    ensures
        validation_errs(check_errs(subs)) == (if parsed_i32(block_text_joined(subs[m])) is None {
            seq![exit_invalid_err(subs[m])]
        } else {
            Seq::<ErrM>::empty()
        }),
    decreases subs.len(),
{
    let t = subs.drop_first();
    assert(forall|m2: int| 0 <= m2 < t.len() ==> t[m2] == subs[m2 + 1]);
    let own = if subs[0].key.id == "args"@ {
        if block_text_joined(subs[0]).len() == 0 {
            seq![args_missing_err(subs[0])]
        } else {
            Seq::<ErrM>::empty()
        }
    } else if subs[0].key.id == "exit"@ {
        if parsed_i32(block_text_joined(subs[0])) is None {
            seq![exit_invalid_err(subs[0])]
        } else {
            Seq::<ErrM>::empty()
        }
    } else {
        Seq::<ErrM>::empty()
    };
    assert(check_errs(subs) == own + check_errs(t));
    lemma_validation_errs_concat(own, check_errs(t));
    let expected = if parsed_i32(block_text_joined(subs[m])) is None {
        seq![exit_invalid_err(subs[m])]
    } else {
        Seq::<ErrM>::empty()
    };
    if m == 0 {
        reveal_strlit("args");
        reveal_strlit("exit");
        assert("args"@[0] == 'a' && "exit"@[0] == 'e');
        assert("args"@ != "exit"@);
        lemma_check_errs_no_exit(t);
        assert(validation_errs(own) == expected) by {
            if own.len() > 0 {
                assert(own[0] == exit_invalid_err(subs[0]));
                assert(own[0].error is ValidationError);
                assert(own.drop_first().len() == 0);
                assert(validation_errs(own.drop_first()) == Seq::<ErrM>::empty());
                assert(validation_errs(own) =~= seq![exit_invalid_err(subs[0])]);
            }
        }
        assert(validation_errs(check_errs(subs)) =~= expected);
    } else {
        assert(subs[0].key.id != "exit"@);
        lemma_check_errs_single_exit(t, m - 1);
        assert(t[m - 1] == subs[m]);
        assert(validation_errs(own) == Seq::<ErrM>::empty()) by {
            if own.len() > 0 {
                assert(own[0] == args_missing_err(subs[0]));
                assert(own.drop_first().len() == 0);
                assert(validation_errs(own.drop_first()) == Seq::<ErrM>::empty());
                assert(validation_errs(own) =~= Seq::<ErrM>::empty());
            }
        }
        assert(validation_errs(check_errs(subs)) =~= expected);
    }
}

/// The exit-code rule, of a check whose children hold exactly one `exit`
/// key: the recorded exit code is `Some(v)` exactly when the exit value
/// parses as a 32-bit integer `v`; otherwise it stays `None` and exactly one
/// value diagnostic is produced, spanning the value after the key on the
/// exit block's line.
pub proof fn lemma_exit_code_law(subs: Seq<BlockM>, m: int)
    requires
        0 <= m < subs.len(),
        subs[m].key.id == "exit"@,
        forall|m2: int|
            0 <= m2 < subs.len() && m2 != m ==> (#[trigger] subs[m2]).key.id != "exit"@,
    ensures
        check_exit(subs) == parsed_i32(block_text_joined(subs[m])),
        check_exit(subs) is Some ==> validation_errs(check_errs(subs)) == Seq::<ErrM>::empty(),
        check_exit(subs) is None ==> validation_errs(check_errs(subs)) == seq![
            exit_invalid_err(subs[m]),
        ],
{
    lemma_check_exit_single(subs, m);
    lemma_check_errs_single_exit(subs, m);
}

/// The check a block describes.
pub open spec fn check_of(cb: BlockM) -> CheckM {
    CheckM {
        name: block_text_joined(cb),
        args: check_args(cb.subblocks),
        exit: check_exit(cb.subblocks),
        sequence: check_seq(cb.subblocks),
    }
}

/// The checks of the `check` children, in order.
pub open spec fn exo_checks(subs: Seq<BlockM>) -> Seq<CheckM>
    decreases subs.len(),
{
    if subs.len() == 0 {
        Seq::empty()
    } else {
        let own = if subs[0].key.id == "check"@ {
            seq![check_of(subs[0])]
        } else {
            Seq::<CheckM>::empty()
        };
        own + exo_checks(subs.drop_first())
    }
}

/// The diagnostics of all checks, in order.
pub open spec fn exo_errs(subs: Seq<BlockM>) -> Seq<ErrM>
    decreases subs.len(),
{
    if subs.len() == 0 {
        Seq::empty()
    } else {
        let own = if subs[0].key.id == "check"@ {
            check_errs(subs[0].subblocks)
        } else {
            Seq::<ErrM>::empty()
        };
        own + exo_errs(subs.drop_first())
    }
}

/// Unfolding the front-recursive folds at a one-longer prefix.
proof fn lemma_front_take(subs: Seq<BlockM>, i: int)
    requires
        0 <= i < subs.len(),
    ensures
        check_seq(subs.take(i + 1)) == check_seq(subs.take(i)) + (if subs[i].key.id == "type"@ {
            seq![ActM::Type(block_text_joined(subs[i]))]
        } else if subs[i].key.id == "see"@ {
            seq![ActM::See(block_text_joined(subs[i]))]
        } else {
            Seq::<ActM>::empty()
        }),
        check_errs(subs.take(i + 1)) == check_errs(subs.take(i)) + (if subs[i].key.id
            == "args"@ {
            if block_text_joined(subs[i]).len() == 0 {
                seq![args_missing_err(subs[i])]
            } else {
                Seq::<ErrM>::empty()
            }
        } else if subs[i].key.id == "exit"@ {
            if parsed_i32(block_text_joined(subs[i])) is None {
                seq![exit_invalid_err(subs[i])]
            } else {
                Seq::<ErrM>::empty()
            }
        } else {
            Seq::<ErrM>::empty()
        }),
        exo_checks(subs.take(i + 1)) == exo_checks(subs.take(i)) + (if subs[i].key.id
            == "check"@ {
            seq![check_of(subs[i])]
        } else {
            Seq::<CheckM>::empty()
        }),
        exo_errs(subs.take(i + 1)) == exo_errs(subs.take(i)) + (if subs[i].key.id == "check"@ {
            check_errs(subs[i].subblocks)
        } else {
            Seq::<ErrM>::empty()
        }),
    decreases i,
{
    if i == 0 {
        let t = subs.take(1);
        assert(t[0] == subs[0]);
        assert(t.drop_first() =~= subs.take(0));
        assert(subs.take(0).len() == 0);
        assert(check_seq(subs.take(0)) == Seq::<ActM>::empty());
        assert(check_errs(subs.take(0)) == Seq::<ErrM>::empty());
        assert(exo_checks(subs.take(0)) == Seq::<CheckM>::empty());
        assert(exo_errs(subs.take(0)) == Seq::<ErrM>::empty());
        assert(check_seq(t) =~= check_seq(subs.take(0)) + (if subs[0].key.id == "type"@ {
            seq![ActM::Type(block_text_joined(subs[0]))]
        } else if subs[0].key.id == "see"@ {
            seq![ActM::See(block_text_joined(subs[0]))]
        } else {
            Seq::<ActM>::empty()
        }));
        assert(check_errs(t) =~= check_errs(subs.take(0)) + (if subs[0].key.id == "args"@ {
            if block_text_joined(subs[0]).len() == 0 {
                seq![args_missing_err(subs[0])]
            } else {
                Seq::<ErrM>::empty()
            }
        } else if subs[0].key.id == "exit"@ {
            if parsed_i32(block_text_joined(subs[0])) is None {
                seq![exit_invalid_err(subs[0])]
            } else {
                Seq::<ErrM>::empty()
            }
        } else {
            Seq::<ErrM>::empty()
        }));
        assert(exo_checks(t) =~= exo_checks(subs.take(0)) + (if subs[0].key.id == "check"@ {
            seq![check_of(subs[0])]
        } else {
            Seq::<CheckM>::empty()
        }));
        assert(exo_errs(t) =~= exo_errs(subs.take(0)) + (if subs[0].key.id == "check"@ {
            check_errs(subs[0].subblocks)
        } else {
            Seq::<ErrM>::empty()
        }));
    } else {
        lemma_front_take(subs.drop_first(), i - 1);
        let a = subs.take(i + 1);
        let b = subs.take(i);
        assert(a[0] == subs[0] && b[0] == subs[0]);
        assert(a.drop_first() =~= subs.drop_first().take(i));
        assert(b.drop_first() =~= subs.drop_first().take(i - 1));
        assert(subs.drop_first()[i - 1] == subs[i]);
        assert(check_seq(a) =~= check_seq(b) + (if subs[i].key.id == "type"@ {
            seq![ActM::Type(block_text_joined(subs[i]))]
        } else if subs[i].key.id == "see"@ {
            seq![ActM::See(block_text_joined(subs[i]))]
        } else {
            Seq::<ActM>::empty()
        }));
        assert(check_errs(a) =~= check_errs(b) + (if subs[i].key.id == "args"@ {
            if block_text_joined(subs[i]).len() == 0 {
                seq![args_missing_err(subs[i])]
            } else {
                Seq::<ErrM>::empty()
            }
        } else if subs[i].key.id == "exit"@ {
            if parsed_i32(block_text_joined(subs[i])) is None {
                seq![exit_invalid_err(subs[i])]
            } else {
                Seq::<ErrM>::empty()
            }
        } else {
            Seq::<ErrM>::empty()
        }));
        assert(exo_checks(a) =~= exo_checks(b) + (if subs[i].key.id == "check"@ {
            seq![check_of(subs[i])]
        } else {
            Seq::<CheckM>::empty()
        }));
        assert(exo_errs(a) =~= exo_errs(b) + (if subs[i].key.id == "check"@ {
            check_errs(subs[i].subblocks)
        } else {
            Seq::<ErrM>::empty()
        }));
    }
}

/// Split an argument string on spaces; an empty string has no arguments.
pub fn split_args_string(line: &str) -> (r: Vec<String>)
    ensures
        str_views(r@) == (if line@.len() == 0 {
            Seq::<Seq<char>>::empty()
        } else {
            space_split(line@)
        }),
{
    if line.unicode_len() == 0 {
        let r: Vec<String> = Vec::new();
        proof {
            assert(str_views(r@) =~= Seq::<Seq<char>>::empty());
        }
        r
    } else {
        split_on_spaces(line)
    }
}

/// Build one check from its block: the name from the block's own text, then
/// its children set the arguments, the exit code and the session.
fn check_build(cb: &Block) -> (r: (Vec<ParseError>, Check))
    requires
        wf_block(block_view(*cb)),
    ensures
        errs_view(r.0@) == check_errs(blocks_view(cb.subblocks@)),
        check_view(r.1) == check_of(block_view(*cb)),
{
    let ghost subs = blocks_view(cb.subblocks@);
    proof {
        lemma_blocks_view(cb.subblocks@);
        lemma_blocks_wf_iff(subs);
        assert(blocks_wf(block_view(*cb).subblocks));
    }
    let name = cb.get_joined_text();
    let mut errors: Vec<ParseError> = Vec::new();
    let mut args: Vec<String> = Vec::new();
    let mut exit: Option<i32> = None;
    let mut sequence: Vec<TermAction> = Vec::new();
    let mut i: usize = 0;
    proof {
        assert(subs.take(0).len() == 0);
        assert(errs_view(errors@) =~= Seq::<ErrM>::empty());
        assert(str_views(args@) =~= Seq::<Seq<char>>::empty());
        assert(sequence@.map_values(|x: TermAction| act_view(x)) =~= Seq::<ActM>::empty());
    }
    while i < cb.subblocks.len()
        invariant
            0 <= i <= cb.subblocks@.len(),
            subs == blocks_view(cb.subblocks@),
            subs.len() == cb.subblocks@.len(),
            forall|m: int| 0 <= m < subs.len() ==> subs[m] == block_view(cb.subblocks@[m]),
            forall|m: int| 0 <= m < subs.len() ==> wf_block(#[trigger] subs[m]),
            str_views(args@) == check_args(subs.take(i as int)),
            exit == check_exit(subs.take(i as int)),
            sequence@.map_values(|x: TermAction| act_view(x)) == check_seq(subs.take(i as int)),
            errs_view(errors@) == check_errs(subs.take(i as int)),
        decreases cb.subblocks@.len() - i,
    {
        let ghost pre = subs.take(i as int);
        let ghost post = subs.take(i as int + 1);
        proof {
            assert(post.drop_last() =~= pre);
            assert(post.last() == subs[i as int]);
            lemma_front_take(subs, i as int);
            reveal_strlit("args");
            reveal_strlit("exit");
            reveal_strlit("type");
            reveal_strlit("see");
            assert("args"@.len() == 4 && "exit"@.len() == 4 && "type"@.len() == 4 && "see"@.len()
                == 3);
            assert("args"@[0] == 'a' && "exit"@[0] == 'e' && "type"@[0] == 't');
            assert("args"@ != "exit"@ && "args"@ != "type"@ && "args"@ != "see"@);
            assert("exit"@ != "type"@ && "exit"@ != "see"@ && "type"@ != "see"@);
        }
        let sb = &cb.subblocks[i];
        let joined = sb.get_joined_text();
        if str_eq(sb.key.id.as_str(), "args") {
            if joined.as_str().unicode_len() == 0 {
                let idlen = "args".unicode_len();
                proof {
                    reveal_strlit("args");
                    assert("args"@.len() == 4);
                }
                let e = ParseError {
                    range: range_on_line_part(sb.range.start.line, idlen as u32, idlen as u32),
                    some_file: None,
                    error: ParseErrorType::MissingRequiredValue("args".to_owned()),
                };
                let ghost preve = errors@;
                errors.push(e);
                proof {
                    assert(errors@ =~= preve.push(e));
                    assert(errs_view(errors@) =~= errs_view(preve).push(err_view(e)));
                    assert(err_view(e) == args_missing_err(subs[i as int]));
                }
            } else {
                args = split_args_string(joined.as_str());
                proof {
                    assert(str_views(args@) == space_split(block_text_joined(subs[i as int])));
                }
            }
        } else if str_eq(sb.key.id.as_str(), "exit") {
            exit = None;
            match parse_i32_str(joined.as_str()) {
                Some(code) => {
                    exit = Some(code);
                },
                None => {
                    let idlen = "exit".unicode_len();
                    let start_c = sb.range.start.character;
                    proof {
                        reveal_strlit("exit");
                        assert("exit"@.len() == 4);
                        assert(start_c == 0);
                    }
                    let e = ParseError {
                        range: range_on_line_part(
                            sb.range.start.line,
                            start_c + idlen as u32 + 1,
                            sb.range.end.character,
                        ),
                        some_file: None,
                        error: ParseErrorType::ValidationError(
                            "Couldn't parse the given value as the program's exit code (signed 32bits integer)".to_owned(),
                        ),
                    };
                    let ghost preve = errors@;
                    errors.push(e);
                    proof {
                        assert(errors@ =~= preve.push(e));
                        assert(errs_view(errors@) =~= errs_view(preve).push(err_view(e)));
                        assert(err_view(e) == exit_invalid_err(subs[i as int]));
                    }
                },
            }
        } else if str_eq(sb.key.id.as_str(), "type") {
            let ghost prevsq = sequence@;
            sequence.push(TermAction::Type(joined));
            proof {
                assert(sequence@ =~= prevsq.push(TermAction::Type(joined)));
                assert(sequence@.map_values(|x: TermAction| act_view(x)) =~= prevsq.map_values(
                    |x: TermAction| act_view(x),
                ).push(ActM::Type(joined@)));
            }
        } else if str_eq(sb.key.id.as_str(), "see") {
            let ghost prevsq = sequence@;
            sequence.push(TermAction::See(joined));
            proof {
                assert(sequence@ =~= prevsq.push(TermAction::See(joined)));
                assert(sequence@.map_values(|x: TermAction| act_view(x)) =~= prevsq.map_values(
                    |x: TermAction| act_view(x),
                ).push(ActM::See(joined@)));
            }
        }
        proof {
            assert(str_views(args@) =~= check_args(post));
            assert(exit == check_exit(post));
            assert(sequence@.map_values(|x: TermAction| act_view(x)) =~= check_seq(post));
            assert(errs_view(errors@) =~= check_errs(post));
        }
        i = i + 1;
    }
    proof {
        assert(subs.take(subs.len() as int) =~= subs);
        assert(block_view(*cb).subblocks == subs);
    }
    (errors, Check { name, args, exit, sequence })
}

impl FromDYBlock for DYExo {
    open spec fn errors_model(b: BlockM) -> Seq<ErrM> {
        exo_errs(b.subblocks)
    }

    open spec fn entity_ok(b: BlockM, e: Self) -> bool {
        exo_view(e) == (ExoM {
            name: trimmed(joined_nl(b.text.take(1))),
            instruction: trimmed(joined_nl(b.text.skip(1))),
            checks: exo_checks(b.subblocks),
        })
    }

    fn from_block_with_validation(block: &Block) -> (r: (Vec<ParseError>, Self)) {
        let ghost bm = block_view(*block);
        let ghost subs = blocks_view(block.subblocks@);
        proof {
            lemma_blocks_view(block.subblocks@);
            lemma_blocks_wf_iff(subs);
            assert(blocks_wf(bm.subblocks));
            assert(bm.text.len() >= 1);
        }
        let (name, instruction) = block.get_text_with_joined_splits_at(1);
        let mut errors: Vec<ParseError> = Vec::new();
        let mut checks: Vec<Check> = Vec::new();
        let mut i: usize = 0;
        proof {
            assert(subs.take(0).len() == 0);
            assert(errs_view(errors@) =~= Seq::<ErrM>::empty());
            assert(checks@.map_values(|c: Check| check_view(c)) =~= Seq::<CheckM>::empty());
        }
        while i < block.subblocks.len()
            invariant
                0 <= i <= block.subblocks@.len(),
                subs == blocks_view(block.subblocks@),
                subs.len() == block.subblocks@.len(),
                forall|m: int|
                    0 <= m < subs.len() ==> subs[m] == block_view(block.subblocks@[m]),
                forall|m: int| 0 <= m < subs.len() ==> wf_block(#[trigger] subs[m]),
                checks@.map_values(|c: Check| check_view(c)) == exo_checks(subs.take(i as int)),
                errs_view(errors@) == exo_errs(subs.take(i as int)),
            decreases block.subblocks@.len() - i,
        {
            let ghost pre = subs.take(i as int);
            let ghost post = subs.take(i as int + 1);
            proof {
                assert(post.drop_last() =~= pre);
                assert(post.last() == subs[i as int]);
                lemma_front_take(subs, i as int);
            }
            let sb = &block.subblocks[i];
            if str_eq(sb.key.id.as_str(), "check") {
                let (cerrs, check) = check_build(sb);
                let ghost prevck = checks@;
                let ghost checkv = check_view(check);
                checks.push(check);
                let mut ce = cerrs;
                let ghost ce_m = errs_view(ce@);
                let ghost preve = errs_view(errors@);
                errors.append(&mut ce);
                proof {
                    assert(errs_view(errors@) =~= preve + ce_m);
                    assert(checks@ =~= prevck.push(checks@.last()));
                    assert(checks@.map_values(|c: Check| check_view(c)) =~= prevck.map_values(
                        |c: Check| check_view(c),
                    ).push(checkv));
                    assert(checkv == check_of(subs[i as int]));
                    assert(ce_m == check_errs(subs[i as int].subblocks));
                }
            }
            proof {
                assert(checks@.map_values(|c: Check| check_view(c)) =~= exo_checks(post));
                assert(errs_view(errors@) =~= exo_errs(post));
            }
            i = i + 1;
        }
        proof {
            assert(subs.take(subs.len() as int) =~= subs);
            assert(bm.subblocks == subs);
            assert(bm.text == str_views(block.text@));
        }
        (errors, DYExo { name, instruction, checks })
    }
}

/// The model of the exo specification: one `exo` key with `check` under it,
/// and `args`, `see`, `type`, `exit` under a check.
pub open spec fn exo_spec_m() -> Seq<KeySpecM> {
    seq![
        KeySpecM {
            id: "exo"@,
            desc: "Define a new exercise with a name and optional instruction."@,
            subkeys: seq![
                KeySpecM {
                    id: "check"@,
                    desc: "Describe a check, which is a basic automated test."@,
                    subkeys: seq![
                        KeySpecM {
                            id: "args"@,
                            desc: "The command line arguments passed to the exo program."@,
                            subkeys: Seq::empty(),
                            vt: ValueType::SingleLine,
                            once: true,
                            required: false,
                        },
                        KeySpecM {
                            id: "see"@,
                            desc: "Assert that the standard output contains the given text."@,
                            subkeys: Seq::empty(),
                            vt: ValueType::Multiline,
                            once: false,
                            required: true,
                        },
                        KeySpecM {
                            id: "type"@,
                            desc: "Simulate typing the given text and hitting enter."@,
                            subkeys: Seq::empty(),
                            vt: ValueType::SingleLine,
                            once: false,
                            required: false,
                        },
                        KeySpecM {
                            id: "exit"@,
                            desc: "Assert the value of the exit code."@,
                            subkeys: Seq::empty(),
                            vt: ValueType::SingleLine,
                            once: true,
                            required: false,
                        },
                    ],
                    vt: ValueType::SingleLine,
                    once: false,
                    required: true,
                },
            ],
            vt: ValueType::Multiline,
            once: true,
            required: true,
        },
    ]
}

/// Build the exo specification tree.
pub fn exo_spec() -> (r: Vec<KeySpec>)
    ensures
        keys_view(r@) == exo_spec_m(),
{
    let args = KeySpec {
        id: "args".to_owned(),
        desc: "The command line arguments passed to the exo program.".to_owned(),
        subkeys: Vec::new(),
        vt: ValueType::SingleLine,
        once: true,
        required: false,
    };
    let see = KeySpec {
        id: "see".to_owned(),
        desc: "Assert that the standard output contains the given text.".to_owned(),
        subkeys: Vec::new(),
        vt: ValueType::Multiline,
        once: false,
        required: true,
    };
    let ty = KeySpec {
        id: "type".to_owned(),
        desc: "Simulate typing the given text and hitting enter.".to_owned(),
        subkeys: Vec::new(),
        vt: ValueType::SingleLine,
        once: false,
        required: false,
    };
    let exit = KeySpec {
        id: "exit".to_owned(),
        desc: "Assert the value of the exit code.".to_owned(),
        subkeys: Vec::new(),
        vt: ValueType::SingleLine,
        once: true,
        required: false,
    };
    let ghost argsv = key_view(args);
    let ghost seev = key_view(see);
    let ghost tyv = key_view(ty);
    let ghost exitv = key_view(exit);
    let mut check_subs: Vec<KeySpec> = Vec::new();
    check_subs.push(args);
    check_subs.push(see);
    check_subs.push(ty);
    check_subs.push(exit);
    proof {
        lemma_keys_view(check_subs@);
        assert(keys_view(check_subs@) =~= seq![argsv, seev, tyv, exitv]);
        assert(keys_view(Seq::<KeySpec>::empty()) =~= Seq::<KeySpecM>::empty());
    }
    let check = KeySpec {
        id: "check".to_owned(),
        desc: "Describe a check, which is a basic automated test.".to_owned(),
        subkeys: check_subs,
        vt: ValueType::SingleLine,
        once: false,
        required: true,
    };
    let ghost checkv = key_view(check);
    let mut exo_subs: Vec<KeySpec> = Vec::new();
    exo_subs.push(check);
    proof {
        lemma_keys_view(exo_subs@);
        assert(keys_view(exo_subs@) =~= seq![checkv]);
    }
    let exo = KeySpec {
        id: "exo".to_owned(),
        desc: "Define a new exercise with a name and optional instruction.".to_owned(),
        subkeys: exo_subs,
        vt: ValueType::Multiline,
        once: true,
        required: true,
    };
    let ghost exov = key_view(exo);
    let mut spec: Vec<KeySpec> = Vec::new();
    spec.push(exo);
    proof {
        lemma_keys_view(spec@);
        assert(keys_view(spec@) =~= seq![exov]);
        assert(keys_view(spec@) =~= exo_spec_m());
    }
    spec
}

/// The exo specification is valid.
pub proof fn lemma_exo_spec_valid()
    ensures
        ids_unique(exo_spec_m()),
        keys_depth(exo_spec_m()) <= 256,
        exo_spec_m().len() > 0,
{
    let sm = exo_spec_m();
    let exo = sm[0];
    let check = exo.subkeys[0];
    let args = check.subkeys[0];
    let see = check.subkeys[1];
    let ty = check.subkeys[2];
    let exit = check.subkeys[3];
    reveal_strlit("exo");
    reveal_strlit("check");
    reveal_strlit("args");
    reveal_strlit("see");
    reveal_strlit("type");
    reveal_strlit("exit");
    let t1 = check.subkeys.drop_first();
    let t2 = t1.drop_first();
    let t3 = t2.drop_first();
    let t4 = t3.drop_first();
    assert(t1.len() == 3 && t1[0] == see);
    assert(t2.len() == 2 && t2[0] == ty);
    assert(t3.len() == 1 && t3[0] == exit);
    assert(t4.len() == 0);
    assert(tree_ids(t4) == Seq::<Seq<char>>::empty());
    assert(tree_ids(args.subkeys) == Seq::<Seq<char>>::empty());
    assert(tree_ids(see.subkeys) == Seq::<Seq<char>>::empty());
    assert(tree_ids(ty.subkeys) == Seq::<Seq<char>>::empty());
    assert(tree_ids(exit.subkeys) == Seq::<Seq<char>>::empty());
    assert(key_ids(args) =~= seq!["args"@]);
    assert(key_ids(see) =~= seq!["see"@]);
    assert(key_ids(ty) =~= seq!["type"@]);
    assert(key_ids(exit) =~= seq!["exit"@]);
    assert(tree_ids(t3) == key_ids(exit) + tree_ids(t4));
    assert(tree_ids(t3) =~= seq!["exit"@]);
    assert(tree_ids(t2) == key_ids(ty) + tree_ids(t3));
    assert(tree_ids(t2) =~= seq!["type"@, "exit"@]);
    assert(tree_ids(t1) == key_ids(see) + tree_ids(t2));
    assert(tree_ids(t1) =~= seq!["see"@, "type"@, "exit"@]);
    assert(tree_ids(check.subkeys) == key_ids(args) + tree_ids(t1));
    assert(tree_ids(check.subkeys) =~= seq!["args"@, "see"@, "type"@, "exit"@]);
    assert(key_ids(check) =~= seq!["check"@, "args"@, "see"@, "type"@, "exit"@]);
    let e1 = exo.subkeys.drop_first();
    assert(e1.len() == 0);
    assert(tree_ids(e1) == Seq::<Seq<char>>::empty());
    assert(tree_ids(exo.subkeys) == key_ids(check) + tree_ids(e1));
    assert(tree_ids(exo.subkeys) =~= seq!["check"@, "args"@, "see"@, "type"@, "exit"@]);
    assert(key_ids(exo) =~= seq!["exo"@, "check"@, "args"@, "see"@, "type"@, "exit"@]);
    assert(sm.drop_first().len() == 0);
    assert(tree_ids(sm.drop_first()) == Seq::<Seq<char>>::empty());
    assert(tree_ids(sm) == key_ids(exo) + tree_ids(sm.drop_first()));
    assert(tree_ids(sm) =~= seq!["exo"@, "check"@, "args"@, "see"@, "type"@, "exit"@]);
    assert("exo"@.len() == 3 && "check"@.len() == 5 && "args"@.len() == 4 && "see"@.len() == 3
        && "type"@.len() == 4 && "exit"@.len() == 4);
    assert("exo"@[0] == 'e' && "see"@[0] == 's');
    assert("args"@[0] == 'a' && "type"@[0] == 't' && "exit"@[0] == 'e');
    assert("args"@[1] == 'r' && "type"@[1] == 'y' && "exit"@[1] == 'x');
    assert(tree_ids(sm).no_duplicates());
    assert(keys_depth(args.subkeys) == 0);
    assert(keys_depth(see.subkeys) == 0);
    assert(keys_depth(ty.subkeys) == 0);
    assert(keys_depth(exit.subkeys) == 0);
    assert(keys_depth(t4) == 0);
    assert(keys_depth(t3) == 1);
    assert(keys_depth(t2) == 1);
    assert(keys_depth(t1) == 1);
    assert(keys_depth(check.subkeys) == 1);
    assert(keys_depth(e1) == 0);
    assert(keys_depth(exo.subkeys) == 2);
    assert(keys_depth(sm.drop_first()) == 0);
    assert(keys_depth(sm) == 3);
}

/// Parse an exo document: at most one `exo` block with its checks, mapped to
/// a `DYExo` record.
pub fn parse_exos(some_file: &Option<String>, content: &str) -> (r: ParseResult<DYExo>)
    requires
        content@.len() <= u32::MAX,
    ensures
        ({
            let b = built(tokenization(exo_spec_m(), content@), exo_spec_m());
            &&& r.items@.len() == b.0.len()
            &&& (forall|i: int|
                0 <= i < b.0.len() ==> DYExo::entity_ok(b.0[i], #[trigger] r.items@[i]))
            &&& errs_view(r.errors@) == sort_errs(b.1 + crate::mapped_errs::<DYExo>(b.0))
            &&& r.some_file_path == *some_file
            &&& (errs_view(r.errors@).len() == 0 ==> r.some_file_content is None)
            &&& (errs_view(r.errors@).len() > 0 ==> (r.some_file_content matches Some(c) && c@
                == content@))
        }),
{
    let sp = exo_spec();
    proof {
        lemma_exo_spec_valid();
    }
    match ValidDYSpec::new(sp) {
        Ok(valid) => parse_with_spec::<DYExo>(&valid, some_file, content),
        Err(_) => {
            proof {
                assert(false);
            }
            ParseResult {
                items: Vec::new(),
                errors: Vec::new(),
                some_file_path: None,
                some_file_content: None,
            }
        },
    }
}

} // verus!
