//! The block-tree builder: semantic analysis that turns the classified line
//! sequence into a forest of blocks, a level-aware backtracking match against
//! the specification tree, with duplicate detection and error recovery.
//!
//! The whole algorithm is mirrored by spec-level functions (`run_level`,
//! `after_consume`, `build_level`, `dedup_from`, `sort_errs`) and the
//! executable builder is proved equal to them.

use vstd::prelude::*;
use vstd::string::StrSliceExecFns;
use vstd::string::StringExecFns;
use crate::TextRange;
use crate::dyspec::{KeySpec, KeySpecM, ValidDYSpec, ValueType, clone_key, key_view, keys_view,
    lemma_keys_view, str_views};
use crate::error::{ErrM, ErrTypeM, ParseError, ParseErrorType, RangeM, err_view, errs_view,
    rng_line_len};
use crate::parser::{Line, LineM, LineType, LtM, line_view, lines_view, tokenization};
use crate::text::{first_word_of, joined_nl, join_with_newlines, lemma_find_from_bounds,
    lemma_lines_of_bounds, lines_of, str_eq, trim_str, trimmed};

verus! {

/// A block is the instance of one key found in the text, with its textual
/// value and the blocks of its subkeys.
#[derive(Debug, PartialEq, Eq)]
pub struct Block {
    /// The key this block instantiates.
    pub key: KeySpec,
    /// The text of the block's value: the remainder of the key line first,
    /// then, for a multiline key, every folded non-blank trailing line.
    pub text: Vec<String>,
    /// The source range from the key line through the farthest folded
    /// trailing line or descendant block.
    pub range: TextRange,
    /// The blocks of nested subkeys.
    pub subblocks: Vec<Block>,
}

/// Model of one block.
pub ghost struct BlockM {
    pub key: KeySpecM,
    pub text: Seq<Seq<char>>,
    pub range: RangeM,
    pub subblocks: Seq<BlockM>,
}

/// Model of a `Block` value.
pub open spec fn block_view(b: Block) -> BlockM
    decreases b,
{
    BlockM {
        key: key_view(b.key),
        text: str_views(b.text@),
        range: crate::error::range_view(b.range),
        subblocks: blocks_view(b.subblocks@),
    }
}

/// Models of a list of blocks.
pub open spec fn blocks_view(bs: Seq<Block>) -> Seq<BlockM>
    decreases bs,
{
    if bs.len() == 0 {
        Seq::empty()
    } else {
        blocks_view(bs.drop_last()).push(block_view(bs.last()))
    }
}

pub proof fn lemma_blocks_view(bs: Seq<Block>)
    ensures
        blocks_view(bs).len() == bs.len(),
        forall|i: int| 0 <= i < bs.len() ==> blocks_view(bs)[i] == block_view(bs[i]),
    decreases bs.len(),
{
    if bs.len() > 0 {
        lemma_blocks_view(bs.drop_last());
    }
}

pub proof fn lemma_blocks_view_push(bs: Seq<Block>, b: Block)
    ensures
        blocks_view(bs.push(b)) == blocks_view(bs).push(block_view(b)),
{
    assert(bs.push(b).drop_last() =~= bs);
    assert(bs.push(b).last() == b);
}

/// Whether a line is entirely whitespace.
pub open spec fn blank(s: Seq<char>) -> bool {
    trimmed(s).len() == 0
}

/// The conditions under which the builder may run on a line sequence: the
/// coordinates fit the range type and key identifiers fit their lines.
pub open spec fn lines_ok(ls: Seq<LineM>) -> bool {
    forall|j: int|
        0 <= j < ls.len() ==> (#[trigger] ls[j].index <= u32::MAX as int && 0 <= ls[j].index
            && ls[j].slice.len() <= u32::MAX as int && (ls[j].lt matches LtM::WithKey(id)
            ==> id.len() <= ls[j].slice.len()))
}

/// The block opened for key `k` at line `l`: value is the trimmed remainder
/// of the key line; the range covers the key line.
pub open spec fn new_block(k: KeySpecM, l: LineM) -> BlockM {
    BlockM {
        key: k,
        text: seq![trimmed(l.slice.skip(k.id.len() as int))],
        range: rng_line_len(l.index, l.slice.len() as int),
        subblocks: Seq::empty(),
    }
}

/// Folding one more trailing line into a multiline block: the line's text is
/// appended and the range is extended to that line.
pub open spec fn fold_line(b: BlockM, l: LineM) -> BlockM {
    BlockM {
        text: b.text.push(l.slice),
        range: RangeM { end_line: l.index, end_char: l.slice.len() as int, ..b.range },
        ..b
    }
}

/// A block with its subblocks replaced; when there are any, the block's
/// range is extended through its farthest descendant.
pub open spec fn with_subblocks(b: BlockM, subs: Seq<BlockM>) -> BlockM {
    if subs.len() > 0 {
        BlockM {
            subblocks: subs,
            range: RangeM {
                end_line: subs.last().range.end_line,
                end_char: subs.last().range.end_char,
                ..b.range
            },
            ..b
        }
    } else {
        BlockM { subblocks: subs, ..b }
    }
}

/// The placeholder for the unresolved expected-parent hint.
pub open spec fn parent_placeholder() -> Seq<char> {
    "??"@
}

pub open spec fn err_wkp(id: Seq<char>, line: int) -> ErrM {
    ErrM {
        range: rng_line_len(line, id.len() as int),
        some_file: None,
        error: ErrTypeM::WrongKeyPosition(id, parent_placeholder()),
    }
}

pub open spec fn err_dup(id: Seq<char>, line: int, level: int) -> ErrM {
    ErrM {
        range: rng_line_len(line, id.len() as int),
        some_file: None,
        error: ErrTypeM::DuplicatedKey(id, level),
    }
}

pub open spec fn err_imc(id: Seq<char>, line: int, line_len: int) -> ErrM {
    ErrM {
        range: rng_line_len(line, line_len),
        some_file: None,
        error: ErrTypeM::InvalidMultilineContent(id),
    }
}

pub open spec fn err_cok(line: int, line_len: int) -> ErrM {
    ErrM {
        range: rng_line_len(line, line_len),
        some_file: None,
        error: ErrTypeM::ContentOutOfKey,
    }
}

/// First index of the key with this identifier, or -1.
pub open spec fn find_id(specs: Seq<KeySpecM>, id: Seq<char>) -> int
    decreases specs.len(),
{
    if specs.len() == 0 {
        -1
    } else if specs[0].id == id {
        0
    } else {
        let r = find_id(specs.drop_first(), id);
        if r < 0 {
            -1
        } else {
            1 + r
        }
    }
}

/// Whether some key in the list has this identifier.
pub open spec fn level_has_id(specs: Seq<KeySpecM>, id: Seq<char>) -> bool {
    find_id(specs, id) >= 0
}

pub proof fn lemma_find_id(specs: Seq<KeySpecM>, id: Seq<char>)
    ensures
        find_id(specs, id) >= 0 ==> 0 <= find_id(specs, id) < specs.len() && specs[find_id(
            specs,
            id,
        )].id == id && (forall|m: int| 0 <= m < find_id(specs, id) ==> specs[m].id != id),
        find_id(specs, id) < 0 ==> (forall|m: int| 0 <= m < specs.len() ==> specs[m].id != id),
    decreases specs.len(),
{
    if specs.len() > 0 && specs[0].id != id {
        lemma_find_id(specs.drop_first(), id);
        let t = specs.drop_first();
        assert(forall|m: int| 0 <= m < t.len() ==> t[m] == specs[m + 1]);
        let r = find_id(t, id);
        if r >= 0 {
            assert(find_id(specs, id) == 1 + r);
            assert(specs[1 + r].id == id);
            assert forall|m: int| 0 <= m < 1 + r implies specs[m].id != id by {
                if m > 0 {
                    assert(t[m - 1].id != id);
                }
            }
        } else {
            assert forall|m: int| 0 <= m < specs.len() implies specs[m].id != id by {
                if m > 0 {
                    assert(t[m - 1].id != id);
                }
            }
        }
    }
}

/// The nesting depth of a specification tree.
pub open spec fn keys_depth(ks: Seq<KeySpecM>) -> int
    decreases ks,
{
    if ks.len() == 0 {
        0
    } else {
        let d0 = 1 + keys_depth(ks[0].subkeys);
        let dr = keys_depth(ks.drop_first());
        if d0 > dr {
            d0
        } else {
            dr
        }
    }
}

pub proof fn lemma_keys_depth_nonneg(ks: Seq<KeySpecM>)
    ensures
        keys_depth(ks) >= 0,
        ks.len() > 0 ==> keys_depth(ks) >= 1,
    decreases ks,
{
    if ks.len() > 0 {
        lemma_keys_depth_nonneg(ks[0].subkeys);
        lemma_keys_depth_nonneg(ks.drop_first());
    }
}

pub proof fn lemma_keys_depth_sub(ks: Seq<KeySpecM>, j: int)
    requires
        0 <= j < ks.len(),
    ensures
        keys_depth(ks) >= 1 + keys_depth(ks[j].subkeys),
    decreases j,
{
    if j == 0 {
        lemma_keys_depth_nonneg(ks.drop_first());
    } else {
        lemma_keys_depth_sub(ks.drop_first(), j - 1);
        lemma_keys_depth_nonneg(ks[0].subkeys);
    }
}

/// One level of the builder, processing lines from `i` with the blocks and
/// errors collected so far; stops at the end of input or on a key that does
/// not belong to this level (consuming it, with an error, only at the root).
/// Returns the blocks, the errors, and the cursor where the level stopped.
pub open spec fn run_level(
    lines: Seq<LineM>,
    i: int,
    specs: Seq<KeySpecM>,
    level: int,
    acc: Seq<BlockM>,
    errs: Seq<ErrM>,
) -> (Seq<BlockM>, Seq<ErrM>, int)
    decreases lines.len() - i, 0int,
{
    if i < 0 || i >= lines.len() {
        (acc, errs, i)
    } else {
        let l = lines[i];
        match l.lt {
            LtM::WithKey(id) => {
                if level_has_id(specs, id) {
                    let k = specs[find_id(specs, id)];
                    after_consume(lines, i + 1, specs, level, acc.push(new_block(k, l)), errs)
                } else if level == 0 {
                    after_consume(lines, i + 1, specs, level, acc, errs.push(err_wkp(id, l.index)))
                } else {
                    (acc, errs, i)
                }
            },
            LtM::Comment => after_consume(lines, i + 1, specs, level, acc, errs),
            LtM::Unknown => {
                if blank(l.slice) {
                    // an entirely-whitespace line is consumed and ignored,
                    // whatever block may be open
                    after_consume(lines, i + 1, specs, level, acc, errs)
                } else if acc.len() > 0 {
                    let last = acc.last();
                    if last.key.vt == ValueType::SingleLine {
                        after_consume(
                            lines,
                            i + 1,
                            specs,
                            level,
                            acc,
                            errs.push(err_imc(last.key.id, l.index, l.slice.len() as int)),
                        )
                    } else {
                        after_consume(
                            lines,
                            i + 1,
                            specs,
                            level,
                            acc.update(acc.len() - 1, fold_line(last, l)),
                            errs,
                        )
                    }
                } else {
                    after_consume(
                        lines,
                        i + 1,
                        specs,
                        level,
                        acc,
                        errs.push(err_cok(l.index, l.slice.len() as int)),
                    )
                }
            },
        }
    }
}

/// After a line was consumed at cursor `j - 1`: if the next line bears a key
/// and the last block's key has subkeys, descend into them, attach the
/// returned blocks as that block's subblocks, merge the errors, and go on at
/// this level from where the sublevel stopped.
pub open spec fn after_consume(
    lines: Seq<LineM>,
    j: int,
    specs: Seq<KeySpecM>,
    level: int,
    acc: Seq<BlockM>,
    errs: Seq<ErrM>,
) -> (Seq<BlockM>, Seq<ErrM>, int)
    decreases lines.len() - j, 2int,
{
    if 0 <= j < lines.len() && lines[j].lt is WithKey && acc.len() > 0 && acc.last(
    ).key.subkeys.len() > 0 {
        let sub = build_level(lines, j, acc.last().key.subkeys, level + 1);
        let j2 = if sub.2 < j {
            j
        } else if sub.2 > lines.len() {
            lines.len() as int
        } else {
            sub.2
        };
        run_level(
            lines,
            j2,
            specs,
            level,
            acc.update(acc.len() - 1, with_subblocks(acc.last(), sub.0)),
            errs + sub.1,
        )
    } else {
        run_level(lines, j, specs, level, acc, errs)
    }
}

/// One whole level: run it, then drop later duplicates of `once` keys,
/// reporting each dropped block at its key's position.
pub open spec fn build_level(lines: Seq<LineM>, i: int, specs: Seq<KeySpecM>, level: int) -> (
    Seq<BlockM>,
    Seq<ErrM>,
    int,
)
    decreases lines.len() - i, 1int,
{
    let r = run_level(lines, i, specs, level, Seq::empty(), Seq::empty());
    let d = dedup_from(r.0, level, Seq::empty());
    (d.0, r.1 + d.1, r.2)
}

/// The duplicate post-pass: among the collected blocks of one level, for each
/// key marked `once` only the first occurrence is kept; every later one is
/// dropped and reported, its own substructure notwithstanding.
pub open spec fn dedup_from(blocks: Seq<BlockM>, level: int, seen: Seq<Seq<char>>) -> (
    Seq<BlockM>,
    Seq<ErrM>,
)
    decreases blocks.len(),
{
    if blocks.len() == 0 {
        (Seq::empty(), Seq::empty())
    } else {
        let b = blocks[0];
        if b.key.once && seen.contains(b.key.id) {
            let r = dedup_from(blocks.drop_first(), level, seen);
            (r.0, seq![err_dup(b.key.id, b.range.start_line, level)] + r.1)
        } else {
            let seen2 = if b.key.once {
                seen.push(b.key.id)
            } else {
                seen
            };
            let r = dedup_from(blocks.drop_first(), level, seen2);
            (seq![b] + r.0, r.1)
        }
    }
}

/// Whether the duplicate pass drops the block at `m`: its key is marked
/// `once` and its identifier was seen before — in `seen`, or on an earlier
/// `once` block of the list.
pub open spec fn dropped_at(blocks: Seq<BlockM>, m: int, seen: Seq<Seq<char>>) -> bool {
    blocks[m].key.once && (seen.contains(blocks[m].key.id) || exists|m2: int|
        0 <= m2 < m && (#[trigger] blocks[m2]).key.once && blocks[m2].key.id
            == blocks[m].key.id)
}

/// The blocks from position `i` on that the duplicate pass keeps, in order.
pub open spec fn kept_from(blocks: Seq<BlockM>, i: int, seen: Seq<Seq<char>>) -> Seq<BlockM>
    decreases blocks.len() - i,
{
    if i < 0 || i >= blocks.len() {
        Seq::empty()
    } else {
        let rest = kept_from(blocks, i + 1, seen);
        if dropped_at(blocks, i, seen) {
            rest
        } else {
            seq![blocks[i]] + rest
        }
    }
}

/// One `DuplicatedKey` diagnostic per dropped block from position `i` on,
/// in order, each at its block's key span.
pub open spec fn dup_errs_from(blocks: Seq<BlockM>, i: int, seen: Seq<Seq<char>>, level: int) -> Seq<
    ErrM,
>
    decreases blocks.len() - i,
{
    if i < 0 || i >= blocks.len() {
        Seq::empty()
    } else {
        let rest = dup_errs_from(blocks, i + 1, seen, level);
        if dropped_at(blocks, i, seen) {
            seq![err_dup(blocks[i].key.id, blocks[i].range.start_line, level)] + rest
        } else {
            rest
        }
    }
}

proof fn lemma_dedup_shift(
    blocks: Seq<BlockM>,
    i: int,
    seen: Seq<Seq<char>>,
    seen2: Seq<Seq<char>>,
    level: int,
)
    requires
        blocks.len() > 0,
        1 <= i <= blocks.len(),
        forall|m: int|
            i <= m < blocks.len() ==> (dropped_at(blocks, m, seen) <==> dropped_at(
                blocks.drop_first(),
                m - 1,
                seen2,
            )),
    ensures
        kept_from(blocks, i, seen) == kept_from(blocks.drop_first(), i - 1, seen2),
        dup_errs_from(blocks, i, seen, level) == dup_errs_from(
            blocks.drop_first(),
            i - 1,
            seen2,
            level,
        ),
    decreases blocks.len() - i,
{
    if i < blocks.len() {
        lemma_dedup_shift(blocks, i + 1, seen, seen2, level);
        assert(blocks.drop_first()[i - 1] == blocks[i]);
    }
}

/// The duplicate pass, characterized for every input: a block is dropped
/// exactly when its key is marked `once` and its identifier was seen before;
/// the kept blocks stay in order with their full substructure, and each
/// dropped block yields exactly one `DuplicatedKey` diagnostic at its own
/// key span, in order.
pub proof fn lemma_dedup_characterized_from(
    blocks: Seq<BlockM>,
    level: int,
    seen: Seq<Seq<char>>,
)
    ensures
        dedup_from(blocks, level, seen).0 == kept_from(blocks, 0, seen),
        dedup_from(blocks, level, seen).1 == dup_errs_from(blocks, 0, seen, level),
    decreases blocks.len(),
{
    if blocks.len() > 0 {
        let b = blocks[0];
        let t = blocks.drop_first();
        assert(forall|m: int| 0 <= m < t.len() ==> t[m] == blocks[m + 1]);
        assert(dropped_at(blocks, 0, seen) == (b.key.once && seen.contains(b.key.id)));
        if b.key.once && seen.contains(b.key.id) {
            lemma_dedup_characterized_from(t, level, seen);
            assert forall|m: int|
                1 <= m < blocks.len() implies (dropped_at(blocks, m, seen) <==> dropped_at(
                t,
                m - 1,
                seen,
            )) by {
                assert(t[m - 1] == blocks[m]);
                if dropped_at(blocks, m, seen) && !seen.contains(blocks[m].key.id) {
                    let m2 = choose|m2: int|
                        0 <= m2 < m && (#[trigger] blocks[m2]).key.once && blocks[m2].key.id
                            == blocks[m].key.id;
                    if m2 == 0 {
                        assert(seen.contains(blocks[m].key.id));
                    } else {
                        assert(t[m2 - 1].key.once && t[m2 - 1].key.id == t[m - 1].key.id);
                    }
                }
                if dropped_at(t, m - 1, seen) && !seen.contains(t[m - 1].key.id) {
                    let m2 = choose|m2: int|
                        0 <= m2 < m - 1 && (#[trigger] t[m2]).key.once && t[m2].key.id
                            == t[m - 1].key.id;
                    assert(blocks[m2 + 1].key.once && blocks[m2 + 1].key.id
                        == blocks[m].key.id);
                }
            }
            lemma_dedup_shift(blocks, 1, seen, seen, level);
        } else {
            let seen2 = if b.key.once {
                seen.push(b.key.id)
            } else {
                seen
            };
            lemma_dedup_characterized_from(t, level, seen2);
            assert forall|m: int|
                1 <= m < blocks.len() implies (dropped_at(blocks, m, seen) <==> dropped_at(
                t,
                m - 1,
                seen2,
            )) by {
                assert(t[m - 1] == blocks[m]);
                if b.key.once {
                    assert(seen2 == seen.push(b.key.id));
                    assert(seen2[seen.len() as int] == b.key.id);
                    assert(forall|w: int| 0 <= w < seen.len() ==> seen2[w] == seen[w]);
                }
                if dropped_at(blocks, m, seen) {
                    if seen.contains(blocks[m].key.id) {
                        let w = choose|w: int|
                            0 <= w < seen.len() && seen[w] == blocks[m].key.id;
                        assert(seen2.contains(blocks[m].key.id)) by {
                            if b.key.once {
                                assert(seen2[w] == blocks[m].key.id);
                            }
                        }
                    } else {
                        let m2 = choose|m2: int|
                            0 <= m2 < m && (#[trigger] blocks[m2]).key.once && blocks[m2].key.id
                                == blocks[m].key.id;
                        if m2 == 0 {
                            assert(b.key.once);
                            assert(seen2.contains(blocks[m].key.id)) by {
                                assert(seen2[seen.len() as int] == blocks[m].key.id);
                            }
                        } else {
                            assert(t[m2 - 1].key.once && t[m2 - 1].key.id == t[m - 1].key.id);
                        }
                    }
                }
                if dropped_at(t, m - 1, seen2) {
                    if seen2.contains(t[m - 1].key.id) {
                        let w = choose|w: int|
                            0 <= w < seen2.len() && seen2[w] == t[m - 1].key.id;
                        if b.key.once && w == seen.len() {
                            assert(blocks[m].key.id == b.key.id);
                            assert(blocks[0].key.once && blocks[0].key.id == blocks[m].key.id);
                        } else {
                            assert(seen[w] == blocks[m].key.id);
                            assert(seen.contains(blocks[m].key.id));
                        }
                    } else {
                        let m2 = choose|m2: int|
                            0 <= m2 < m - 1 && (#[trigger] t[m2]).key.once && t[m2].key.id
                                == t[m - 1].key.id;
                        assert(blocks[m2 + 1].key.once && blocks[m2 + 1].key.id
                            == blocks[m].key.id);
                    }
                }
            }
            lemma_dedup_shift(blocks, 1, seen, seen2, level);
        }
    }
}

/// The full duplicate rule as the builder applies it at each level: among
/// the collected sibling blocks, however many repeats there are, a block is
/// dropped exactly when its key is `once` and an earlier `once` sibling has
/// the same identifier — the first occurrence is kept, order is preserved —
/// and every dropped block reports exactly one `DuplicatedKey` at its key
/// span, in order.
pub proof fn lemma_dedup_characterized(blocks: Seq<BlockM>, level: int)
    ensures
        dedup_from(blocks, level, Seq::empty()).0 == kept_from(blocks, 0, Seq::empty()),
        dedup_from(blocks, level, Seq::empty()).1 == dup_errs_from(
            blocks,
            0,
            Seq::empty(),
            level,
        ),
        forall|m: int|
            0 <= m < blocks.len() ==> (dropped_at(blocks, m, Seq::empty()) <==> (
            (#[trigger] blocks[m]).key.once && exists|m2: int|
                0 <= m2 < m && (#[trigger] blocks[m2]).key.once && blocks[m2].key.id
                    == blocks[m].key.id)),
{
    lemma_dedup_characterized_from(blocks, level, Seq::empty());
}

/// When no `once` key among the blocks was seen before or repeats, the
/// duplicate pass keeps everything and reports nothing.
pub proof fn lemma_dedup_clean(blocks: Seq<BlockM>, level: int, seen: Seq<Seq<char>>)
    requires
        forall|m: int|
            0 <= m < blocks.len() && (#[trigger] blocks[m]).key.once ==> !seen.contains(
                blocks[m].key.id,
            ),
        forall|m: int, m2: int|
            0 <= m < m2 < blocks.len() && (#[trigger] blocks[m2]).key.once ==> (
            #[trigger] blocks[m]).key.id != blocks[m2].key.id,
    ensures
        dedup_from(blocks, level, seen) == (blocks, Seq::<ErrM>::empty()),
    decreases blocks.len(),
{
    if blocks.len() > 0 {
        let b = blocks[0];
        let t = blocks.drop_first();
        assert(forall|m: int| 0 <= m < t.len() ==> t[m] == blocks[m + 1]);
        let seen2 = if b.key.once {
            seen.push(b.key.id)
        } else {
            seen
        };
        assert forall|m: int|
            0 <= m < t.len() && (#[trigger] t[m]).key.once implies !seen2.contains(
            t[m].key.id) by {
            assert(t[m] == blocks[m + 1]);
            assert(!seen.contains(blocks[m + 1].key.id));
            if b.key.once && t[m].key.id == b.key.id {
                assert(blocks[0].key.id != blocks[m + 1].key.id);
            }
            if seen2.contains(t[m].key.id) && !seen.contains(t[m].key.id) {
                assert(seen2 == seen.push(b.key.id));
                let w = choose|w: int| 0 <= w < seen2.len() && seen2[w] == t[m].key.id;
                assert(w == seen.len());
                assert(t[m].key.id == b.key.id);
            }
        }
        lemma_dedup_clean(t, level, seen2);
        assert(seq![b] + t =~= blocks);
    }
}

/// One block whose `once` key was already seen, and no other problem: that
/// block alone is dropped, with exactly one diagnostic at its key span.
pub proof fn lemma_dedup_drops_marked(
    blocks: Seq<BlockM>,
    level: int,
    seen: Seq<Seq<char>>,
    q: int,
)
    requires
        0 <= q < blocks.len(),
        blocks[q].key.once,
        seen.contains(blocks[q].key.id),
        forall|m: int| 0 <= m < blocks.len() && m != q ==> (#[trigger] blocks[m]).key.id
            != blocks[q].key.id,
        forall|m: int|
            0 <= m < blocks.len() && m != q && (#[trigger] blocks[m]).key.once ==> !seen.contains(
                blocks[m].key.id,
            ),
        forall|m: int, m2: int|
            0 <= m < m2 < blocks.len() && m2 != q && (#[trigger] blocks[m2]).key.once ==> (
            #[trigger] blocks[m]).key.id != blocks[m2].key.id,
    ensures
        dedup_from(blocks, level, seen) == (
            blocks.remove(q),
            seq![err_dup(blocks[q].key.id, blocks[q].range.start_line, level)],
        ),
    decreases blocks.len(),
{
    let b = blocks[0];
    let t = blocks.drop_first();
    assert(forall|m: int| 0 <= m < t.len() ==> t[m] == blocks[m + 1]);
    if q == 0 {
        lemma_dedup_clean(t, level, seen);
        assert(blocks.remove(0) =~= t);
        assert(seq![err_dup(b.key.id, b.range.start_line, level)] + Seq::<ErrM>::empty()
            =~= seq![err_dup(b.key.id, b.range.start_line, level)]);
    } else {
        assert(!(b.key.once && seen.contains(b.key.id)));
        let seen2 = if b.key.once {
            seen.push(b.key.id)
        } else {
            seen
        };
        assert(seen2.contains(blocks[q].key.id)) by {
            assert(seen.contains(blocks[q].key.id));
            if b.key.once {
                let w = choose|w: int| 0 <= w < seen.len() && seen[w] == blocks[q].key.id;
                assert(seen.push(b.key.id)[w] == blocks[q].key.id);
            }
        }
        assert forall|m: int|
            0 <= m < t.len() && m != q - 1 && (#[trigger] t[m]).key.once implies !seen2.contains(
            t[m].key.id) by {
            assert(t[m] == blocks[m + 1]);
            if seen2.contains(t[m].key.id) && !seen.contains(t[m].key.id) {
                let w = choose|w: int| 0 <= w < seen2.len() && seen2[w] == t[m].key.id;
                assert(w == seen.len());
                assert(t[m].key.id == b.key.id);
                assert(blocks[0].key.id != blocks[m + 1].key.id);
            }
        }
        lemma_dedup_drops_marked(t, level, seen2, q - 1);
        assert(t[q - 1] == blocks[q]);
        assert(seq![b] + t.remove(q - 1) =~= blocks.remove(q));
    }
}

/// A key marked `once` seen twice at the same level: only the first
/// occurrence is retained among the returned blocks, and the second produces
/// exactly one `DuplicatedKey` diagnostic, pointing at the second
/// occurrence's key span on its own line.
pub proof fn lemma_once_key_duplicate(blocks: Seq<BlockM>, level: int, p: int, q: int)
    requires
        0 <= p < q < blocks.len(),
        blocks[p].key.once,
        blocks[q].key.once,
        blocks[p].key.id == blocks[q].key.id,
        forall|m: int| 0 <= m < blocks.len() && m != p && m != q ==> (#[trigger] blocks[m]).key.id
            != blocks[q].key.id,
        forall|m: int, m2: int|
            0 <= m < m2 < blocks.len() && !(m == p && m2 == q) && (
            #[trigger] blocks[m2]).key.once ==> (#[trigger] blocks[m]).key.id
                != blocks[m2].key.id,
    ensures
        dedup_from(blocks, level, Seq::empty()) == (
            blocks.remove(q),
            seq![err_dup(blocks[q].key.id, blocks[q].range.start_line, level)],
        ),
{
    lemma_once_key_duplicate_gen(blocks, level, Seq::empty(), p, q);
}

proof fn lemma_once_key_duplicate_gen(
    blocks: Seq<BlockM>,
    level: int,
    seen: Seq<Seq<char>>,
    p: int,
    q: int,
)
    requires
        0 <= p < q < blocks.len(),
        blocks[p].key.once,
        blocks[q].key.once,
        blocks[p].key.id == blocks[q].key.id,
        forall|m: int| 0 <= m < blocks.len() && m != p && m != q ==> (#[trigger] blocks[m]).key.id
            != blocks[q].key.id,
        forall|m: int, m2: int|
            0 <= m < m2 < blocks.len() && !(m == p && m2 == q) && (
            #[trigger] blocks[m2]).key.once ==> (#[trigger] blocks[m]).key.id
                != blocks[m2].key.id,
        forall|m: int|
            0 <= m < blocks.len() && (#[trigger] blocks[m]).key.once ==> !seen.contains(
                blocks[m].key.id,
            ),
    ensures
        dedup_from(blocks, level, seen) == (
            blocks.remove(q),
            seq![err_dup(blocks[q].key.id, blocks[q].range.start_line, level)],
        ),
    decreases blocks.len(),
{
    let b = blocks[0];
    let t = blocks.drop_first();
    assert(forall|m: int| 0 <= m < t.len() ==> t[m] == blocks[m + 1]);
    assert(!(b.key.once && seen.contains(b.key.id)));
    let seen2 = if b.key.once {
        seen.push(b.key.id)
    } else {
        seen
    };
    if p == 0 {
        // the first occurrence is kept; the one at q - 1 in the tail is now marked
        assert(b.key.once);
        assert(seen2 == seen.push(b.key.id));
        assert(seen2.contains(t[q - 1].key.id)) by {
            assert(t[q - 1] == blocks[q]);
            assert(seen2[seen.len() as int] == b.key.id);
        }
        assert forall|m: int|
            0 <= m < t.len() && m != q - 1 && (#[trigger] t[m]).key.once implies !seen2.contains(
            t[m].key.id) by {
            assert(t[m] == blocks[m + 1]);
            if seen2.contains(t[m].key.id) && !seen.contains(t[m].key.id) {
                let w = choose|w: int| 0 <= w < seen2.len() && seen2[w] == t[m].key.id;
                assert(w == seen.len());
                assert(t[m].key.id == b.key.id);
                assert(blocks[0].key.id != blocks[m + 1].key.id);
            }
        }
        assert forall|m: int|
            0 <= m < t.len() && m != q - 1 implies (#[trigger] t[m]).key.id
            != t[q - 1].key.id by {
            assert(t[m] == blocks[m + 1] && t[q - 1] == blocks[q]);
        }
        assert forall|m: int, m2: int|
            0 <= m < m2 < t.len() && m2 != q - 1 && (#[trigger] t[m2]).key.once implies (
        #[trigger] t[m]).key.id != t[m2].key.id by {
            assert(t[m] == blocks[m + 1] && t[m2] == blocks[m2 + 1]);
        }
        lemma_dedup_drops_marked(t, level, seen2, q - 1);
        assert(t[q - 1] == blocks[q]);
        assert(seq![b] + t.remove(q - 1) =~= blocks.remove(q));
    } else {
        assert forall|m: int|
            0 <= m < t.len() && (#[trigger] t[m]).key.once implies !seen2.contains(
            t[m].key.id) by {
            assert(t[m] == blocks[m + 1]);
            if seen2.contains(t[m].key.id) && !seen.contains(t[m].key.id) {
                let w = choose|w: int| 0 <= w < seen2.len() && seen2[w] == t[m].key.id;
                assert(w == seen.len());
                assert(t[m].key.id == b.key.id);
                if blocks[m + 1].key.once {
                    assert(blocks[0].key.id != blocks[m + 1].key.id);
                }
            }
        }
        assert forall|m: int|
            0 <= m < t.len() && m != p - 1 && m != q - 1 implies (#[trigger] t[m]).key.id
            != t[q - 1].key.id by {
            assert(t[m] == blocks[m + 1] && t[q - 1] == blocks[q]);
        }
        assert forall|m: int, m2: int|
            0 <= m < m2 < t.len() && !(m == p - 1 && m2 == q - 1) && (
            #[trigger] t[m2]).key.once implies (#[trigger] t[m]).key.id != t[m2].key.id by {
            assert(t[m] == blocks[m + 1] && t[m2] == blocks[m2 + 1]);
        }
        lemma_once_key_duplicate_gen(t, level, seen2, p - 1, q - 1);
        assert(t[q - 1] == blocks[q]);
        assert(seq![b] + t.remove(q - 1) =~= blocks.remove(q));
    }
}

/// Order of diagnostics: by start line, then start character.
pub open spec fn err_le(a: ErrM, b: ErrM) -> bool {
    a.range.start_line < b.range.start_line || (a.range.start_line == b.range.start_line
        && a.range.start_char <= b.range.start_char)
}

/// Insert `e` after every element that is not past it (stable insertion).
pub open spec fn insert_sorted(e: ErrM, s: Seq<ErrM>) -> Seq<ErrM>
    decreases s.len(),
{
    if s.len() == 0 {
        seq![e]
    } else if err_le(s[0], e) {
        seq![s[0]] + insert_sorted(e, s.drop_first())
    } else {
        seq![e] + s
    }
}

/// Stable sort of diagnostics by source position.
pub open spec fn sort_errs(s: Seq<ErrM>) -> Seq<ErrM>
    decreases s.len(),
{
    if s.len() == 0 {
        Seq::empty()
    } else {
        insert_sorted(s.last(), sort_errs(s.drop_last()))
    }
}

/// The full result of the builder on a document: the root-level forest and
/// the diagnostics, sorted by source position.
pub open spec fn built(lines: Seq<LineM>, specs: Seq<KeySpecM>) -> (Seq<BlockM>, Seq<ErrM>) {
    let r = build_level(lines, 0, specs, 0);
    (r.0, sort_errs(r.1))
}

/// Every block the builder returns satisfies this, recursively: its text
/// holds at least one element, the key line's remainder, which stays its
/// first element whatever is folded in or deduplicated later; and its range
/// starts at character zero of the key line.
pub open spec fn wf_block(b: BlockM) -> bool
    decreases b, 1int,
{
    b.text.len() >= 1 && b.range.start_char == 0 && blocks_wf(b.subblocks)
}

/// All blocks of a forest are well-formed.
pub open spec fn blocks_wf(bs: Seq<BlockM>) -> bool
    decreases bs, 0int,
{
    bs.len() == 0 || (wf_block(bs[0]) && blocks_wf(bs.drop_first()))
}

pub proof fn lemma_blocks_wf_iff(bs: Seq<BlockM>)
    ensures
        blocks_wf(bs) <==> (forall|i: int| 0 <= i < bs.len() ==> wf_block(#[trigger] bs[i])),
    decreases bs.len(),
{
    if bs.len() > 0 {
        lemma_blocks_wf_iff(bs.drop_first());
        assert(forall|i: int| 0 <= i < bs.len() - 1 ==> bs.drop_first()[i] == bs[i + 1]);
        if wf_block(bs[0]) && (forall|i: int|
            0 <= i < bs.drop_first().len() ==> wf_block(#[trigger] bs.drop_first()[i])) {
            assert forall|i: int| 0 <= i < bs.len() implies wf_block(#[trigger] bs[i]) by {
                if i > 0 {
                    assert(bs[i] == bs.drop_first()[i - 1]);
                }
            }
        }
    }
}

/// Whatever lines a level consumes, every block it returns is well-formed:
/// the key line's remainder is there as the first text element.
pub proof fn lemma_run_wf(
    lines: Seq<LineM>,
    i: int,
    specs: Seq<KeySpecM>,
    level: int,
    acc: Seq<BlockM>,
    errs: Seq<ErrM>,
)
    requires
        blocks_wf(acc),
    ensures
        blocks_wf(run_level(lines, i, specs, level, acc, errs).0),
    decreases lines.len() - i, 0int,
{
    lemma_blocks_wf_iff(acc);
    if 0 <= i < lines.len() {
        let l = lines[i];
        match l.lt {
            LtM::WithKey(id) => {
                if level_has_id(specs, id) {
                    let nb = new_block(specs[find_id(specs, id)], l);
                    let acc2 = acc.push(nb);
                    assert(blocks_wf(acc2)) by {
                        lemma_blocks_wf_iff(acc2);
                        assert(wf_block(nb));
                    }
                    lemma_after_wf(lines, i + 1, specs, level, acc2, errs);
                } else if level == 0 {
                    lemma_after_wf(lines, i + 1, specs, level, acc, errs.push(err_wkp(id, l.index)));
                }
            },
            LtM::Comment => {
                lemma_after_wf(lines, i + 1, specs, level, acc, errs);
            },
            LtM::Unknown => {
                if blank(l.slice) {
                    lemma_after_wf(lines, i + 1, specs, level, acc, errs);
                } else if acc.len() > 0 {
                    let last = acc.last();
                    if last.key.vt == ValueType::SingleLine {
                        lemma_after_wf(
                            lines,
                            i + 1,
                            specs,
                            level,
                            acc,
                            errs.push(err_imc(last.key.id, l.index, l.slice.len() as int)),
                        );
                    } else {
                        let acc2 = acc.update(acc.len() - 1, fold_line(last, l));
                        assert(blocks_wf(acc2)) by {
                            lemma_blocks_wf_iff(acc2);
                            assert(wf_block(fold_line(last, l)));
                        }
                        lemma_after_wf(lines, i + 1, specs, level, acc2, errs);
                    }
                } else {
                    lemma_after_wf(
                        lines,
                        i + 1,
                        specs,
                        level,
                        acc,
                        errs.push(err_cok(l.index, l.slice.len() as int)),
                    );
                }
            },
        }
    }
}

pub proof fn lemma_after_wf(
    lines: Seq<LineM>,
    j: int,
    specs: Seq<KeySpecM>,
    level: int,
    acc: Seq<BlockM>,
    errs: Seq<ErrM>,
)
    requires
        blocks_wf(acc),
    ensures
        blocks_wf(after_consume(lines, j, specs, level, acc, errs).0),
    decreases lines.len() - j, 2int,
{
    lemma_blocks_wf_iff(acc);
    if 0 <= j < lines.len() && lines[j].lt is WithKey && acc.len() > 0 && acc.last(
    ).key.subkeys.len() > 0 {
        let sub = build_level(lines, j, acc.last().key.subkeys, level + 1);
        let j2 = if sub.2 < j {
            j
        } else if sub.2 > lines.len() {
            lines.len() as int
        } else {
            sub.2
        };
        lemma_build_wf(lines, j, acc.last().key.subkeys, level + 1);
        let acc2 = acc.update(acc.len() - 1, with_subblocks(acc.last(), sub.0));
        assert(blocks_wf(acc2)) by {
            lemma_blocks_wf_iff(acc2);
            assert(wf_block(with_subblocks(acc.last(), sub.0)));
        }
        lemma_run_wf(lines, j2, specs, level, acc2, errs + sub.1);
    } else {
        lemma_run_wf(lines, j, specs, level, acc, errs);
    }
}

pub proof fn lemma_build_wf(lines: Seq<LineM>, i: int, specs: Seq<KeySpecM>, level: int)
    ensures
        blocks_wf(build_level(lines, i, specs, level).0),
    decreases lines.len() - i, 1int,
{
    lemma_run_wf(lines, i, specs, level, Seq::empty(), Seq::empty());
    let r = run_level(lines, i, specs, level, Seq::empty(), Seq::empty());
    lemma_dedup_wf(r.0, level, Seq::empty());
}

/// The duplicate pass only drops blocks; the kept ones stay well-formed.
pub proof fn lemma_dedup_wf(blocks: Seq<BlockM>, level: int, seen: Seq<Seq<char>>)
    requires
        blocks_wf(blocks),
    ensures
        blocks_wf(dedup_from(blocks, level, seen).0),
    decreases blocks.len(),
{
    if blocks.len() > 0 {
        let b = blocks[0];
        if b.key.once && seen.contains(b.key.id) {
            lemma_dedup_wf(blocks.drop_first(), level, seen);
        } else {
            let seen2 = if b.key.once {
                seen.push(b.key.id)
            } else {
                seen
            };
            lemma_dedup_wf(blocks.drop_first(), level, seen2);
            let r = dedup_from(blocks.drop_first(), level, seen2);
            lemma_blocks_wf_iff(r.0);
            lemma_blocks_wf_iff(seq![b] + r.0);
            assert(forall|m: int| 0 <= m < r.0.len() ==> (seq![b] + r.0)[m + 1] == r.0[m]);
            assert((seq![b] + r.0)[0] == b);
        }
    }
}

/// The forest the builder returns is well-formed: every block, at every
/// depth, carries its key line's remainder as its first text element.
pub proof fn lemma_built_wf(lines: Seq<LineM>, specs: Seq<KeySpecM>)
    ensures
        blocks_wf(built(lines, specs).0),
{
    lemma_build_wf(lines, 0, specs, 0);
}

/// The block was opened by a key line of the document: some line classified
/// with the block's key starts at the block's start line, and the block's
/// first text element is exactly that line's remainder after the key,
/// trimmed; and so on for its subblocks.
pub open spec fn block_opened(b: BlockM, lines: Seq<LineM>) -> bool
    decreases b, 1int,
{
    (exists|ii: int|
        0 <= ii < lines.len() && lines[ii].lt == LtM::WithKey(b.key.id) && b.range.start_line
            == lines[ii].index && b.text.len() >= 1 && b.text[0] == trimmed(
            lines[ii].slice.skip(b.key.id.len() as int),
        )) && blocks_opened(b.subblocks, lines)
}

/// All blocks of a forest were opened by key lines.
pub open spec fn blocks_opened(bs: Seq<BlockM>, lines: Seq<LineM>) -> bool
    decreases bs, 0int,
{
    bs.len() == 0 || (block_opened(bs[0], lines) && blocks_opened(bs.drop_first(), lines))
}

pub proof fn lemma_blocks_opened_iff(bs: Seq<BlockM>, lines: Seq<LineM>)
    ensures
        blocks_opened(bs, lines) <==> (forall|i: int|
            0 <= i < bs.len() ==> block_opened(#[trigger] bs[i], lines)),
    decreases bs.len(),
{
    if bs.len() > 0 {
        lemma_blocks_opened_iff(bs.drop_first(), lines);
        assert(forall|i: int| 0 <= i < bs.len() - 1 ==> bs.drop_first()[i] == bs[i + 1]);
        if block_opened(bs[0], lines) && (forall|i: int|
            0 <= i < bs.drop_first().len() ==> block_opened(
                #[trigger] bs.drop_first()[i],
                lines,
            )) {
            assert forall|i: int| 0 <= i < bs.len() implies block_opened(
                #[trigger] bs[i],
                lines,
            ) by {
                if i > 0 {
                    assert(bs[i] == bs.drop_first()[i - 1]);
                }
            }
        }
    }
}

/// Every block a level collects was opened by a key line, with that line's
/// trimmed remainder as its first text element.
pub proof fn lemma_run_opened(
    lines: Seq<LineM>,
    i: int,
    specs: Seq<KeySpecM>,
    level: int,
    acc: Seq<BlockM>,
    errs: Seq<ErrM>,
)
    requires
        blocks_opened(acc, lines),
    ensures
        blocks_opened(run_level(lines, i, specs, level, acc, errs).0, lines),
    decreases lines.len() - i, 0int,
{
    lemma_blocks_opened_iff(acc, lines);
    if 0 <= i < lines.len() {
        let l = lines[i];
        match l.lt {
            LtM::WithKey(id) => {
                if level_has_id(specs, id) {
                    lemma_find_id(specs, id);
                    let k = specs[find_id(specs, id)];
                    let nb = new_block(k, l);
                    let acc2 = acc.push(nb);
                    assert(blocks_opened(acc2, lines)) by {
                        lemma_blocks_opened_iff(acc2, lines);
                        assert(k.id == id);
                        assert(lines[i].lt == LtM::WithKey(nb.key.id));
                        assert(blocks_opened(nb.subblocks, lines));
                        assert(block_opened(nb, lines));
                    }
                    lemma_after_opened(lines, i + 1, specs, level, acc2, errs);
                } else if level == 0 {
                    lemma_after_opened(
                        lines,
                        i + 1,
                        specs,
                        level,
                        acc,
                        errs.push(err_wkp(id, l.index)),
                    );
                }
            },
            LtM::Comment => {
                lemma_after_opened(lines, i + 1, specs, level, acc, errs);
            },
            LtM::Unknown => {
                if blank(l.slice) {
                    lemma_after_opened(lines, i + 1, specs, level, acc, errs);
                } else if acc.len() > 0 {
                    let last = acc.last();
                    if last.key.vt == ValueType::SingleLine {
                        lemma_after_opened(
                            lines,
                            i + 1,
                            specs,
                            level,
                            acc,
                            errs.push(err_imc(last.key.id, l.index, l.slice.len() as int)),
                        );
                    } else {
                        let acc2 = acc.update(acc.len() - 1, fold_line(last, l));
                        assert(blocks_opened(acc2, lines)) by {
                            lemma_blocks_opened_iff(acc2, lines);
                            assert(block_opened(last, lines));
                            let f = fold_line(last, l);
                            assert(f.text[0] == last.text[0]);
                            assert(block_opened(f, lines));
                        }
                        lemma_after_opened(lines, i + 1, specs, level, acc2, errs);
                    }
                } else {
                    lemma_after_opened(
                        lines,
                        i + 1,
                        specs,
                        level,
                        acc,
                        errs.push(err_cok(l.index, l.slice.len() as int)),
                    );
                }
            },
        }
    }
}

pub proof fn lemma_after_opened(
    lines: Seq<LineM>,
    j: int,
    specs: Seq<KeySpecM>,
    level: int,
    acc: Seq<BlockM>,
    errs: Seq<ErrM>,
)
    requires
        blocks_opened(acc, lines),
    ensures
        blocks_opened(after_consume(lines, j, specs, level, acc, errs).0, lines),
    decreases lines.len() - j, 2int,
{
    lemma_blocks_opened_iff(acc, lines);
    if 0 <= j < lines.len() && lines[j].lt is WithKey && acc.len() > 0 && acc.last(
    ).key.subkeys.len() > 0 {
        let sub = build_level(lines, j, acc.last().key.subkeys, level + 1);
        let j2 = if sub.2 < j {
            j
        } else if sub.2 > lines.len() {
            lines.len() as int
        } else {
            sub.2
        };
        lemma_build_opened(lines, j, acc.last().key.subkeys, level + 1);
        let acc2 = acc.update(acc.len() - 1, with_subblocks(acc.last(), sub.0));
        assert(blocks_opened(acc2, lines)) by {
            lemma_blocks_opened_iff(acc2, lines);
            assert(block_opened(acc.last(), lines));
            let w = with_subblocks(acc.last(), sub.0);
            assert(w.text[0] == acc.last().text[0]);
            assert(block_opened(w, lines));
        }
        lemma_run_opened(lines, j2, specs, level, acc2, errs + sub.1);
    } else {
        lemma_run_opened(lines, j, specs, level, acc, errs);
    }
}

pub proof fn lemma_build_opened(lines: Seq<LineM>, i: int, specs: Seq<KeySpecM>, level: int)
    ensures
        blocks_opened(build_level(lines, i, specs, level).0, lines),
    decreases lines.len() - i, 1int,
{
    lemma_run_opened(lines, i, specs, level, Seq::empty(), Seq::empty());
    let r = run_level(lines, i, specs, level, Seq::empty(), Seq::empty());
    lemma_dedup_opened(r.0, level, Seq::empty(), lines);
}

pub proof fn lemma_dedup_opened(
    blocks: Seq<BlockM>,
    level: int,
    seen: Seq<Seq<char>>,
    lines: Seq<LineM>,
)
    requires
        blocks_opened(blocks, lines),
    ensures
        blocks_opened(dedup_from(blocks, level, seen).0, lines),
    decreases blocks.len(),
{
    if blocks.len() > 0 {
        let b = blocks[0];
        if b.key.once && seen.contains(b.key.id) {
            lemma_dedup_opened(blocks.drop_first(), level, seen, lines);
        } else {
            let seen2 = if b.key.once {
                seen.push(b.key.id)
            } else {
                seen
            };
            lemma_dedup_opened(blocks.drop_first(), level, seen2, lines);
            let r = dedup_from(blocks.drop_first(), level, seen2);
            lemma_blocks_opened_iff(r.0, lines);
            lemma_blocks_opened_iff(seq![b] + r.0, lines);
            assert(forall|m: int| 0 <= m < r.0.len() ==> (seq![b] + r.0)[m + 1] == r.0[m]);
            assert((seq![b] + r.0)[0] == b);
        }
    }
}

/// For every document and specification, each block of the returned forest,
/// at every depth, was opened by a key line, stands at that line, and holds
/// that line's trimmed remainder as its first text element.
pub proof fn lemma_built_opened(lines: Seq<LineM>, specs: Seq<KeySpecM>)
    ensures
        blocks_opened(built(lines, specs).0, lines),
{
    lemma_build_opened(lines, 0, specs, 0);
}

/// The keys of a forest's blocks, in order.
pub open spec fn keys_of(acc: Seq<BlockM>) -> Seq<KeySpecM> {
    acc.map_values(|b: BlockM| b.key)
}

/// No key marked `once` repeats among the keys opened at one level.
pub open spec fn once_ok(ks: Seq<KeySpecM>) -> bool {
    forall|m: int, m2: int|
        0 <= m < m2 < ks.len() && (#[trigger] ks[m2]).once ==> (#[trigger] ks[m]).id != ks[m2].id
}

/// Acceptance of a document level, independent of blocks and diagnostics:
/// the machine follows the builder's control flow, which depends only on the
/// keys opened so far, and fails exactly where the builder would report.
/// Returns acceptance, the keys opened at this level, and the cursor.
pub open spec fn calm_run(
    lines: Seq<LineM>,
    i: int,
    specs: Seq<KeySpecM>,
    level: int,
    ks: Seq<KeySpecM>,
) -> (bool, Seq<KeySpecM>, int)
    decreases lines.len() - i, 0int,
{
    if i < 0 || i >= lines.len() {
        (true, ks, i)
    } else {
        let l = lines[i];
        match l.lt {
            LtM::WithKey(id) => {
                if level_has_id(specs, id) {
                    calm_after(lines, i + 1, specs, level, ks.push(specs[find_id(specs, id)]))
                } else if level == 0 {
                    (false, ks, i)
                } else {
                    (true, ks, i)
                }
            },
            LtM::Comment => calm_after(lines, i + 1, specs, level, ks),
            LtM::Unknown => {
                if blank(l.slice) {
                    calm_after(lines, i + 1, specs, level, ks)
                } else if ks.len() > 0 {
                    if ks.last().vt == ValueType::SingleLine {
                        (false, ks, i)
                    } else {
                        calm_after(lines, i + 1, specs, level, ks)
                    }
                } else {
                    (false, ks, i)
                }
            },
        }
    }
}

/// The post-consumption step of the acceptance machine.
pub open spec fn calm_after(
    lines: Seq<LineM>,
    j: int,
    specs: Seq<KeySpecM>,
    level: int,
    ks: Seq<KeySpecM>,
) -> (bool, Seq<KeySpecM>, int)
    decreases lines.len() - j, 2int,
{
    if 0 <= j < lines.len() && lines[j].lt is WithKey && ks.len() > 0 && ks.last().subkeys.len()
        > 0 {
        let sub = calm_build(lines, j, ks.last().subkeys, level + 1);
        let j2 = if sub.1 < j {
            j
        } else if sub.1 > lines.len() {
            lines.len() as int
        } else {
            sub.1
        };
        if !sub.0 {
            (false, ks, j2)
        } else {
            calm_run(lines, j2, specs, level, ks)
        }
    } else {
        calm_run(lines, j, specs, level, ks)
    }
}

/// Acceptance of one whole level, including the duplicate check.
pub open spec fn calm_build(lines: Seq<LineM>, i: int, specs: Seq<KeySpecM>, level: int) -> (
    bool,
    int,
)
    decreases lines.len() - i, 1int,
{
    let r = calm_run(lines, i, specs, level, Seq::empty());
    (r.0 && once_ok(r.1), r.2)
}

/// On an accepted level, the builder adds no diagnostic, opens exactly the
/// accepted keys, and stops where the acceptance machine stops.
pub proof fn lemma_calm_run_no_errors(
    lines: Seq<LineM>,
    i: int,
    specs: Seq<KeySpecM>,
    level: int,
    acc: Seq<BlockM>,
    errs: Seq<ErrM>,
)
    requires
        calm_run(lines, i, specs, level, keys_of(acc)).0,
    ensures
        ({
            let r = run_level(lines, i, specs, level, acc, errs);
            let c = calm_run(lines, i, specs, level, keys_of(acc));
            r.1 == errs && keys_of(r.0) == c.1 && r.2 == c.2
        }),
    decreases lines.len() - i, 0int,
{
    let ks = keys_of(acc);
    assert(ks.len() == acc.len());
    if 0 <= i < lines.len() {
        let l = lines[i];
        match l.lt {
            LtM::WithKey(id) => {
                if level_has_id(specs, id) {
                    let k = specs[find_id(specs, id)];
                    let acc2 = acc.push(new_block(k, l));
                    assert(keys_of(acc2) =~= ks.push(k));
                    lemma_calm_after_no_errors(lines, i + 1, specs, level, acc2, errs);
                }
            },
            LtM::Comment => {
                lemma_calm_after_no_errors(lines, i + 1, specs, level, acc, errs);
            },
            LtM::Unknown => {
                if blank(l.slice) {
                    lemma_calm_after_no_errors(lines, i + 1, specs, level, acc, errs);
                } else if acc.len() > 0 {
                    assert(ks.last() == acc.last().key);
                    if acc.last().key.vt != ValueType::SingleLine {
                        let acc2 = acc.update(acc.len() - 1, fold_line(acc.last(), l));
                        assert(keys_of(acc2) =~= ks);
                        lemma_calm_after_no_errors(lines, i + 1, specs, level, acc2, errs);
                    }
                }
            },
        }
    }
}

pub proof fn lemma_calm_after_no_errors(
    lines: Seq<LineM>,
    j: int,
    specs: Seq<KeySpecM>,
    level: int,
    acc: Seq<BlockM>,
    errs: Seq<ErrM>,
)
    requires
        calm_after(lines, j, specs, level, keys_of(acc)).0,
    ensures
        ({
            let r = after_consume(lines, j, specs, level, acc, errs);
            let c = calm_after(lines, j, specs, level, keys_of(acc));
            r.1 == errs && keys_of(r.0) == c.1 && r.2 == c.2
        }),
    decreases lines.len() - j, 2int,
{
    let ks = keys_of(acc);
    assert(ks.len() == acc.len());
    if 0 <= j < lines.len() && lines[j].lt is WithKey && acc.len() > 0 && acc.last(
    ).key.subkeys.len() > 0 {
        assert(ks.last() == acc.last().key);
        let sub = build_level(lines, j, acc.last().key.subkeys, level + 1);
        let csub = calm_build(lines, j, acc.last().key.subkeys, level + 1);
        lemma_calm_build_no_errors(lines, j, acc.last().key.subkeys, level + 1);
        assert(sub.1 == Seq::<ErrM>::empty() && sub.2 == csub.1);
        let j2 = if sub.2 < j {
            j
        } else if sub.2 > lines.len() {
            lines.len() as int
        } else {
            sub.2
        };
        let acc2 = acc.update(acc.len() - 1, with_subblocks(acc.last(), sub.0));
        assert(keys_of(acc2) =~= ks);
        assert(errs + sub.1 =~= errs);
        lemma_calm_run_no_errors(lines, j2, specs, level, acc2, errs + sub.1);
    } else {
        lemma_calm_run_no_errors(lines, j, specs, level, acc, errs);
    }
}

pub proof fn lemma_calm_build_no_errors(lines: Seq<LineM>, i: int, specs: Seq<KeySpecM>, level: int)
    requires
        calm_build(lines, i, specs, level).0,
    ensures
        build_level(lines, i, specs, level).1 == Seq::<ErrM>::empty(),
        build_level(lines, i, specs, level).2 == calm_build(lines, i, specs, level).1,
    decreases lines.len() - i, 1int,
{
    assert(keys_of(Seq::empty()) =~= Seq::<KeySpecM>::empty());
    lemma_calm_run_no_errors(lines, i, specs, level, Seq::empty(), Seq::empty());
    let r = run_level(lines, i, specs, level, Seq::empty(), Seq::empty());
    let c = calm_run(lines, i, specs, level, Seq::empty());
    assert(once_ok(c.1));
    assert(keys_of(r.0) == c.1);
    assert(r.0.len() == c.1.len());
    assert forall|m: int, m2: int|
        0 <= m < m2 < r.0.len() && (#[trigger] r.0[m2]).key.once implies (
    #[trigger] r.0[m]).key.id != r.0[m2].key.id by {
        assert(c.1[m] == r.0[m].key && c.1[m2] == r.0[m2].key);
    }
    assert forall|m: int|
        0 <= m < r.0.len() && (#[trigger] r.0[m]).key.once implies !Seq::<Seq<char>>::empty(
    ).contains(r.0[m].key.id) by {}
    lemma_dedup_clean(r.0, level, Seq::empty());
    assert(run_level(lines, i, specs, level, Seq::empty(), Seq::empty()).1
        + dedup_from(r.0, level, Seq::empty()).1 =~= Seq::<ErrM>::empty());
}

/// A document the acceptance machine admits in full — every line inert, or a
/// key line valid at its level, or a value line after a fitting key, with no
/// repeated `once` key anywhere — parses with an empty diagnostics list.
pub proof fn lemma_clean_document_no_diagnostics(lines: Seq<LineM>, specs: Seq<KeySpecM>)
    requires
        calm_build(lines, 0, specs, 0).0,
    ensures
        built(lines, specs).1 == Seq::<ErrM>::empty(),
{
    lemma_calm_build_no_errors(lines, 0, specs, 0);
    assert(sort_errs(Seq::<ErrM>::empty()) == Seq::<ErrM>::empty());
}

/// A non-blank line after a single-line key is rejected: the builder records
/// exactly one `InvalidMultilineContent` diagnostic pointing at that line,
/// and does not append the line to any block's text — the collected blocks
/// go on unchanged.
pub proof fn lemma_single_line_rejects_content(
    lines: Seq<LineM>,
    i: int,
    specs: Seq<KeySpecM>,
    level: int,
    acc: Seq<BlockM>,
    errs: Seq<ErrM>,
)
    requires
        0 <= i < lines.len(),
        lines[i].lt is Unknown,
        acc.len() > 0,
        acc.last().key.vt == ValueType::SingleLine,
        !blank(lines[i].slice),
    ensures
        run_level(lines, i, specs, level, acc, errs) == after_consume(
            lines,
            i + 1,
            specs,
            level,
            acc,
            errs.push(err_imc(acc.last().key.id, lines[i].index, lines[i].slice.len() as int)),
        ),
{
}

/// The trailing lines in `[i, j)` that a multiline block folds in: the
/// non-blank unclassified ones, in order; comments and blank lines pass
/// with no effect.
pub open spec fn fold_lines_of(lines: Seq<LineM>, i: int, j: int) -> Seq<LineM>
    decreases j - i,
{
    if i < 0 || i >= j {
        Seq::empty()
    } else {
        let rest = fold_lines_of(lines, i + 1, j);
        if lines[i].lt is Unknown && !blank(lines[i].slice) {
            seq![lines[i]] + rest
        } else {
            rest
        }
    }
}

/// The last block after such a run: the folded lines' slices appended in
/// order and the range extended to the last of them; unchanged if the run
/// held nothing to fold.
pub open spec fn folded_run(b: BlockM, lines: Seq<LineM>, i: int, j: int) -> BlockM {
    let fs = fold_lines_of(lines, i, j);
    if fs.len() == 0 {
        b
    } else {
        BlockM {
            text: b.text + fs.map_values(|l: LineM| l.slice),
            range: RangeM {
                end_line: fs.last().index,
                end_char: fs.last().slice.len() as int,
                ..b.range
            },
            ..b
        }
    }
}

/// A multiline key without subkeys accumulates every following non-blank
/// unclassified line: after the run `lines[i .. j]` of unclassified and
/// comment lines, exactly the non-blank unclassified ones stand in the last
/// block's text, in input order, and its range end is the last of them;
/// interleaved comments and blank lines leave no trace, and no diagnostic
/// is emitted.
pub proof fn lemma_multiline_accumulates(
    lines: Seq<LineM>,
    i: int,
    j: int,
    specs: Seq<KeySpecM>,
    level: int,
    acc: Seq<BlockM>,
    errs: Seq<ErrM>,
)
    requires
        0 <= i < j <= lines.len(),
        forall|k: int|
            i <= k < j ==> ((#[trigger] lines[k].lt) is Unknown || lines[k].lt is Comment),
        acc.len() > 0,
        acc.last().key.vt == ValueType::Multiline,
        acc.last().key.subkeys.len() == 0,
    ensures
        run_level(lines, i, specs, level, acc, errs) == run_level(
            lines,
            j,
            specs,
            level,
            acc.update(acc.len() - 1, folded_run(acc.last(), lines, i, j)),
            errs,
        ),
    decreases j - i,
{
    let l = lines[i];
    let last = acc.last();
    let skipped = l.lt is Comment || blank(l.slice);
    let acc1 = if skipped {
        acc
    } else {
        acc.update(acc.len() - 1, fold_line(last, l))
    };
    assert(run_level(lines, i, specs, level, acc, errs) == after_consume(
        lines,
        i + 1,
        specs,
        level,
        acc1,
        errs,
    ));
    assert(acc1.len() == acc.len() && acc1.last().key == last.key);
    assert(after_consume(lines, i + 1, specs, level, acc1, errs) == run_level(
        lines,
        i + 1,
        specs,
        level,
        acc1,
        errs,
    )) by {
        if i + 1 < lines.len() && lines[i + 1].lt is WithKey {
            assert(acc1.last().key.subkeys.len() == 0);
        }
    }
    let fs = fold_lines_of(lines, i, j);
    let fs1 = fold_lines_of(lines, i + 1, j);
    if i + 1 == j {
        assert(fs1.len() == 0);
        if skipped {
            assert(fs.len() == 0);
            assert(folded_run(last, lines, i, j) == last);
            assert(acc.update(acc.len() - 1, last) =~= acc);
        } else {
            assert(fs =~= seq![l]);
            assert(fs.map_values(|x: LineM| x.slice) =~= seq![l.slice]);
            assert(folded_run(last, lines, i, j).text =~= fold_line(last, l).text);
            assert(folded_run(last, lines, i, j) == fold_line(last, l));
        }
    } else {
        lemma_multiline_accumulates(lines, i + 1, j, specs, level, acc1, errs);
        let f1 = folded_run(acc1.last(), lines, i + 1, j);
        let f0 = folded_run(last, lines, i, j);
        assert(f1 == f0) by {
            if skipped {
                assert(fs == fs1);
            } else {
                assert(fs == seq![l] + fs1);
                if fs1.len() == 0 {
                    assert(fs =~= seq![l]);
                    assert(fs.map_values(|x: LineM| x.slice) =~= seq![l.slice]);
                    assert(f1 == fold_line(last, l));
                    assert(f0.text =~= fold_line(last, l).text);
                } else {
                    assert(fs.last() == fs1.last());
                    assert(f0.text =~= fold_line(last, l).text + fs1.map_values(
                        |x: LineM| x.slice,
                    ));
                    assert(f1.text =~= fold_line(last, l).text + fs1.map_values(
                        |x: LineM| x.slice,
                    ));
                }
            }
        }
        assert(acc1.update(acc1.len() - 1, f1) =~= acc.update(acc.len() - 1, f0));
    }
}

/// First key of this level bearing the identifier, as the model counts it.
fn find_level_key(specs: &Vec<KeySpec>, id: &str) -> (r: Option<usize>)
    ensures
        match r {
            Some(j) => j as int == find_id(keys_view(specs@), id@) && j < specs@.len(),
            None => find_id(keys_view(specs@), id@) < 0,
        },
{
    proof {
        lemma_keys_view(specs@);
        lemma_find_id(keys_view(specs@), id@);
    }
    let ghost sm = keys_view(specs@);
    let mut j: usize = 0;
    while j < specs.len()
        invariant
            0 <= j <= specs@.len(),
            sm == keys_view(specs@),
            sm.len() == specs@.len(),
            forall|m: int| 0 <= m < specs@.len() ==> sm[m] == key_view(specs@[m]),
            forall|m: int| 0 <= m < j ==> sm[m].id != id@,
            find_id(sm, id@) >= 0 ==> 0 <= find_id(sm, id@) < sm.len() && sm[find_id(
                sm,
                id@,
            )].id == id@ && (forall|m: int| 0 <= m < find_id(sm, id@) ==> sm[m].id != id@),
            find_id(sm, id@) < 0 ==> (forall|m: int| 0 <= m < sm.len() ==> sm[m].id != id@),
        decreases specs@.len() - j,
    {
        if str_eq(specs[j].id.as_str(), id) {
            proof {
                assert(sm[j as int].id == id@);
                let f = find_id(sm, id@);
                assert(f >= 0);
                assert(f == j) by {
                    if f < j {
                        assert(sm[f].id != id@);
                    }
                    if f > j {
                        assert(sm[j as int].id != id@);
                    }
                }
            }
            return Some(j);
        }
        j = j + 1;
    }
    proof {
        if find_id(sm, id@) >= 0 {
            assert(sm[find_id(sm, id@)].id != id@);
        }
    }
    None
}

/// Whether the line holds only whitespace.
fn is_blank_line(s: &str) -> (r: bool)
    ensures
        r == blank(s@),
{
    let t = trim_str(s);
    t.as_str().unicode_len() == 0
}

/// Whether the key appears (as a whole model value) in the specification
/// level; blocks only ever hold keys of the level that opened them.
pub open spec fn key_in(k: KeySpecM, sm: Seq<KeySpecM>) -> bool {
    exists|x: int| 0 <= x < sm.len() && sm[x] == k
}

/// The recursive builder for one level: collects blocks and errors from
/// `start` until the input ends or a key of a shallower level appears, then
/// drops duplicated `once` keys.  Returns blocks, errors and the cursor
/// where this level stopped.
fn build_subtree(lines: &Vec<Line>, start: usize, specs: &Vec<KeySpec>, level: u8) -> (r: (
    Vec<Block>,
    Vec<ParseError>,
    usize,
))
    requires
        lines_ok(lines_view(lines@)),
        start <= lines@.len(),
        level as int + keys_depth(keys_view(specs@)) <= 256,
    ensures
        ({
            let b = build_level(lines_view(lines@), start as int, keys_view(specs@), level as int);
            blocks_view(r.0@) == b.0 && errs_view(r.1@) == b.1 && r.2 as int == b.2
        }),
        start <= r.2 <= lines@.len(),
    decreases lines@.len() - start,
{
    let ghost lm = lines_view(lines@);
    let ghost sm = keys_view(specs@);
    let ghost lv = level as int;
    proof {
        lemma_keys_view(specs@);
        assert(forall|m: int| 0 <= m < lines@.len() ==> lm[m] == line_view(lines@[m]));
    }
    let mut blocks: Vec<Block> = Vec::new();
    let mut errors: Vec<ParseError> = Vec::new();
    let mut cur: usize = start;
    proof {
        assert(blocks_view(blocks@) =~= Seq::<BlockM>::empty());
        assert(errs_view(errors@) =~= Seq::<ErrM>::empty());
    }
    loop
        invariant
            start <= cur <= lines@.len(),
            lm == lines_view(lines@),
            lm.len() == lines@.len(),
            lines_ok(lm),
            forall|m: int| 0 <= m < lines@.len() ==> lm[m] == line_view(lines@[m]),
            sm == keys_view(specs@),
            sm.len() == specs@.len(),
            forall|m: int| 0 <= m < specs@.len() ==> sm[m] == key_view(specs@[m]),
            lv == level as int,
            lv + keys_depth(sm) <= 256,
            blocks_view(blocks@).len() == blocks@.len(),
            forall|m: int|
                0 <= m < blocks@.len() ==> key_in(
                    (#[trigger] blocks_view(blocks@)[m]).key,
                    sm,
                ),
            forall|m: int|
                0 <= m < blocks@.len() ==> (#[trigger] blocks_view(blocks@)[m]).key.id.len()
                    <= u32::MAX as int,
            run_level(lm, start as int, sm, lv, Seq::empty(), Seq::empty()) == run_level(
                lm,
                cur as int,
                sm,
                lv,
                blocks_view(blocks@),
                errs_view(errors@),
            ),
        ensures
            start <= cur <= lines@.len(),
            blocks_view(blocks@).len() == blocks@.len(),
            forall|m: int|
                0 <= m < blocks@.len() ==> (#[trigger] blocks_view(blocks@)[m]).key.id.len()
                    <= u32::MAX as int,
            run_level(lm, start as int, sm, lv, Seq::empty(), Seq::empty()) == (
                blocks_view(blocks@),
                errs_view(errors@),
                cur as int,
            ),
        decreases lines@.len() - cur,
    {
        let ghost cur0 = cur as int;
        let ghost bv0 = blocks_view(blocks@);
        let ghost ev0 = errs_view(errors@);
        if cur == lines.len() {
            proof {
                assert(run_level(lm, cur0, sm, lv, bv0, ev0) == (bv0, ev0, cur0));
            }
            break;
        }
        let ghost lmc = lm[cur0];
        proof {
            assert(lmc == line_view(lines@[cur0 as int]));
        }
        let line_index = lines[cur].index;
        let slen = lines[cur].slice.as_str().unicode_len();
        proof {
            assert(line_index as int == lmc.index);
            assert(slen as int == lmc.slice.len() as int);
        }
        match &lines[cur].lt {
            LineType::WithKey(id) => {
                proof {
                    assert(lmc.lt == LtM::WithKey(id@));
                    assert(id@.len() <= lmc.slice.len());
                }
                match find_level_key(specs, id.as_str()) {
                    Some(j) => {
                        let n = id.as_str().unicode_len();
                        let rem = lines[cur].slice.as_str().substring_char(n, slen);
                        let value = trim_str(rem);
                        let mut text: Vec<String> = Vec::new();
                        text.push(value);
                        let kc = clone_key(&specs[j]);
                        let b = Block {
                            key: kc,
                            text,
                            range: crate::range_on_line_with_length(line_index as u32, slen as u32),
                            subblocks: Vec::new(),
                        };
                        let ghost prevb = blocks@;
                        blocks.push(b);
                        cur = cur + 1;
                        proof {
                            lemma_blocks_view_push(prevb, b);
                            lemma_find_id(sm, id@);
                            assert(sm[j as int].id == id@);
                            assert(lmc.index <= u32::MAX as int);
                            assert(lmc.slice.len() <= u32::MAX as int);
                            assert(lmc.slice.subrange(n as int, slen as int) =~= lmc.slice.skip(
                                id@.len() as int,
                            ));
                            assert(str_views(b.text@) =~= seq![
                                trimmed(lmc.slice.skip(id@.len() as int)),
                            ]);
                            assert(blocks_view(b.subblocks@) =~= Seq::<BlockM>::empty());
                            assert(block_view(b) == new_block(sm[j as int], lmc));
                            assert(level_has_id(sm, id@));
                            assert(blocks_view(blocks@) == bv0.push(new_block(sm[j as int], lmc)));
                            assert(run_level(lm, cur0, sm, lv, bv0, ev0) == after_consume(
                                lm,
                                cur as int,
                                sm,
                                lv,
                                blocks_view(blocks@),
                                errs_view(errors@),
                            ));
                        }
                    },
                    None => {
                        if level == 0 {
                            let mut parent = String::new();
                            parent.append("??");
                            let idlen = id.as_str().unicode_len();
                            let e = ParseError {
                                range: crate::range_on_line_with_length(
                                    line_index as u32,
                                    idlen as u32,
                                ),
                                some_file: None,
                                error: ParseErrorType::WrongKeyPosition(id.clone(), parent),
                            };
                            let ghost preve = errors@;
                            errors.push(e);
                            cur = cur + 1;
                            proof {
                                assert(errors@ =~= preve.push(e));
                                assert(errs_view(errors@) =~= ev0.push(err_view(e)));
                                assert(err_view(e).error == ErrTypeM::WrongKeyPosition(
                                    id@,
                                    parent_placeholder(),
                                ));
                                assert(err_view(e) == err_wkp(id@, lmc.index));
                                assert(!level_has_id(sm, id@));
                                assert(run_level(lm, cur0, sm, lv, bv0, ev0) == after_consume(
                                    lm,
                                    cur as int,
                                    sm,
                                    lv,
                                    blocks_view(blocks@),
                                    errs_view(errors@),
                                ));
                            }
                        } else {
                            proof {
                                assert(!level_has_id(sm, id@));
                                assert(run_level(lm, cur0, sm, lv, bv0, ev0) == (bv0, ev0, cur0));
                            }
                            break;
                        }
                    },
                }
            },
            LineType::Comment => {
                cur = cur + 1;
                proof {
                    assert(lmc.lt == LtM::Comment);
                    assert(run_level(lm, cur0, sm, lv, bv0, ev0) == after_consume(
                        lm,
                        cur as int,
                        sm,
                        lv,
                        bv0,
                        ev0,
                    ));
                }
            },
            LineType::Unknown => {
                proof {
                    assert(lmc.lt == LtM::Unknown);
                }
                let blank_here = is_blank_line(lines[cur].slice.as_str());
                if blank_here {
                    // an entirely-whitespace line is consumed and ignored
                    cur = cur + 1;
                    proof {
                        assert(run_level(lm, cur0, sm, lv, bv0, ev0) == after_consume(
                            lm,
                            cur as int,
                            sm,
                            lv,
                            bv0,
                            ev0,
                        ));
                    }
                } else if blocks.len() > 0 {
                    proof {
                        lemma_blocks_view(blocks@);
                        assert(blocks_view(blocks@).last() == block_view(blocks@.last()));
                    }
                    let single = match blocks[blocks.len() - 1].key.vt {
                        ValueType::SingleLine => true,
                        ValueType::Multiline => false,
                    };
                    proof {
                        assert(single == (bv0.last().key.vt == ValueType::SingleLine));
                    }
                    if single {
                        let imc_id = blocks[blocks.len() - 1].key.id.clone();
                        let e = ParseError {
                            range: crate::range_on_line_with_length(
                                line_index as u32,
                                slen as u32,
                            ),
                            some_file: None,
                            error: ParseErrorType::InvalidMultilineContent(imc_id),
                        };
                        let ghost preve = errors@;
                        errors.push(e);
                        proof {
                            assert(errors@ =~= preve.push(e));
                            assert(errs_view(errors@) =~= ev0.push(err_view(e)));
                            assert(err_view(e) == err_imc(
                                bv0.last().key.id,
                                lmc.index,
                                lmc.slice.len() as int,
                            ));
                        }
                        cur = cur + 1;
                        proof {
                            assert(run_level(lm, cur0, sm, lv, bv0, ev0) == after_consume(
                                lm,
                                cur as int,
                                sm,
                                lv,
                                bv0,
                                errs_view(errors@),
                            ));
                        }
                    } else {
                        let ghost pre_pop = blocks@;
                        let mut last = blocks.pop().unwrap();
                        let ghost lastm = block_view(last);
                        proof {
                            assert(lastm == bv0.last());
                            assert(blocks_view(blocks@) == bv0.drop_last());
                        }
                        last.text.push(lines[cur].slice.clone());
                        last.range.end.line = line_index as u32;
                        last.range.end.character = slen as u32;
                        proof {
                            assert(str_views(last.text@) =~= lastm.text.push(lmc.slice));
                            assert(block_view(last) == fold_line(lastm, lmc));
                        }
                        let ghost prevb = blocks@;
                        blocks.push(last);
                        cur = cur + 1;
                        proof {
                            lemma_blocks_view_push(prevb, last);
                            assert(blocks_view(blocks@) == bv0.drop_last().push(
                                fold_line(bv0.last(), lmc),
                            ));
                            assert(bv0.drop_last().push(fold_line(bv0.last(), lmc)) =~= bv0.update(
                                bv0.len() - 1,
                                fold_line(bv0.last(), lmc),
                            ));
                            assert(run_level(lm, cur0, sm, lv, bv0, ev0) == after_consume(
                                lm,
                                cur as int,
                                sm,
                                lv,
                                blocks_view(blocks@),
                                ev0,
                            ));
                        }
                    }
                } else {
                    let e = ParseError {
                        range: crate::range_on_line_with_length(line_index as u32, slen as u32),
                        some_file: None,
                        error: ParseErrorType::ContentOutOfKey,
                    };
                    let ghost preve = errors@;
                    errors.push(e);
                    proof {
                        assert(errors@ =~= preve.push(e));
                        assert(errs_view(errors@) =~= ev0.push(err_view(e)));
                        assert(err_view(e) == err_cok(lmc.index, lmc.slice.len() as int));
                    }
                    cur = cur + 1;
                    proof {
                        assert(run_level(lm, cur0, sm, lv, bv0, ev0) == after_consume(
                            lm,
                            cur as int,
                            sm,
                            lv,
                            bv0,
                            errs_view(errors@),
                        ));
                    }
                }
            },
        }
        // Maybe descend into the last block's subkeys for the next key line.
        let ghost bv1 = blocks_view(blocks@);
        let ghost ev1 = errs_view(errors@);
        let ghost cur1 = cur as int;
        proof {
            assert(run_level(lm, cur0, sm, lv, bv0, ev0) == after_consume(lm, cur1, sm, lv, bv1, ev1));
            assert(cur1 >= start as int + 1);
        }
        let next_is_key = if cur < lines.len() {
            match &lines[cur].lt {
                LineType::WithKey(_) => true,
                _ => false,
            }
        } else {
            false
        };
        proof {
            assert(next_is_key == (cur1 < lm.len() && lm[cur1].lt is WithKey));
        }
        if next_is_key && blocks.len() > 0 {
            proof {
                lemma_blocks_view(blocks@);
                assert(blocks_view(blocks@).last() == block_view(blocks@.last()));
                lemma_keys_view(blocks@.last().key.subkeys@);
            }
            let has_subs = blocks[blocks.len() - 1].key.subkeys.len() > 0;
            proof {
                assert(has_subs == (bv1.last().key.subkeys.len() > 0));
            }
            if has_subs {
                let ghost pre_pop = blocks@;
                let mut last = blocks.pop().unwrap();
                proof {
                    assert(block_view(last) == bv1.last());
                    assert(blocks_view(blocks@) == bv1.drop_last());
                    assert(keys_view(last.key.subkeys@) == bv1.last().key.subkeys);
                    let x = choose|x: int| 0 <= x < sm.len() && sm[x] == bv1.last().key;
                    lemma_keys_depth_sub(sm, x);
                    lemma_keys_depth_nonneg(sm[x].subkeys);
                    assert(level as int + 1 + keys_depth(keys_view(last.key.subkeys@)) <= 256);
                    assert(keys_depth(keys_view(last.key.subkeys@)) >= 1);
                    assert(level as int + 1 <= 255);
                }
                let (sb, se, nc) = build_subtree(lines, cur, &last.key.subkeys, level + 1);
                last.subblocks = sb;
                // the block's range now reaches its farthest descendant
                if last.subblocks.len() > 0 {
                    let n = last.subblocks.len();
                    let far = last.subblocks[n - 1].range.end;
                    last.range.end = far;
                }
                let ghost prevb = blocks@;
                blocks.push(last);
                let mut se2 = se;
                let ghost se_err = errs_view(se2@);
                errors.append(&mut se2);
                proof {
                    lemma_blocks_view_push(prevb, last);
                    let subm = keys_view(last.key.subkeys@);
                    let sub = build_level(lm, cur1, subm, lv + 1);
                    lemma_blocks_view(last.subblocks@);
                    assert(blocks_view(last.subblocks@) == sub.0);
                    if sub.0.len() > 0 {
                        assert(block_view(last.subblocks@.last()) == sub.0.last());
                    }
                    assert(block_view(last) == with_subblocks(bv1.last(), sub.0));
                    assert(blocks_view(blocks@) == bv1.drop_last().push(
                        with_subblocks(bv1.last(), sub.0),
                    ));
                    assert(bv1.drop_last().push(with_subblocks(bv1.last(), sub.0)) =~= bv1.update(
                        bv1.len() - 1,
                        with_subblocks(bv1.last(), sub.0),
                    ));
                    assert(errs_view(errors@) =~= ev1 + se_err);
                    assert(se_err == sub.1);
                    assert(nc as int == sub.2);
                    assert(cur1 <= sub.2 <= lm.len());
                    assert(after_consume(lm, cur1, sm, lv, bv1, ev1) == run_level(
                        lm,
                        nc as int,
                        sm,
                        lv,
                        blocks_view(blocks@),
                        errs_view(errors@),
                    ));
                }
                cur = nc;
            } else {
                proof {
                    assert(after_consume(lm, cur1, sm, lv, bv1, ev1) == run_level(
                        lm,
                        cur1,
                        sm,
                        lv,
                        bv1,
                        ev1,
                    ));
                }
            }
        } else {
            proof {
                assert(after_consume(lm, cur1, sm, lv, bv1, ev1) == run_level(
                    lm,
                    cur1,
                    sm,
                    lv,
                    bv1,
                    ev1,
                ));
            }
        }
    }
    // Duplicate post-pass: keep the first of each `once` key, report the rest.
    let ghost collected = blocks_view(blocks@);
    let ghost run_errs = errs_view(errors@);
    let final_cur = cur;
    let mut remaining = blocks;
    let mut kept: Vec<Block> = Vec::new();
    let mut seen: Vec<String> = Vec::new();
    proof {
        assert(blocks_view(kept@) =~= Seq::<BlockM>::empty());
        assert(str_views(seen@) =~= Seq::<Seq<char>>::empty());
        assert(collected + Seq::<BlockM>::empty() =~= collected);
        lemma_blocks_view(remaining@);
    }
    while remaining.len() > 0
        invariant
            lv == level as int,
            blocks_view(remaining@).len() == remaining@.len(),
            forall|m: int|
                0 <= m < remaining@.len() ==> blocks_view(remaining@)[m] == block_view(
                    remaining@[m],
                ),
            forall|m: int|
                0 <= m < remaining@.len() ==> (#[trigger] blocks_view(remaining@)[m]).key.id.len()
                    <= u32::MAX as int,
            ({
                let d = dedup_from(collected, lv, Seq::empty());
                let drem = dedup_from(blocks_view(remaining@), lv, str_views(seen@));
                d.0 == blocks_view(kept@) + drem.0 && run_errs + d.1 == errs_view(errors@)
                    + drem.1
            }),
        decreases remaining@.len(),
    {
        let ghost rem0 = blocks_view(remaining@);
        let ghost pre_remove = remaining@;
        let b = remaining.remove(0);
        let ghost sv0 = str_views(seen@);
        let ghost bm = rem0[0];
        proof {
            assert(remaining@ =~= pre_remove.drop_first());
            lemma_blocks_view(remaining@);
            assert(blocks_view(remaining@) =~= rem0.drop_first());
            assert(bm == block_view(b));
        }
        let is_once = b.key.once;
        let dup = if is_once {
            crate::dyspec::seen_contains(&seen, &b.key.id)
        } else {
            false
        };
        proof {
            assert(is_once == bm.key.once);
            assert(dup == (bm.key.once && sv0.contains(bm.key.id)));
        }
        if dup {
            let idlen = b.key.id.as_str().unicode_len();
            let e = ParseError {
                range: crate::range_on_line_with_length(b.range.start.line, idlen as u32),
                some_file: None,
                error: ParseErrorType::DuplicatedKey(b.key.id.clone(), level),
            };
            let ghost preve = errors@;
            errors.push(e);
            proof {
                assert(errors@ =~= preve.push(e));
                assert(errs_view(errors@) =~= errs_view(preve).push(err_view(e)));
                assert(err_view(e) == err_dup(bm.key.id, bm.range.start_line, lv));
                let d = dedup_from(collected, lv, Seq::empty());
                let dold = dedup_from(rem0, lv, sv0);
                let dnew = dedup_from(rem0.drop_first(), lv, sv0);
                assert(dold.0 == dnew.0);
                assert(dold.1 == seq![err_dup(bm.key.id, bm.range.start_line, lv)] + dnew.1);
                assert(run_errs + d.1 =~= errs_view(errors@) + dnew.1);
            }
        } else {
            if is_once {
                let idc = b.key.id.clone();
                let ghost prevs = seen@;
                seen.push(idc);
                proof {
                    assert(seen@ =~= prevs.push(b.key.id));
                    assert(str_views(seen@) =~= sv0.push(bm.key.id));
                }
            }
            let ghost prevk = kept@;
            kept.push(b);
            proof {
                lemma_blocks_view_push(prevk, b);
                let d = dedup_from(collected, lv, Seq::empty());
                let sv2 = if bm.key.once {
                    sv0.push(bm.key.id)
                } else {
                    sv0
                };
                assert(str_views(seen@) == sv2);
                let dold = dedup_from(rem0, lv, sv0);
                let dnew = dedup_from(rem0.drop_first(), lv, sv2);
                assert(dold.0 == seq![bm] + dnew.0);
                assert(dold.1 == dnew.1);
                assert(blocks_view(kept@) == blocks_view(prevk).push(bm));
                assert(d.0 =~= blocks_view(kept@) + dnew.0);
            }
        }
    }
    proof {
        assert(blocks_view(remaining@).len() == 0);
        assert(dedup_from(blocks_view(remaining@), lv, str_views(seen@)).0
            =~= Seq::<BlockM>::empty());
        assert(dedup_from(blocks_view(remaining@), lv, str_views(seen@)).1
            =~= Seq::<ErrM>::empty());
        let d = dedup_from(collected, lv, Seq::empty());
        assert(d.0 =~= blocks_view(kept@));
        assert(run_errs + d.1 =~= errs_view(errors@));
        let b = build_level(lm, start as int, sm, lv);
        assert(b.0 == d.0 && b.1 == run_errs + d.1 && b.2 == final_cur as int);
    }
    (kept, errors, final_cur)
}

/// What the tokenizer produces can always be fed to the builder, provided
/// the document is small enough for the range coordinates.
pub proof fn lemma_tokenization_ok(spec_keys: Seq<KeySpecM>, text: Seq<char>)
    requires
        text.len() <= u32::MAX,
    ensures
        lines_ok(tokenization(spec_keys, text)),
{
    lemma_lines_of_bounds(text);
    let ls = lines_of(text);
    let toks = tokenization(spec_keys, text);
    assert forall|j: int| 0 <= j < toks.len() implies (#[trigger] toks[j].index
        <= u32::MAX as int && 0 <= toks[j].index && toks[j].slice.len() <= u32::MAX as int && (
    toks[j].lt matches LtM::WithKey(id) ==> id.len() <= toks[j].slice.len())) by {
        assert(toks[j].slice == ls[j]);
        assert(ls[j].len() <= text.len());
        assert(toks[j].index == j);
        match toks[j].lt {
            LtM::WithKey(id) => {
                assert(id == first_word_of(ls[j]));
                lemma_find_from_bounds(ls[j], 0, ' ');
                assert(first_word_of(ls[j]).len() <= ls[j].len());
            },
            _ => {},
        }
    }
}

/// Build the blocks tree for the whole document: run the root level over all
/// lines and return the forest with the diagnostics sorted by position.
pub fn build_blocks_tree(spec: &ValidDYSpec, lines: Vec<Line>) -> (r: (Vec<Block>, Vec<ParseError>))
    requires
        lines_ok(lines_view(lines@)),
        keys_depth(spec.keys()) <= 256,
    ensures
        ({
            let b = built(lines_view(lines@), spec.keys());
            blocks_view(r.0@) == b.0 && errs_view(r.1@) == b.1
        }),
{
    let ks = spec.get();
    let (blocks, errors, _last) = build_subtree(&lines, 0, ks, 0);
    let sorted = sort_errors(errors);
    (blocks, sorted)
}

impl Block {
    /// All collected text lines joined with newlines, then trimmed.
    pub fn get_joined_text(&self) -> (r: String)
        ensures
            r@ == trimmed(joined_nl(str_views(self.text@))),
    {
        let joined = join_with_newlines(&self.text);
        trim_str(joined.as_str())
    }

    /// The text lines split after `split_after_lines` lines; both halves are
    /// joined with newlines and trimmed.
    pub fn get_text_with_joined_splits_at(&self, split_after_lines: usize) -> (r: (String, String))
        requires
            split_after_lines <= self.text@.len(),
        ensures
            r.0@ == trimmed(joined_nl(str_views(self.text@).take(split_after_lines as int))),
            r.1@ == trimmed(joined_nl(str_views(self.text@).skip(split_after_lines as int))),
    {
        let mut first: Vec<String> = Vec::new();
        let mut second: Vec<String> = Vec::new();
        let mut i: usize = 0;
        while i < self.text.len()
            invariant
                0 <= i <= self.text@.len(),
                i <= split_after_lines ==> str_views(first@) == str_views(self.text@).take(
                    i as int,
                ) && second@.len() == 0,
                i > split_after_lines ==> str_views(first@) == str_views(self.text@).take(
                    split_after_lines as int,
                ) && str_views(second@) == str_views(self.text@).subrange(
                    split_after_lines as int,
                    i as int,
                ),
                split_after_lines <= self.text@.len(),
            decreases self.text@.len() - i,
        {
            let s = self.text[i].clone();
            if i < split_after_lines {
                let ghost pf = first@;
                first.push(s);
                proof {
                    assert(str_views(first@) =~= str_views(pf).push(self.text@[i as int]@));
                    assert(str_views(self.text@).take(i as int).push(self.text@[i as int]@)
                        =~= str_views(self.text@).take(i as int + 1));
                }
            } else {
                let ghost ps = second@;
                second.push(s);
                proof {
                    assert(str_views(second@) =~= str_views(ps).push(self.text@[i as int]@));
                    if i == split_after_lines {
                        assert(str_views(second@) =~= str_views(self.text@).subrange(
                            split_after_lines as int,
                            i as int + 1,
                        ));
                        assert(str_views(first@) =~= str_views(self.text@).take(
                            split_after_lines as int,
                        ));
                    } else {
                        assert(str_views(second@) =~= str_views(self.text@).subrange(
                            split_after_lines as int,
                            i as int + 1,
                        ));
                    }
                }
            }
            i = i + 1;
        }
        proof {
            if split_after_lines as int == self.text@.len() {
                assert(str_views(first@) =~= str_views(self.text@).take(split_after_lines as int));
                assert(str_views(second@) =~= str_views(self.text@).skip(split_after_lines as int));
            } else {
                assert(str_views(second@) =~= str_views(self.text@).skip(split_after_lines as int));
            }
        }
        let a = join_with_newlines(&first);
        let b = join_with_newlines(&second);
        let ta = trim_str(a.as_str());
        let tb = trim_str(b.as_str());
        proof {
            assert(str_views(first@) == first@.map_values(|t: String| t@));
            assert(str_views(second@) == second@.map_values(|t: String| t@));
        }
        (ta, tb)
    }
}

fn err_le_exec(a: &ParseError, b: &ParseError) -> (r: bool)
    ensures
        r == err_le(err_view(*a), err_view(*b)),
{
    a.range.start.line < b.range.start.line || (a.range.start.line == b.range.start.line
        && a.range.start.character <= b.range.start.character)
}

proof fn lemma_insert_sorted_at(e: ErrM, s: Seq<ErrM>, p: int)
    requires
        0 <= p <= s.len(),
        forall|m: int| 0 <= m < p ==> err_le(s[m], e),
        p < s.len() ==> !err_le(s[p], e),
    ensures
        insert_sorted(e, s) == s.take(p) + seq![e] + s.skip(p),
    decreases s.len(),
{
    if s.len() == 0 {
        assert(s.take(0).len() == 0 && s.skip(0).len() == 0);
        assert(insert_sorted(e, s) =~= s.take(0) + seq![e] + s.skip(0));
    } else if p == 0 {
        assert(!err_le(s[0], e));
        assert(s.take(0).len() == 0);
        assert(s.skip(0) =~= s);
        assert(insert_sorted(e, s) =~= s.take(0) + seq![e] + s.skip(0));
    } else {
        assert(err_le(s[0], e));
        let t = s.drop_first();
        assert(forall|m: int| 0 <= m < p - 1 ==> t[m] == s[m + 1]);
        assert(p - 1 < t.len() ==> !err_le(t[p - 1], e));
        lemma_insert_sorted_at(e, t, p - 1);
        assert(insert_sorted(e, s) == seq![s[0]] + (t.take(p - 1) + seq![e] + t.skip(p - 1)));
        assert(t.take(p - 1) =~= s.take(p).drop_first());
        assert(t.skip(p - 1) =~= s.skip(p));
        assert(seq![s[0]] + (s.take(p).drop_first() + seq![e] + s.skip(p)) =~= s.take(p) + seq![e]
            + s.skip(p));
    }
}

/// Stable sort of the diagnostics by (start line, start character).
pub(crate) fn sort_errors(errs: Vec<ParseError>) -> (r: Vec<ParseError>)
    ensures
        errs_view(r@) == sort_errs(errs_view(errs@)),
{
    let ghost orig = errs_view(errs@);
    let mut rest = errs;
    let mut out: Vec<ParseError> = Vec::new();
    let total = rest.len();
    let mut i: usize = 0;
    proof {
        assert(orig.len() == total);
    }
    proof {
        assert(orig.take(0).len() == 0);
        assert(sort_errs(orig.take(0)) == Seq::<ErrM>::empty());
        assert(errs_view(out@) =~= Seq::<ErrM>::empty());
        assert(orig.skip(0) =~= orig);
        assert(errs_view(rest@) =~= orig.skip(0));
    }
    while rest.len() > 0
        invariant
            0 <= i as int <= orig.len(),
            orig.len() <= usize::MAX,
            i as int + rest@.len() == orig.len(),
            errs_view(rest@) == orig.skip(i as int),
            errs_view(out@) == sort_errs(orig.take(i as int)),
        decreases rest@.len(),
    {
        let ghost out0 = errs_view(out@);
        let e = rest.remove(0);
        proof {
            assert(orig.skip(i as int).drop_first() =~= orig.skip(i as int + 1));
            assert(errs_view(rest@) =~= orig.skip(i as int + 1));
            assert(err_view(e) == orig.skip(i as int)[0]);
            assert(err_view(e) == orig[i as int]);
        }
        let mut p: usize = 0;
        while p < out.len() && err_le_exec(&out[p], &e)
            invariant
                0 <= p <= out@.len(),
                out0 == errs_view(out@),
                out0.len() == out@.len(),
                forall|m: int| 0 <= m < p ==> err_le(out0[m], err_view(e)),
            decreases out@.len() - p,
        {
            proof {
                assert(out0[p as int] == err_view(out@[p as int]));
            }
            p = p + 1;
        }
        proof {
            if (p as int) < out0.len() {
                assert(out0[p as int] == err_view(out@[p as int]));
            }
        }
        out.insert(p, e);
        proof {
            lemma_insert_sorted_at(err_view(e), out0, p as int);
            assert(errs_view(out@) =~= out0.take(p as int) + seq![err_view(e)] + out0.skip(
                p as int,
            ));
            assert(orig.take(i as int + 1).drop_last() =~= orig.take(i as int));
            assert(orig.take(i as int + 1).last() == orig[i as int]);
            assert(sort_errs(orig.take(i as int + 1)) == insert_sorted(
                orig[i as int],
                sort_errs(orig.take(i as int)),
            ));
        }
        i = i + 1;
    }
    proof {
        assert(orig.take(orig.len() as int) =~= orig);
    }
    out
}

} // verus!
