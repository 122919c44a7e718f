//! A line-oriented, hierarchical, key-prefixed plain-text format ("DY").
//!
//! A DY document is a sequence of lines; a line whose first word is a
//! recognized *key* opens a semantic block, which may contain nested keyed
//! blocks according to a caller-supplied specification tree.  The pipeline
//! turns raw text plus a validated specification into a forest of blocks with
//! exact source ranges and a list of diagnostics.

use vstd::prelude::*;

pub mod course;
pub mod dyspec;
pub mod error;
pub mod exo;
pub mod parser;
pub mod semantic;
pub mod skill;
pub mod text;

use crate::dyspec::ValidDYSpec;
use crate::error::{ErrM, ParseError, errs_view};
use crate::parser::tokenization;
use crate::semantic::{Block, BlockM, block_view, blocks_view, built, keys_depth,
    lemma_blocks_view, lemma_blocks_wf_iff, lemma_built_wf, lemma_tokenization_ok, sort_errs,
    sort_errors, wf_block};

verus! {

/// DY documents are stored in files with this extension.
pub const FILE_EXTENSION: &'static str = "dy";

/// A zero-based (line, character) position in a document.
#[derive(Clone, Copy, Debug, PartialEq, Eq, Structural)]
pub struct TextPos {
    pub line: u32,
    pub character: u32,
}

/// A half-open span between two positions (end character is exclusive).
#[derive(Clone, Copy, Debug, PartialEq, Eq, Structural)]
pub struct TextRange {
    pub start: TextPos,
    pub end: TextPos,
}

/// Range covering one line from character 0 to `length`.
pub fn range_on_line_with_length(line: u32, length: u32) -> (r: TextRange)
    ensures
        r == (TextRange {
            start: TextPos { line, character: 0 },
            end: TextPos { line, character: length },
        }),
{
    TextRange { start: TextPos { line, character: 0 }, end: TextPos { line, character: length } }
}

/// Range from the start of `line` to character `length` of `line2`.
pub fn range_on_lines(line: u32, line2: u32, length: u32) -> (r: TextRange)
    ensures
        r == (TextRange {
            start: TextPos { line, character: 0 },
            end: TextPos { line: line2, character: length },
        }),
{
    TextRange { start: TextPos { line, character: 0 }, end: TextPos { line: line2, character: length } }
}

/// Range on one line between characters `start` and `end`.
pub fn range_on_line_part(line: u32, start: u32, end: u32) -> (r: TextRange)
    ensures
        r == (TextRange {
            start: TextPos { line, character: start },
            end: TextPos { line, character: end },
        }),
{
    TextRange { start: TextPos { line, character: start }, end: TextPos { line, character: end } }
}

/// The result of a parse: the extracted items, the diagnostics, and, when
/// there is any diagnostic, a copy of the document so errors can be shown.
#[derive(Debug, PartialEq, Eq)]
pub struct ParseResult<T> {
    pub items: Vec<T>,
    pub errors: Vec<ParseError>,
    /// The file path, if one was given, for better error display.
    pub some_file_path: Option<String>,
    /// Filled with the document text only when `errors` is not empty.
    pub some_file_content: Option<String>,
}

/// A type that can be built from a block of the tree, validating its values
/// and reporting value-level diagnostics.
pub trait FromDYBlock: Sized {
    /// The diagnostics the mapping reports for this block.
    spec fn errors_model(b: BlockM) -> Seq<ErrM>;

    /// Whether `e` is the entity this block describes.
    spec fn entity_ok(b: BlockM, e: Self) -> bool;

    /// Build the entity from the block, with the diagnostics found while
    /// validating its values.  The block must come from the builder: its
    /// text, at every depth, starts with the key line's remainder.
    fn from_block_with_validation(block: &Block) -> (r: (Vec<ParseError>, Self))
        requires
            wf_block(block_view(*block)),
        ensures
            errs_view(r.0@) == Self::errors_model(block_view(*block)),
            Self::entity_ok(block_view(*block), r.1);
}

/// The diagnostics of mapping each block, in order.
pub open spec fn mapped_errs<T: FromDYBlock>(bs: Seq<BlockM>) -> Seq<ErrM>
    decreases bs.len(),
{
    if bs.len() == 0 {
        Seq::empty()
    } else {
        T::errors_model(bs[0]) + mapped_errs::<T>(bs.drop_first())
    }
}

pub proof fn lemma_mapped_errs_take<T: FromDYBlock>(bs: Seq<BlockM>, i: int)
    requires
        0 <= i < bs.len(),
    ensures
        mapped_errs::<T>(bs.take(i + 1)) == mapped_errs::<T>(bs.take(i)) + T::errors_model(bs[i]),
    decreases i,
{
    if i == 0 {
        assert(bs.take(0).len() == 0);
        assert(mapped_errs::<T>(bs.take(0)) == Seq::<ErrM>::empty());
        let t = bs.take(1);
        assert(t[0] == bs[0]);
        assert(t.drop_first() =~= bs.take(0));
        assert(mapped_errs::<T>(t) == T::errors_model(bs[0]) + mapped_errs::<T>(bs.take(0)));
        assert(T::errors_model(bs[0]) + mapped_errs::<T>(bs.take(0)) =~= mapped_errs::<T>(
            bs.take(0),
        ) + T::errors_model(bs[0]));
    } else {
        lemma_mapped_errs_take::<T>(bs.drop_first(), i - 1);
        let a = bs.take(i + 1);
        let b = bs.take(i);
        assert(a[0] == bs[0] && b[0] == bs[0]);
        assert(a.drop_first() =~= bs.drop_first().take(i));
        assert(b.drop_first() =~= bs.drop_first().take(i - 1));
        assert(bs.drop_first()[i - 1] == bs[i]);
        assert(mapped_errs::<T>(a) == T::errors_model(bs[0]) + mapped_errs::<T>(
            bs.drop_first().take(i),
        ));
        assert(mapped_errs::<T>(b) == T::errors_model(bs[0]) + mapped_errs::<T>(
            bs.drop_first().take(i - 1),
        ));
        assert(T::errors_model(bs[0]) + (mapped_errs::<T>(bs.drop_first().take(i - 1))
            + T::errors_model(bs[i])) =~= (T::errors_model(bs[0]) + mapped_errs::<T>(
            bs.drop_first().take(i - 1),
        )) + T::errors_model(bs[i]));
    }
}

/// Parse `content` against a validated specification and map every root
/// block to an item of type `T`; structural and value-level diagnostics are
/// merged and sorted by position, and the document text is kept in the
/// result only when there is something to report.
pub fn parse_with_spec<T: FromDYBlock>(
    spec: &ValidDYSpec,
    some_file: &Option<String>,
    content: &str,
) -> (r: ParseResult<T>)
    requires
        content@.len() <= u32::MAX,
        keys_depth(spec.keys()) <= 256,
    ensures
        ({
            let b = built(tokenization(spec.keys(), content@), spec.keys());
            &&& r.items@.len() == b.0.len()
            &&& (forall|i: int|
                0 <= i < b.0.len() ==> T::entity_ok(b.0[i], #[trigger] r.items@[i]))
            &&& errs_view(r.errors@) == sort_errs(b.1 + mapped_errs::<T>(b.0))
            &&& r.some_file_path == *some_file
            &&& (errs_view(r.errors@).len() == 0 ==> r.some_file_content is None)
            &&& (errs_view(r.errors@).len() > 0 ==> (r.some_file_content matches Some(c)
                && c@ == content@))
        }),
{
    let ghost toks = tokenization(spec.keys(), content@);
    let ghost b = built(toks, spec.keys());
    proof {
        lemma_tokenization_ok(spec.keys(), content@);
    }
    let lines = parser::tokenize_into_lines(spec, content);
    let (blocks, errors0) = semantic::build_blocks_tree(spec, lines);
    let ghost bm = b.0;
    proof {
        lemma_blocks_view(blocks@);
        assert(blocks_view(blocks@) == bm);
        assert(blocks_view(blocks@).len() == blocks@.len());
        lemma_built_wf(toks, spec.keys());
        lemma_blocks_wf_iff(bm);
    }
    let mut errors = errors0;
    let mut items: Vec<T> = Vec::new();
    let mut rest = blocks;
    let mut i: usize = 0;
    let total = rest.len();
    proof {
        assert(bm.len() == total);
        assert(bm.take(0).len() == 0);
        assert(mapped_errs::<T>(bm.take(0)) == Seq::<ErrM>::empty());
        assert(errs_view(errors@) =~= b.1 + mapped_errs::<T>(bm.take(0)));
        assert(forall|m: int| 0 <= m < rest@.len() ==> blocks_view(rest@)[m] == bm[m]);
    }
    while rest.len() > 0
        invariant
            0 <= i as int <= bm.len(),
            bm.len() <= usize::MAX,
            bm == b.0,
            b == built(toks, spec.keys()),
            i as int + rest@.len() == bm.len(),
            blocks_view(rest@).len() == rest@.len(),
            blocks_view(rest@) == bm.skip(i as int),
            items@.len() == i,
            forall|m: int| 0 <= m < i ==> T::entity_ok(bm[m], #[trigger] items@[m]),
            errs_view(errors@) == b.1 + mapped_errs::<T>(bm.take(i as int)),
            forall|m: int| 0 <= m < bm.len() ==> wf_block(#[trigger] bm[m]),
        decreases rest@.len(),
    {
        let ghost rem0 = blocks_view(rest@);
        let ghost pre_remove = rest@;
        let block = rest.remove(0);
        proof {
            assert(rest@ =~= pre_remove.drop_first());
            lemma_blocks_view(rest@);
            lemma_blocks_view(pre_remove);
            assert(block == pre_remove[0]);
            assert(block_view(block) == rem0[0]);
            assert(rem0[0] == bm.skip(i as int)[0]);
            assert(block_view(block) == bm[i as int]);
            assert(blocks_view(rest@) =~= rem0.drop_first());
            assert(blocks_view(rest@) =~= bm.skip(i as int + 1));
        }
        let (new_errors, entity) = T::from_block_with_validation(&block);
        let mut ne = new_errors;
        let ghost ne_m = errs_view(ne@);
        let ghost preve = errs_view(errors@);
        errors.append(&mut ne);
        items.push(entity);
        proof {
            assert(errs_view(errors@) =~= preve + ne_m);
            lemma_mapped_errs_take::<T>(bm, i as int);
            assert((b.1 + mapped_errs::<T>(bm.take(i as int))) + T::errors_model(bm[i as int])
                =~= b.1 + (mapped_errs::<T>(bm.take(i as int)) + T::errors_model(bm[i as int])));
            assert(errs_view(errors@) =~= b.1 + mapped_errs::<T>(bm.take(i as int + 1)));
        }
        i = i + 1;
    }
    proof {
        assert(bm.take(bm.len() as int) =~= bm);
    }
    let sorted = sort_errors(errors);
    let has_errors = sorted.len() > 0;
    let some_file_content = if has_errors {
        Some(content.to_owned())
    } else {
        None
    };
    let some_file_path = match some_file {
        Some(f) => Some(f.clone()),
        None => None,
    };
    proof {
        assert(errs_view(sorted@).len() == sorted@.len());
    }
    ParseResult { items, errors: sorted, some_file_path, some_file_content }
}

} // verus!
