//! The tokenizer: syntax analysis that cuts a document into classified lines,
//! honoring comment markers and fenced-code suppression, and lines into parts.

use vstd::prelude::*;
use vstd::string::StrSliceExecFns;
use vstd::string::StringExecFns;
use crate::dyspec::{KeySpec, KeySpecM, ValidDYSpec, all_valid_keys, clone_key, flat_keys,
    key_view, keys_view, lemma_keys_view, lemma_keys_view_push};
use crate::text::{find_from, first_word_of, is_prefix, lemma_find_fix, lines_of, split_into_lines,
    starts_with_str, str_eq, trim_str, trimmed};

verus! {

/// The comment marker: a line starting with it (outside fences) is inert.
pub open spec fn comment_marker() -> Seq<char> {
    "//"@
}

/// How one line is classified.
#[derive(Clone, Debug, PartialEq, Eq)]
pub enum LineType {
    /// The line starts with the identifier of a known key.  This says nothing
    /// about whether the key is valid at its position; the builder decides.
    WithKey(String),
    /// A comment outside any fenced block; it is ignored entirely.
    Comment,
    /// Content after a key line, or a line that should not be there.
    Unknown,
}

/// One physical line of the document.
#[derive(Debug, PartialEq, Eq)]
pub struct Line {
    /// Zero-based position of the line in the document.
    pub index: usize,
    /// The text of the line, without its terminator.
    pub slice: String,
    /// Its classification.
    pub lt: LineType,
}

/// A line part is a key, or any other value (after a key or not).
#[derive(Debug, PartialEq, Eq)]
pub enum LinePart {
    Key(String),
    Value(String),
}

/// Model of a classification.
pub ghost enum LtM {
    WithKey(Seq<char>),
    Comment,
    Unknown,
}

/// Model of one line.
pub ghost struct LineM {
    pub index: int,
    pub slice: Seq<char>,
    pub lt: LtM,
}

/// Model of a part.
pub ghost enum PartM {
    Key(Seq<char>),
    Value(Seq<char>),
}

/// Model of a `LineType` value.
pub open spec fn lt_view(lt: LineType) -> LtM {
    match lt {
        LineType::WithKey(id) => LtM::WithKey(id@),
        LineType::Comment => LtM::Comment,
        LineType::Unknown => LtM::Unknown,
    }
}

/// Model of a `Line` value.
pub open spec fn line_view(l: Line) -> LineM {
    LineM { index: l.index as int, slice: l.slice@, lt: lt_view(l.lt) }
}

/// Models of a list of lines.
pub open spec fn lines_view(v: Seq<Line>) -> Seq<LineM> {
    v.map_values(|l: Line| line_view(l))
}

/// Model of a `LinePart` value.
pub open spec fn part_view(p: LinePart) -> PartM {
    match p {
        LinePart::Key(s) => PartM::Key(s@),
        LinePart::Value(s) => PartM::Value(s@),
    }
}

/// Whether `line` opens or closes a fenced code block.
pub open spec fn toggles_fence(line: Seq<char>) -> bool {
    is_prefix("```"@, line) || is_prefix("~~~"@, line)
}

/// The suppression state after the first `i` lines have been read (the
/// delimiter line itself already switches the state for its own line).
pub open spec fn suppressed_after(ls: Seq<Seq<char>>, i: int) -> bool
    decreases i,
{
    if i <= 0 {
        false
    } else {
        suppressed_after(ls, i - 1) != toggles_fence(ls[i - 1])
    }
}

/// Whether some key in the list has exactly this identifier.
pub open spec fn has_id(keys: Seq<KeySpecM>, w: Seq<char>) -> bool {
    exists|j: int| 0 <= j < keys.len() && keys[j].id == w
}

/// Classification of one line, given the suppression state that already
/// accounts for the line's own fence delimiter, and the flat key list.
pub open spec fn classify(keys: Seq<KeySpecM>, line: Seq<char>, suppressed_now: bool) -> LtM {
    if suppressed_now {
        LtM::Unknown
    } else if is_prefix(comment_marker(), line) {
        LtM::Comment
    } else if has_id(keys, first_word_of(line)) {
        LtM::WithKey(first_word_of(line))
    } else {
        LtM::Unknown
    }
}

/// The full tokenization of a document against a specification: one model
/// line per physical line, in order, with original indices.
pub open spec fn tokenization(spec_keys: Seq<KeySpecM>, text: Seq<char>) -> Seq<LineM> {
    let ls = lines_of(text);
    Seq::new(
        ls.len(),
        |i: int|
            LineM {
                index: i,
                slice: ls[i],
                lt: classify(flat_keys(spec_keys), ls[i], suppressed_after(ls, i + 1)),
            },
    )
}

/// Make sure the given line starts with the key and that the key is followed
/// by nothing, a space, or a line feed.
pub open spec fn line_matches_key(prefix: Seq<char>, line: Seq<char>) -> bool {
    is_prefix(prefix, line) && (line.len() == prefix.len() || line[prefix.len() as int] == ' '
        || line[prefix.len() as int] == '\n')
}

/// Whether `line` starts with `prefix` as a full first token.
pub fn line_starts_with_key(line: &str, prefix: &str) -> (r: bool)
    ensures
        r == line_matches_key(prefix@, line@),
{
    if !starts_with_str(line, prefix) {
        return false;
    }
    let np = prefix.unicode_len();
    let nl = line.unicode_len();
    if nl == np {
        return true;
    }
    let c = line.get_char(np);
    c == ' ' || c == '\n'
}

impl Line {
    /// Split the line into parts: for a key line, the key and the trimmed
    /// remainder; otherwise the whole line as one value.
    pub fn tokenize_parts(&self) -> (r: Vec<LinePart>)
        requires
            self.lt matches LineType::WithKey(id) ==> id@.len() <= self.slice@.len(),
        ensures
            r@.map_values(|p: LinePart| part_view(p)) == parts_of(line_view(*self)),
    {
        match &self.lt {
            LineType::WithKey(id) => {
                let n = id.as_str().unicode_len();
                let len = self.slice.as_str().unicode_len();
                let key = self.slice.as_str().substring_char(0, n).to_owned();
                let rem = self.slice.as_str().substring_char(n, len);
                let value = trim_str(rem);
                let mut r: Vec<LinePart> = Vec::new();
                r.push(LinePart::Key(key));
                r.push(LinePart::Value(value));
                proof {
                    assert(self.slice@.subrange(0, n as int) =~= self.slice@.take(n as int));
                    assert(self.slice@.subrange(n as int, len as int) =~= self.slice@.skip(
                        n as int,
                    ));
                    assert(r@.map_values(|p: LinePart| part_view(p)) =~= parts_of(
                        line_view(*self),
                    ));
                }
                r
            },
            _ => {
                let mut r: Vec<LinePart> = Vec::new();
                r.push(LinePart::Value(self.slice.clone()));
                proof {
                    assert(r@.map_values(|p: LinePart| part_view(p)) =~= parts_of(
                        line_view(*self),
                    ));
                }
                r
            },
        }
    }
}

/// The parts of a line: for a key line the key token and the trimmed
/// remainder, otherwise the whole slice as one value.
pub open spec fn parts_of(l: LineM) -> Seq<PartM> {
    match l.lt {
        LtM::WithKey(id) => seq![
            PartM::Key(l.slice.take(id.len() as int)),
            PartM::Value(trimmed(l.slice.skip(id.len() as int))),
        ],
        _ => seq![PartM::Value(l.slice)],
    }
}

/// The keys of the list whose identifiers hold exactly `len` characters, in
/// their original order.
pub open spec fn keys_of_len(ks: Seq<KeySpecM>, len: int) -> Seq<KeySpecM>
    decreases ks.len(),
{
    if ks.len() == 0 {
        Seq::empty()
    } else {
        let rest = keys_of_len(ks.drop_first(), len);
        if ks[0].id.len() == len {
            seq![ks[0]] + rest
        } else {
            rest
        }
    }
}

proof fn lemma_has_id_cons(x: KeySpecM, rest: Seq<KeySpecM>, w: Seq<char>)
    ensures
        has_id(seq![x] + rest, w) <==> (x.id == w || has_id(rest, w)),
{
    let s = seq![x] + rest;
    assert(s[0] == x);
    assert(forall|m: int| 0 <= m < rest.len() ==> s[m + 1] == rest[m]);
    if has_id(s, w) {
        let j = choose|j: int| 0 <= j < s.len() && s[j].id == w;
        if j > 0 {
            assert(rest[j - 1].id == w);
        }
    }
    if has_id(rest, w) {
        let j = choose|j: int| 0 <= j < rest.len() && rest[j].id == w;
        assert(s[j + 1].id == w);
    }
}

/// Looking a word up in the group of its own length finds a key exactly when
/// the whole list holds one: a matching identifier has the word's length.
proof fn lemma_keys_of_len_has_id(ks: Seq<KeySpecM>, w: Seq<char>)
    ensures
        has_id(ks, w) <==> has_id(keys_of_len(ks, w.len() as int), w),
    decreases ks.len(),
{
    if ks.len() > 0 {
        let tail = ks.drop_first();
        lemma_keys_of_len_has_id(tail, w);
        assert(ks =~= seq![ks[0]] + tail);
        lemma_has_id_cons(ks[0], tail, w);
        let len = w.len() as int;
        if ks[0].id.len() == len {
            lemma_has_id_cons(ks[0], keys_of_len(tail, len), w);
        } else {
            assert(ks[0].id != w);
        }
    }
}

proof fn lemma_keys_of_len_take(ks: Seq<KeySpecM>, i: int, len: int)
    requires
        0 <= i < ks.len(),
    ensures
        keys_of_len(ks.take(i + 1), len) == keys_of_len(ks.take(i), len) + (if ks[i].id.len()
            == len {
            seq![ks[i]]
        } else {
            Seq::<KeySpecM>::empty()
        }),
    decreases i,
{
    if i == 0 {
        let t = ks.take(1);
        assert(t[0] == ks[0]);
        assert(t.drop_first() =~= ks.take(0));
        assert(ks.take(0).len() == 0);
        assert(keys_of_len(ks.take(0), len) == Seq::<KeySpecM>::empty());
        assert(keys_of_len(t, len) =~= keys_of_len(ks.take(0), len) + (if ks[0].id.len() == len {
            seq![ks[0]]
        } else {
            Seq::<KeySpecM>::empty()
        }));
    } else {
        lemma_keys_of_len_take(ks.drop_first(), i - 1, len);
        let a = ks.take(i + 1);
        let b = ks.take(i);
        assert(a[0] == ks[0] && b[0] == ks[0]);
        assert(a.drop_first() =~= ks.drop_first().take(i));
        assert(b.drop_first() =~= ks.drop_first().take(i - 1));
        assert(ks.drop_first()[i - 1] == ks[i]);
        let own0 = if ks[0].id.len() == len {
            seq![ks[0]]
        } else {
            Seq::<KeySpecM>::empty()
        };
        let owni = if ks[i].id.len() == len {
            seq![ks[i]]
        } else {
            Seq::<KeySpecM>::empty()
        };
        assert(keys_of_len(a, len) =~= own0 + keys_of_len(ks.drop_first().take(i), len));
        assert(keys_of_len(b, len) =~= own0 + keys_of_len(ks.drop_first().take(i - 1), len));
        assert(own0 + (keys_of_len(ks.drop_first().take(i - 1), len) + owni) =~= (own0
            + keys_of_len(ks.drop_first().take(i - 1), len)) + owni);
    }
}

/// One group of the registry: the keys with identifiers of length `len`.
fn collect_of_len(all: &Vec<KeySpec>, len: usize) -> (g: Vec<KeySpec>)
    ensures
        keys_view(g@) == keys_of_len(keys_view(all@), len as int),
{
    let ghost ks = keys_view(all@);
    proof {
        lemma_keys_view(all@);
    }
    let mut g: Vec<KeySpec> = Vec::new();
    let mut i: usize = 0;
    proof {
        assert(ks.take(0).len() == 0);
        assert(keys_of_len(ks.take(0), len as int) == Seq::<KeySpecM>::empty());
        assert(keys_view(g@) =~= Seq::<KeySpecM>::empty());
    }
    while i < all.len()
        invariant
            0 <= i <= all@.len(),
            ks == keys_view(all@),
            ks.len() == all@.len(),
            forall|m: int| 0 <= m < all@.len() ==> ks[m] == key_view(all@[m]),
            keys_view(g@) == keys_of_len(ks.take(i as int), len as int),
        decreases all@.len() - i,
    {
        proof {
            lemma_keys_of_len_take(ks, i as int, len as int);
        }
        if all[i].id.as_str().unicode_len() == len {
            let c = clone_key(&all[i]);
            let ghost prev = g@;
            g.push(c);
            proof {
                lemma_keys_view_push(prev, c);
                assert(g@ =~= prev.push(c));
                assert(keys_view(g@) =~= keys_of_len(ks.take(i as int), len as int) + seq![
                    ks[i as int],
                ]);
            }
        } else {
            proof {
                assert(keys_of_len(ks.take(i as int), len as int) + Seq::<KeySpecM>::empty()
                    =~= keys_of_len(ks.take(i as int), len as int));
            }
        }
        i = i + 1;
    }
    proof {
        assert(ks.take(ks.len() as int) =~= ks);
    }
    g
}

/// Build the registry the tokenizer reads: the keys grouped by identifier
/// length, indexed by that length, so candidates for a line are found from
/// the first word's length instead of scanning every key for every line.
fn group_keys_by_len(all: &Vec<KeySpec>) -> (r: Vec<Vec<KeySpec>>)
    ensures
        forall|len: int|
            0 <= len < r@.len() ==> keys_view((#[trigger] r@[len])@) == keys_of_len(
                keys_view(all@),
                len,
            ),
        forall|m: int|
            0 <= m < all@.len() ==> (#[trigger] keys_view(all@)[m]).id.len() < r@.len(),
{
    let ghost ks = keys_view(all@);
    proof {
        lemma_keys_view(all@);
    }
    if all.len() == 0 {
        let r: Vec<Vec<KeySpec>> = Vec::new();
        return r;
    }
    // the longest identifier bounds the groups needed
    let mut maxlen: usize = 0;
    let mut i: usize = 0;
    while i < all.len()
        invariant
            0 <= i <= all@.len(),
            ks == keys_view(all@),
            ks.len() == all@.len(),
            forall|m: int| 0 <= m < all@.len() ==> ks[m] == key_view(all@[m]),
            forall|m: int| 0 <= m < i ==> (#[trigger] ks[m]).id.len() <= maxlen,
        decreases all@.len() - i,
    {
        let n = all[i].id.as_str().unicode_len();
        if n > maxlen {
            maxlen = n;
        }
        i = i + 1;
    }
    let mut r: Vec<Vec<KeySpec>> = Vec::new();
    let mut len: usize = 0;
    loop
        invariant_except_break
            0 <= len <= maxlen,
            r@.len() == len,
        invariant
            ks == keys_view(all@),
            ks.len() == all@.len(),
            all@.len() > 0,
            r@.len() <= maxlen + 1,
            forall|m: int| 0 <= m < ks.len() ==> (#[trigger] ks[m]).id.len() <= maxlen,
            forall|l2: int|
                0 <= l2 < r@.len() ==> keys_view((#[trigger] r@[l2])@) == keys_of_len(ks, l2),
        ensures
            r@.len() == maxlen + 1,
            forall|m: int| 0 <= m < ks.len() ==> (#[trigger] ks[m]).id.len() <= maxlen,
            forall|l2: int|
                0 <= l2 < r@.len() ==> keys_view((#[trigger] r@[l2])@) == keys_of_len(ks, l2),
        decreases maxlen - len,
    {
        let g = collect_of_len(all, len);
        let ghost prevr = r@;
        r.push(g);
        proof {
            assert(r@ =~= prevr.push(g));
        }
        if len == maxlen {
            break;
        }
        len = len + 1;
    }
    r
}

/// Find a key whose identifier is exactly `w`; keys are unique, so at most
/// one can match.
fn find_key_id(keys: &Vec<KeySpec>, w: &str) -> (r: Option<usize>)
    ensures
        match r {
            Some(j) => j < keys@.len() && keys_view(keys@)[j as int].id == w@,
            None => !has_id(keys_view(keys@), w@),
        },
{
    proof {
        lemma_keys_view(keys@);
    }
    let mut j: usize = 0;
    while j < keys.len()
        invariant
            0 <= j <= keys@.len(),
            keys_view(keys@).len() == keys@.len(),
            forall|m: int| 0 <= m < keys@.len() ==> keys_view(keys@)[m] == crate::dyspec::key_view(
                keys@[m],
            ),
            forall|m: int| 0 <= m < j ==> keys_view(keys@)[m].id != w@,
        decreases keys@.len() - j,
    {
        if str_eq(keys[j].id.as_str(), w) {
            return Some(j);
        }
        j = j + 1;
    }
    None
}

/// Tokenize the whole document: one classified `Line` per physical line.
/// Classification does not check nesting: a `WithKey` line may still be at an
/// invalid position, which the block builder reports later.
pub fn tokenize_into_lines(spec: &ValidDYSpec, content: &str) -> (r: Vec<Line>)
    ensures
        lines_view(r@) == tokenization(spec.keys(), content@),
{
    let all_keys = all_valid_keys(spec.get());
    let groups = group_keys_by_len(&all_keys);
    let ghost flat = flat_keys(spec.keys());
    let raw = split_into_lines(content);
    let ghost ls = lines_of(content@);
    proof {
        assert(raw@.map_values(|t: String| t@) == ls);
        assert(raw@.len() == ls.len());
    }
    let mut out: Vec<Line> = Vec::new();
    let mut suppressed = false;
    let mut idx: usize = 0;
    proof {
        assert(lines_view(out@) =~= Seq::<LineM>::empty());
        lemma_keys_view(all_keys@);
        assert forall|m: int|
            0 <= m < flat.len() implies (#[trigger] flat[m]).id.len() < groups@.len() by {
            assert(keys_view(all_keys@)[m].id.len() < groups@.len());
        }
    }
    while idx < raw.len()
        invariant
            0 <= idx <= raw@.len(),
            ls == lines_of(content@),
            raw@.len() == ls.len(),
            forall|m: int| 0 <= m < ls.len() ==> raw@[m]@ == ls[m],
            keys_view(all_keys@) == flat,
            flat == flat_keys(spec.keys()),
            forall|len: int|
                0 <= len < groups@.len() ==> keys_view((#[trigger] groups@[len])@) == keys_of_len(
                    flat,
                    len,
                ),
            forall|m: int| 0 <= m < flat.len() ==> (#[trigger] flat[m]).id.len() < groups@.len(),
            suppressed == suppressed_after(ls, idx as int),
            lines_view(out@).len() == idx,
            forall|m: int| 0 <= m < idx ==> lines_view(out@)[m] == tokenization(
                spec.keys(),
                content@,
            )[m],
        decreases raw@.len() - idx,
    {
        let line = &raw[idx];
        let toggles = starts_with_str(line.as_str(), "```") || starts_with_str(
            line.as_str(),
            "~~~",
        );
        if toggles {
            suppressed = !suppressed;
        }
        proof {
            assert(toggles == toggles_fence(ls[idx as int]));
            assert(suppressed == suppressed_after(ls, idx as int + 1));
        }
        let lt: LineType;
        if suppressed {
            lt = LineType::Unknown;
        } else if starts_with_str(line.as_str(), "//") {
            lt = LineType::Comment;
            proof {
                assert(is_prefix(comment_marker(), ls[idx as int]));
            }
        } else {
            // extract the first word, up to the first space or the line end
            let n = line.as_str().unicode_len();
            let mut j: usize = 0;
            while j < n && line.as_str().get_char(j) != ' '
                invariant
                    0 <= j <= n,
                    n == line@.len(),
                    forall|k: int| 0 <= k < j ==> line@[k] != ' ',
                decreases n - j,
            {
                j = j + 1;
            }
            proof {
                lemma_find_fix(line@, 0, j as int, ' ');
                assert(line@.take(j as int) =~= line@.subrange(0, j as int));
            }
            let fw = line.as_str().substring_char(0, j);
            proof {
                assert(fw@.len() == j);
                assert(first_word_of(ls[idx as int]) == fw@);
            }
            if j < groups.len() {
                // only keys whose identifier has the first word's length can match
                match find_key_id(&groups[j], fw) {
                    Some(k) => {
                        let id = groups[j][k].id.clone();
                        proof {
                            lemma_keys_view(groups@[j as int]@);
                            assert(id@ == keys_view(groups@[j as int]@)[k as int].id);
                            assert(keys_view(groups@[j as int]@) == keys_of_len(flat, j as int));
                            assert(keys_of_len(flat, j as int)[k as int].id == fw@);
                            assert(has_id(keys_of_len(flat, fw@.len() as int), fw@));
                            lemma_keys_of_len_has_id(flat, fw@);
                            assert(has_id(flat, first_word_of(ls[idx as int])));
                            assert(id@ == first_word_of(ls[idx as int]));
                        }
                        lt = LineType::WithKey(id);
                    },
                    None => {
                        proof {
                            assert(keys_view(groups@[j as int]@) == keys_of_len(flat, j as int));
                            lemma_keys_of_len_has_id(flat, fw@);
                            assert(!has_id(flat, first_word_of(ls[idx as int])));
                        }
                        lt = LineType::Unknown;
                    },
                }
            } else {
                proof {
                    assert(!has_id(flat, first_word_of(ls[idx as int]))) by {
                        if has_id(flat, fw@) {
                            let x = choose|x: int| 0 <= x < flat.len() && flat[x].id == fw@;
                            assert(flat[x].id.len() < groups@.len());
                        }
                    }
                }
                lt = LineType::Unknown;
            }
        }
        let slice = line.clone();
        let new_line = Line { index: idx, slice, lt };
        let ghost prev = out@;
        out.push(new_line);
        proof {
            assert(out@ =~= prev.push(new_line));
            assert(lines_view(out@) =~= lines_view(prev).push(line_view(new_line)));
            let tok = tokenization(spec.keys(), content@);
            assert(tok.len() == ls.len());
            assert(tok[idx as int].index == idx as int);
            assert(tok[idx as int].slice == ls[idx as int]);
            assert(tok[idx as int].lt == classify(flat, ls[idx as int], suppressed_after(
                ls,
                idx as int + 1,
            )));
            assert(new_line.slice@ == ls[idx as int]);
            assert(lt_view(new_line.lt) == classify(flat, ls[idx as int], suppressed_after(
                ls,
                idx as int + 1,
            )));
            assert(line_view(new_line) == tok[idx as int]);
        }
        idx = idx + 1;
    }
    proof {
        assert(lines_view(out@) =~= tokenization(spec.keys(), content@));
    }
    out
}

/// Tokenizing is deterministic: the same text against the same specification
/// always yields the same classification sequence.
pub proof fn lemma_tokenize_deterministic(
    spec_keys: Seq<KeySpecM>,
    text: Seq<char>,
    a: Seq<LineM>,
    b: Seq<LineM>,
)
    requires
        a == tokenization(spec_keys, text),
        b == tokenization(spec_keys, text),
    ensures
        a == b,
{
}

/// Between an opening fence delimiter and the next delimiter, every line is
/// classified `Unknown`, whatever it looks like; and the closing delimiter
/// restores the state outside the fence.
pub proof fn lemma_fence_suppression(spec_keys: Seq<KeySpecM>, text: Seq<char>, a: int, b: int)
    requires
        0 <= a < b < lines_of(text).len(),
        !suppressed_after(lines_of(text), a),
        toggles_fence(lines_of(text)[a]),
        forall|i: int| a < i < b ==> !toggles_fence(lines_of(text)[i]),
        toggles_fence(lines_of(text)[b]),
    ensures
        forall|i: int| a <= i < b ==> tokenization(spec_keys, text)[i].lt is Unknown,
        !suppressed_after(lines_of(text), b + 1),
{
    let ls = lines_of(text);
    assert forall|i: int| a <= i < b implies #[trigger] suppressed_after(ls, i + 1) by {
        lemma_suppressed_run(ls, a, i);
    }
    lemma_suppressed_run(ls, a, b - 1);
    assert(suppressed_after(ls, b));
    assert(!suppressed_after(ls, b + 1));
}

/// Once a fence opens at `a` and no line up to `i` closes it, the state at
/// `i + 1` is still suppressed.
proof fn lemma_suppressed_run(ls: Seq<Seq<char>>, a: int, i: int)
    requires
        0 <= a <= i < ls.len(),
        !suppressed_after(ls, a),
        toggles_fence(ls[a]),
        forall|j: int| a < j <= i ==> !toggles_fence(ls[j]),
    ensures
        suppressed_after(ls, i + 1),
    decreases i - a,
{
    if i == a {
    } else {
        lemma_suppressed_run(ls, a, i - 1);
    }
}

} // verus!
