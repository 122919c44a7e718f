//! The DY specification model: a tree of keys, each with a value kind,
//! cardinality and nested subkeys, together with the validator that accepts
//! only non-empty trees whose key identifiers are globally unique.

use vstd::prelude::*;
use vstd::seq_lib::*;
use vstd::string::StringExecFns;
use crate::text::str_eq;

verus! {

/// How trailing unclassified lines attach to a key's block.
#[derive(Clone, Copy, Debug, PartialEq, Eq, Structural)]
pub enum ValueType {
    SingleLine,
    Multiline,
}

/// The specification of one key.
#[derive(Debug, PartialEq, Eq)]
pub struct KeySpec {
    /// The token that must appear at the start of a line, like "exo" or "course".
    pub id: String,
    /// A description of this key, meant for documentation tooling.
    pub desc: String,
    /// The keys that may appear nested under this one.
    pub subkeys: Vec<KeySpec>,
    /// Whether the value is single-line or multiline.
    pub vt: ValueType,
    /// Whether this key is permitted at most once among its siblings.
    pub once: bool,
    /// Whether this key must be present with a non-empty value.
    pub required: bool,
}

/// A specification level is an ordered list of sibling keys.
pub type DYSpec = Vec<KeySpec>;

/// The mathematical model of a key specification.
pub ghost struct KeySpecM {
    pub id: Seq<char>,
    pub desc: Seq<char>,
    pub subkeys: Seq<KeySpecM>,
    pub vt: ValueType,
    pub once: bool,
    pub required: bool,
}

/// Model of one key.
pub open spec fn key_view(k: KeySpec) -> KeySpecM
    decreases k,
{
    KeySpecM {
        id: k.id@,
        desc: k.desc@,
        subkeys: keys_view(k.subkeys@),
        vt: k.vt,
        once: k.once,
        required: k.required,
    }
}

/// Model of a list of sibling keys.
pub open spec fn keys_view(ks: Seq<KeySpec>) -> Seq<KeySpecM>
    decreases ks,
{
    if ks.len() == 0 {
        Seq::empty()
    } else {
        keys_view(ks.drop_last()).push(key_view(ks.last()))
    }
}

pub proof fn lemma_keys_view_push(v: Seq<KeySpec>, k: KeySpec)
    ensures
        keys_view(v.push(k)) == keys_view(v).push(key_view(k)),
{
    assert(v.push(k).drop_last() =~= v);
    assert(v.push(k).last() == k);
}

pub proof fn lemma_keys_view(ks: Seq<KeySpec>)
    ensures
        keys_view(ks).len() == ks.len(),
        forall|i: int| 0 <= i < ks.len() ==> keys_view(ks)[i] == key_view(ks[i]),
    decreases ks.len(),
{
    if ks.len() > 0 {
        lemma_keys_view(ks.drop_last());
    }
}

/// The identifiers of a key and of its whole subtree, in depth-first order.
pub open spec fn key_ids(k: KeySpecM) -> Seq<Seq<char>>
    decreases k,
{
    seq![k.id] + tree_ids(k.subkeys)
}

/// The identifiers of a whole specification forest, in depth-first order.
pub open spec fn tree_ids(ks: Seq<KeySpecM>) -> Seq<Seq<char>>
    decreases ks,
{
    if ks.len() == 0 {
        Seq::empty()
    } else {
        key_ids(ks[0]) + tree_ids(ks.drop_first())
    }
}

/// Global uniqueness of key identifiers over the whole tree.
pub open spec fn ids_unique(ks: Seq<KeySpecM>) -> bool {
    tree_ids(ks).no_duplicates()
}

/// Whether `ids` can be added to `seen` one by one without ever repeating an
/// element; this is the traversal order the validator follows.
pub open spec fn adds_cleanly(ids: Seq<Seq<char>>, seen: Seq<Seq<char>>) -> bool
    decreases ids.len(),
{
    ids.len() == 0 || (!seen.contains(ids[0]) && adds_cleanly(
        ids.drop_first(),
        seen.push(ids[0]),
    ))
}

/// The first identifier that repeats during that traversal.
pub open spec fn first_dup_from(ids: Seq<Seq<char>>, seen: Seq<Seq<char>>) -> Seq<char>
    decreases ids.len(),
{
    if ids.len() == 0 {
        Seq::empty()
    } else if seen.contains(ids[0]) {
        ids[0]
    } else {
        first_dup_from(ids.drop_first(), seen.push(ids[0]))
    }
}

/// How a clean traversal splits over a concatenation.
pub proof fn lemma_ac_append(a: Seq<Seq<char>>, b: Seq<Seq<char>>, seen: Seq<Seq<char>>)
    ensures
        adds_cleanly(a + b, seen) == (adds_cleanly(a, seen) && adds_cleanly(b, seen + a)),
        !adds_cleanly(a, seen) ==> first_dup_from(a + b, seen) == first_dup_from(a, seen),
        adds_cleanly(a, seen) ==> first_dup_from(a + b, seen) == first_dup_from(b, seen + a),
    decreases a.len(),
{
    if a.len() == 0 {
        assert(a + b =~= b);
        assert(seen + a =~= seen);
    } else {
        assert((a + b)[0] == a[0]);
        if !seen.contains(a[0]) {
            lemma_ac_append(a.drop_first(), b, seen.push(a[0]));
            assert((a + b).drop_first() =~= a.drop_first() + b);
            assert(seen.push(a[0]) + a.drop_first() =~= seen + a);
        }
    }
}

/// The traversal is clean exactly when the combined list has no duplicates.
pub proof fn lemma_adds_cleanly_iff_no_dup(ids: Seq<Seq<char>>, seen: Seq<Seq<char>>)
    requires
        seen.no_duplicates(),
    ensures
        adds_cleanly(ids, seen) <==> (seen + ids).no_duplicates(),
    decreases ids.len(),
{
    if ids.len() == 0 {
        assert(seen + ids =~= seen);
    } else {
        let x = ids[0];
        if seen.contains(x) {
            let i = choose|i: int| 0 <= i < seen.len() && seen[i] == x;
            assert((seen + ids)[i] == x);
            assert((seen + ids)[seen.len() as int] == x);
            assert(!(seen + ids).no_duplicates());
        } else {
            let p = seen.push(x);
            assert forall|i: int, j: int|
                0 <= i < p.len() && 0 <= j < p.len() && i != j implies p[i] != p[j] by {
                if i < seen.len() && j < seen.len() {
                    assert(p[i] == seen[i] && p[j] == seen[j]);
                } else if i < seen.len() {
                    assert(p[j] == x && p[i] == seen[i]);
                    if p[i] == x {
                        assert(seen.contains(x));
                    }
                } else {
                    assert(p[i] == x && p[j] == seen[j]);
                    if p[j] == x {
                        assert(seen.contains(x));
                    }
                }
            }
            assert(p.no_duplicates());
            lemma_adds_cleanly_iff_no_dup(ids.drop_first(), p);
            assert(p + ids.drop_first() =~= seen + ids);
        }
    }
}

/// The error text for an empty specification.
pub open spec fn empty_spec_msg() -> Seq<char> {
    "The spec cannot be empty"@
}

/// The error text for a repeated key identifier.
pub open spec fn dup_msg(id: Seq<char>) -> Seq<char> {
    "Duplicated key identifier '"@ + id + "'"@
}

fn make_dup_msg(id: &String) -> (r: String)
    ensures
        r@ == dup_msg(id@),
{
    let mut r = String::new();
    r.append("Duplicated key identifier '");
    r.append(id.as_str());
    r.append("'");
    proof {
        assert(r@ =~= dup_msg(id@));
    }
    r
}

/// The views of a list of owned strings.
pub open spec fn str_views(v: Seq<String>) -> Seq<Seq<char>> {
    v.map_values(|s: String| s@)
}

pub(crate) fn seen_contains(seen: &Vec<String>, id: &String) -> (r: bool)
    ensures
        r == str_views(seen@).contains(id@),
{
    let mut i: usize = 0;
    while i < seen.len()
        invariant
            0 <= i <= seen@.len(),
            forall|j: int| 0 <= j < i ==> str_views(seen@)[j] != id@,
        decreases seen@.len() - i,
    {
        if str_eq(seen[i].as_str(), id.as_str()) {
            assert(str_views(seen@)[i as int] == id@);
            return true;
        }
        i = i + 1;
    }
    assert(forall|j: int| 0 <= j < seen@.len() ==> str_views(seen@)[j] != id@);
    false
}

/// `tree_ids` over one more leading sibling.
pub proof fn lemma_tree_ids_take(ks: Seq<KeySpecM>, i: int)
    requires
        0 <= i < ks.len(),
    ensures
        tree_ids(ks.take(i + 1)) == tree_ids(ks.take(i)) + key_ids(ks[i]),
    decreases i,
{
    if i == 0 {
        assert(ks.take(0).len() == 0);
        assert(tree_ids(ks.take(0)) == Seq::<Seq<char>>::empty());
        let t = ks.take(1);
        assert(t[0] == ks[0]);
        assert(t.drop_first() =~= ks.take(0));
        assert(tree_ids(t) == key_ids(ks[0]) + tree_ids(ks.take(0)));
        assert(key_ids(ks[0]) + tree_ids(ks.take(0)) =~= tree_ids(ks.take(0)) + key_ids(ks[0]));
    } else {
        lemma_tree_ids_take(ks.drop_first(), i - 1);
        let a = ks.take(i + 1);
        let b = ks.take(i);
        assert(a[0] == ks[0] && b[0] == ks[0]);
        assert(a.drop_first() =~= ks.drop_first().take(i));
        assert(b.drop_first() =~= ks.drop_first().take(i - 1));
        assert(tree_ids(a) == key_ids(ks[0]) + tree_ids(ks.drop_first().take(i)));
        assert(tree_ids(b) == key_ids(ks[0]) + tree_ids(ks.drop_first().take(i - 1)));
        assert(ks.drop_first()[i - 1] == ks[i]);
        assert(tree_ids(ks.drop_first().take(i)) == tree_ids(ks.drop_first().take(i - 1))
            + key_ids(ks[i]));
        assert(key_ids(ks[0]) + (tree_ids(ks.drop_first().take(i - 1)) + key_ids(ks[i]))
            =~= (key_ids(ks[0]) + tree_ids(ks.drop_first().take(i - 1))) + key_ids(ks[i]));
    }
}

/// Walk the tree depth-first, reporting the first identifier already seen.
fn check_no_dup(seen: &mut Vec<String>, keys: &Vec<KeySpec>) -> (r: Result<(), String>)
    ensures
        adds_cleanly(tree_ids(keys_view(keys@)), str_views(old(seen)@)) ==> (r matches Ok(())
            && str_views(final(seen)@) == str_views(old(seen)@) + tree_ids(keys_view(keys@))),
        !adds_cleanly(tree_ids(keys_view(keys@)), str_views(old(seen)@)) ==> (r matches Err(m)
            && m@ == dup_msg(first_dup_from(tree_ids(keys_view(keys@)), str_views(old(seen)@)))),
    decreases keys@,
{
    let ghost ks = keys_view(keys@);
    let ghost sv0 = str_views(old(seen)@);
    proof {
        lemma_keys_view(keys@);
    }
    let mut i: usize = 0;
    proof {
        assert(ks.take(0).len() == 0);
        assert(tree_ids(ks.take(0)) == Seq::<Seq<char>>::empty());
        assert(adds_cleanly(tree_ids(ks.take(0)), sv0));
        assert(sv0 + tree_ids(ks.take(0)) =~= sv0);
    }
    while i < keys.len()
        invariant
            0 <= i <= keys@.len(),
            ks == keys_view(keys@),
            ks.len() == keys@.len(),
            forall|j: int| 0 <= j < keys@.len() ==> ks[j] == key_view(keys@[j]),
            sv0 == str_views(old(seen)@),
            adds_cleanly(tree_ids(ks.take(i as int)), sv0),
            str_views(seen@) == sv0 + tree_ids(ks.take(i as int)),
        decreases keys@.len() - i,
    {
        let ghost prefix_ids = tree_ids(ks.take(i as int));
        let ghost seen_now = str_views(seen@);
        let ghost km = ks[i as int];
        proof {
            lemma_tree_ids_take(ks, i as int);
            // tree_ids(ks) = prefix + key_ids(km) + suffix-shaped remainder
        }
        let key = &keys[i];
        let dup_here = seen_contains(seen, &key.id);
        if dup_here {
            let msg = make_dup_msg(&key.id);
            proof {
                // The identifier itself repeats: the traversal is not clean.
                assert(key_ids(km)[0] == km.id);
                assert(km.id == key.id@);
                lemma_split_at_i(ks, i as int);
                let rest = tree_ids(ks.skip(i as int + 1));
                assert(tree_ids(ks) == prefix_ids + (key_ids(km) + rest));
                lemma_ac_append(prefix_ids, key_ids(km) + rest, sv0);
                assert((key_ids(km) + rest)[0] == km.id);
                assert(!adds_cleanly(key_ids(km) + rest, sv0 + prefix_ids));
                assert(first_dup_from(key_ids(km) + rest, sv0 + prefix_ids) == km.id);
            }
            return Err(msg);
        }
        let id_copy = key.id.clone();
        seen.push(id_copy);
        proof {
            assert(str_views(seen@) =~= seen_now.push(key.id@));
        }
        let sub = check_no_dup(seen, &key.subkeys);
        proof {
            assert(km.subkeys == keys_view(key.subkeys@));
        }
        match sub {
            Ok(()) => {
                proof {
                    let sub_ids = tree_ids(km.subkeys);
                    assert(adds_cleanly(sub_ids, seen_now.push(km.id)));
                    assert(str_views(seen@) == seen_now.push(km.id) + sub_ids);
                    // extend the clean prefix by this key and its subtree
                    assert(key_ids(km) =~= seq![km.id] + sub_ids);
                    lemma_ac_single(km.id, sub_ids, seen_now);
                    assert(adds_cleanly(key_ids(km), seen_now));
                    lemma_ac_append(prefix_ids, key_ids(km), sv0);
                    assert(adds_cleanly(prefix_ids + key_ids(km), sv0));
                    assert(tree_ids(ks.take(i as int + 1)) == prefix_ids + key_ids(km));
                    assert(str_views(seen@) =~= sv0 + tree_ids(ks.take(i as int + 1)));
                }
            },
            Err(msg) => {
                proof {
                    let sub_ids = tree_ids(km.subkeys);
                    assert(!adds_cleanly(sub_ids, seen_now.push(km.id)));
                    assert(msg@ == dup_msg(first_dup_from(sub_ids, seen_now.push(km.id))));
                    lemma_split_at_i(ks, i as int);
                    let rest = tree_ids(ks.skip(i as int + 1));
                    assert(tree_ids(ks) == prefix_ids + (key_ids(km) + rest));
                    lemma_ac_append(prefix_ids, key_ids(km) + rest, sv0);
                    assert(key_ids(km) + rest =~= seq![km.id] + (sub_ids + rest));
                    lemma_ac_single_fail(km.id, sub_ids, rest, seen_now);
                    assert(!adds_cleanly(key_ids(km) + rest, seen_now));
                    assert(first_dup_from(key_ids(km) + rest, seen_now) == first_dup_from(
                        sub_ids,
                        seen_now.push(km.id),
                    ));
                }
                return Err(msg);
            },
        }
        i = i + 1;
    }
    proof {
        assert(ks.take(ks.len() as int) =~= ks);
    }
    Ok(())
}

/// A single fresh identifier followed by a clean tail is clean.
proof fn lemma_ac_single(x: Seq<char>, tail: Seq<Seq<char>>, seen: Seq<Seq<char>>)
    requires
        !seen.contains(x),
        adds_cleanly(tail, seen.push(x)),
    ensures
        adds_cleanly(seq![x] + tail, seen),
{
    let a = seq![x] + tail;
    assert(a[0] == x);
    assert(a.drop_first() =~= tail);
}

/// A single fresh identifier followed by a failing tail fails with the
/// tail's first duplicate, whatever follows afterwards.
proof fn lemma_ac_single_fail(
    x: Seq<char>,
    sub: Seq<Seq<char>>,
    rest: Seq<Seq<char>>,
    seen: Seq<Seq<char>>,
)
    requires
        !seen.contains(x),
        !adds_cleanly(sub, seen.push(x)),
    ensures
        !adds_cleanly(seq![x] + (sub + rest), seen),
        first_dup_from(seq![x] + (sub + rest), seen) == first_dup_from(sub, seen.push(x)),
{
    let a = seq![x] + (sub + rest);
    assert(a[0] == x);
    assert(a.drop_first() =~= sub + rest);
    lemma_ac_append(sub, rest, seen.push(x));
}

/// Splitting the sibling list at position `i`.
proof fn lemma_split_at_i(ks: Seq<KeySpecM>, i: int)
    requires
        0 <= i < ks.len(),
    ensures
        tree_ids(ks) == tree_ids(ks.take(i)) + (key_ids(ks[i]) + tree_ids(ks.skip(i + 1))),
    decreases i,
{
    if i == 0 {
        assert(ks.take(0).len() == 0);
        assert(tree_ids(ks.take(0)) == Seq::<Seq<char>>::empty());
        assert(ks.drop_first() =~= ks.skip(1));
        assert(tree_ids(ks) == key_ids(ks[0]) + tree_ids(ks.skip(1)));
        assert(tree_ids(ks) =~= tree_ids(ks.take(0)) + (key_ids(ks[0]) + tree_ids(ks.skip(1))));
    } else {
        lemma_split_at_i(ks.drop_first(), i - 1);
        assert(ks.drop_first().take(i - 1) =~= ks.take(i).drop_first());
        assert(ks.drop_first().skip(i) =~= ks.skip(i + 1));
        assert(ks.drop_first()[i - 1] == ks[i]);
        assert(tree_ids(ks) == key_ids(ks[0]) + tree_ids(ks.drop_first()));
        assert(tree_ids(ks.drop_first()) == tree_ids(ks.drop_first().take(i - 1)) + (key_ids(
            ks[i],
        ) + tree_ids(ks.skip(i + 1))));
        let t = ks.take(i);
        assert(t[0] == ks[0]);
        assert(tree_ids(t) == key_ids(ks[0]) + tree_ids(t.drop_first()));
        assert(key_ids(ks[0]) + (tree_ids(t.drop_first()) + (key_ids(ks[i]) + tree_ids(
            ks.skip(i + 1),
        ))) =~= (key_ids(ks[0]) + tree_ids(t.drop_first())) + (key_ids(ks[i]) + tree_ids(
            ks.skip(i + 1),
        )));
    }
}

/// A specification that passed validation: non-empty, with globally unique
/// key identifiers.  Only a `ValidDYSpec` may drive tokenizing and parsing.
#[derive(Debug, PartialEq, Eq)]
pub struct ValidDYSpec {
    keys: Vec<KeySpec>,
}

impl ValidDYSpec {
    /// The model of the wrapped specification.
    pub closed spec fn keys(&self) -> Seq<KeySpecM> {
        keys_view(self.keys@)
    }

    #[verifier::type_invariant]
    spec fn inv(&self) -> bool {
        self.keys().len() > 0 && ids_unique(self.keys())
    }

    /// Validate `spec`: it must be non-empty and no key identifier may repeat
    /// anywhere in the tree; on failure the message names the problem.
    pub fn new(spec: Vec<KeySpec>) -> (r: Result<ValidDYSpec, String>)
        ensures
            spec@.len() == 0 ==> (r matches Err(m) && m@ == empty_spec_msg()),
            spec@.len() > 0 ==> ((r matches Ok(v) && v.keys() == keys_view(spec@))
                <==> ids_unique(keys_view(spec@))),
            spec@.len() > 0 && !ids_unique(keys_view(spec@)) ==> (r matches Err(m) && m@
                == dup_msg(first_dup_from(tree_ids(keys_view(spec@)), Seq::empty()))),
    {
        if spec.len() == 0 {
            let mut m = String::new();
            m.append("The spec cannot be empty");
            proof {
                assert(m@ =~= empty_spec_msg());
            }
            return Err(m);
        }
        let mut seen: Vec<String> = Vec::new();
        proof {
            assert(str_views(seen@) =~= Seq::<Seq<char>>::empty());
            lemma_adds_cleanly_iff_no_dup(tree_ids(keys_view(spec@)), Seq::empty());
            assert(Seq::<Seq<char>>::empty() + tree_ids(keys_view(spec@)) =~= tree_ids(
                keys_view(spec@),
            ));
        }
        match check_no_dup(&mut seen, &spec) {
            Ok(()) => {
                let v = ValidDYSpec { keys: spec };
                Ok(v)
            },
            Err(m) => Err(m),
        }
    }

    /// The keys of the validated specification.
    pub fn get(&self) -> (r: &Vec<KeySpec>)
        ensures
            keys_view(r@) == self.keys(),
            r@.len() > 0,
            ids_unique(keys_view(r@)),
    {
        proof {
            use_type_invariant(self);
            lemma_keys_view(self.keys@);
        }
        &self.keys
    }
}

impl KeySpec {
    /// Whether this key opens an entity, that is, has subkeys of its own.
    pub fn is_entity(&self) -> (r: bool)
        ensures
            r == (key_view(*self).subkeys.len() > 0),
    {
        proof {
            lemma_keys_view(self.subkeys@);
        }
        self.subkeys.len() > 0
    }
}

/// Deep copy of one key specification.
pub fn clone_key(k: &KeySpec) -> (r: KeySpec)
    ensures
        key_view(r) == key_view(*k),
    decreases k,
{
    KeySpec {
        id: k.id.clone(),
        desc: k.desc.clone(),
        subkeys: clone_keys(&k.subkeys),
        vt: k.vt,
        once: k.once,
        required: k.required,
    }
}

/// Deep copy of a list of sibling keys.
pub fn clone_keys(ks: &Vec<KeySpec>) -> (r: Vec<KeySpec>)
    ensures
        keys_view(r@) == keys_view(ks@),
    decreases ks,
{
    let mut out: Vec<KeySpec> = Vec::new();
    proof {
        lemma_keys_view(ks@);
    }
    let mut i: usize = 0;
    while i < ks.len()
        invariant
            0 <= i <= ks@.len(),
            out@.len() == i,
            forall|j: int| 0 <= j < ks@.len() ==> keys_view(ks@)[j] == key_view(ks@[j]),
            keys_view(ks@).len() == ks@.len(),
            forall|j: int| 0 <= j < i ==> keys_view(out@)[j] == keys_view(ks@)[j],
            keys_view(out@).len() == out@.len(),
        decreases ks@.len() - i,
    {
        let c = clone_key(&ks[i]);
        let ghost prev = out@;
        out.push(c);
        proof {
            lemma_keys_view_push(prev, c);
            assert(out@ =~= prev.push(c));
            assert(keys_view(out@) == keys_view(prev).push(key_view(c)));
        }
        i = i + 1;
    }
    proof {
        lemma_keys_view(out@);
        assert(keys_view(out@) =~= keys_view(ks@));
    }
    out
}

/// The whole tree flattened: each level's keys, then their subtrees.
pub open spec fn flat_keys(ks: Seq<KeySpecM>) -> Seq<KeySpecM>
    decreases ks, 1int,
{
    ks + cat_flats(ks)
}

/// The concatenation of the flattened subtrees of each key in the list.
pub open spec fn cat_flats(ks: Seq<KeySpecM>) -> Seq<KeySpecM>
    decreases ks, 0int,
{
    if ks.len() == 0 {
        Seq::empty()
    } else {
        flat_keys(ks[0].subkeys) + cat_flats(ks.drop_first())
    }
}

proof fn lemma_cat_flats_take(ks: Seq<KeySpecM>, i: int)
    requires
        0 <= i < ks.len(),
    ensures
        cat_flats(ks.take(i + 1)) == cat_flats(ks.take(i)) + flat_keys(ks[i].subkeys),
    decreases i,
{
    if i == 0 {
        assert(ks.take(0).len() == 0);
        assert(cat_flats(ks.take(0)) == Seq::<KeySpecM>::empty());
        let t = ks.take(1);
        assert(t[0] == ks[0]);
        assert(t.drop_first() =~= ks.take(0));
        assert(cat_flats(t) == flat_keys(ks[0].subkeys) + cat_flats(ks.take(0)));
        assert(flat_keys(ks[0].subkeys) + cat_flats(ks.take(0)) =~= cat_flats(ks.take(0))
            + flat_keys(ks[0].subkeys));
    } else {
        lemma_cat_flats_take(ks.drop_first(), i - 1);
        let a = ks.take(i + 1);
        let b = ks.take(i);
        assert(a[0] == ks[0] && b[0] == ks[0]);
        assert(a.drop_first() =~= ks.drop_first().take(i));
        assert(b.drop_first() =~= ks.drop_first().take(i - 1));
        assert(ks.drop_first()[i - 1] == ks[i]);
        assert(cat_flats(a) == flat_keys(ks[0].subkeys) + cat_flats(ks.drop_first().take(i)));
        assert(cat_flats(b) == flat_keys(ks[0].subkeys) + cat_flats(ks.drop_first().take(i - 1)));
        assert(flat_keys(ks[0].subkeys) + (cat_flats(ks.drop_first().take(i - 1)) + flat_keys(
            ks[i].subkeys,
        )) =~= (flat_keys(ks[0].subkeys) + cat_flats(ks.drop_first().take(i - 1))) + flat_keys(
            ks[i].subkeys,
        ));
    }
}

/// Flatten the whole specification tree into one list of keys, the keys of
/// each level first, then the keys of their subtrees.
pub fn all_valid_keys(spec: &Vec<KeySpec>) -> (r: Vec<KeySpec>)
    ensures
        keys_view(r@) == flat_keys(keys_view(spec@)),
    decreases spec,
{
    let ghost ks = keys_view(spec@);
    proof {
        lemma_keys_view(spec@);
    }
    let mut out: Vec<KeySpec> = clone_keys(spec);
    let mut i: usize = 0;
    proof {
        assert(ks.take(0).len() == 0);
        assert(cat_flats(ks.take(0)) == Seq::<KeySpecM>::empty());
        assert(keys_view(out@) =~= ks + cat_flats(ks.take(0)));
    }
    while i < spec.len()
        invariant
            0 <= i <= spec@.len(),
            ks == keys_view(spec@),
            ks.len() == spec@.len(),
            forall|j: int| 0 <= j < spec@.len() ==> ks[j] == key_view(spec@[j]),
            keys_view(out@) == ks + cat_flats(ks.take(i as int)),
        decreases spec@.len() - i,
    {
        let sub = all_valid_keys(&spec[i].subkeys);
        let ghost subm = keys_view(sub@);
        let ghost beforem = keys_view(out@);
        let mut j: usize = 0;
        proof {
            lemma_keys_view(sub@);
            assert(subm == flat_keys(keys_view(spec@[i as int].subkeys@)));
            assert(ks[i as int].subkeys == keys_view(spec@[i as int].subkeys@));
            assert(beforem + subm.take(0) =~= beforem);
        }
        while j < sub.len()
            invariant
                0 <= j <= sub@.len(),
                subm == keys_view(sub@),
                subm.len() == sub@.len(),
                forall|m: int| 0 <= m < sub@.len() ==> subm[m] == key_view(sub@[m]),
                keys_view(out@) == beforem + subm.take(j as int),
            decreases sub@.len() - j,
        {
            let c = clone_key(&sub[j]);
            let ghost prev = out@;
            out.push(c);
            proof {
                lemma_keys_view_push(prev, c);
                assert(out@ =~= prev.push(c));
                assert(keys_view(out@) == (beforem + subm.take(j as int)).push(key_view(c)));
                assert(key_view(c) == subm[j as int]);
                assert((beforem + subm.take(j as int)).push(subm[j as int]) =~= beforem
                    + subm.take(j as int + 1));
            }
            j = j + 1;
        }
        proof {
            assert(subm.take(subm.len() as int) =~= subm);
            lemma_cat_flats_take(ks, i as int);
            assert(keys_view(out@) =~= ks + cat_flats(ks.take(i as int + 1)));
        }
        i = i + 1;
    }
    proof {
        assert(ks.take(ks.len() as int) =~= ks);
    }
    out
}

} // verus!
