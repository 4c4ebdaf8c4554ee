//! The staging tree: the working copy of the context on which `set`,
//! `delete` and `copy` operate before a commit persists it.
//!
//! A tree node holds its children sorted by the lexicographic order of the
//! UTF-8 bytes of their segment names; that order is also the canonical
//! order hashed by the hashing layer.

use vstd::prelude::*;

use crate::order::lex_lt;

verus! {

/// One child of a staging tree node: either a stored value or a subtree.
pub enum StageChild {
    Blob(Vec<u8>),
    Subtree(StageTree),
}

/// A named edge of a staging tree node.
pub struct StageEntry {
    pub name: String,
    pub child: StageChild,
}

/// An interior node of the staging tree.
pub struct StageTree {
    pub entries: Vec<StageEntry>,
}

/// The mathematical shape of a staging child: segment names appear as
/// their UTF-8 bytes, children in their stored order.
pub ghost enum ChildV {
    Blob(Seq<u8>),
    Dir(Seq<(Seq<u8>, ChildV)>),
}

/// UTF-8 bytes of a segment name.
pub open spec fn seg_bytes(s: Seq<char>) -> Seq<u8> {
    vstd::utf8::encode_utf8(s)
}

/// The shape of one staging child.
pub open spec fn child_view(c: StageChild) -> ChildV
    decreases c,
{
    match c {
        StageChild::Blob(b) => ChildV::Blob(b@),
        StageChild::Subtree(t) => ChildV::Dir(entries_view(t.entries@)),
    }
}

/// The shape of a list of staging entries, in their stored order.
pub open spec fn entries_view(s: Seq<StageEntry>) -> Seq<(Seq<u8>, ChildV)>
    decreases s,
{
    if s.len() == 0 {
        Seq::empty()
    } else {
        entries_view(s.drop_last()).push((seg_bytes(s.last().name@), child_view(s.last().child)))
    }
}

impl StageTree {
    /// The shape of this tree node.
    pub open spec fn view(self) -> Seq<(Seq<u8>, ChildV)> {
        entries_view(self.entries@)
    }
}

/// The UTF-8 bytes of every segment of a context key.
pub open spec fn path_view(k: Seq<String>) -> Seq<Seq<u8>> {
    k.map(|i: int, s: String| seg_bytes(s@))
}

/// A directory is well formed when its entries are strictly sorted by
/// segment bytes (hence unique) and its subdirectories are well formed.
pub open spec fn wf_dir(s: Seq<(Seq<u8>, ChildV)>) -> bool
    decreases s,
{
    &&& (forall|i: int, j: int| 0 <= i < j < s.len() ==> lex_lt(s[i].0, s[j].0))
    &&& (forall|i: int| 0 <= i < s.len() ==> wf_child(#[trigger] s[i].1))
}

pub open spec fn wf_child(c: ChildV) -> bool
    decreases c,
{
    match c {
        ChildV::Blob(_) => true,
        ChildV::Dir(s) => wf_dir(s),
    }
}

/// The child stored under `name`, by first match in entry order.
pub open spec fn dir_get(s: Seq<(Seq<u8>, ChildV)>, name: Seq<u8>) -> Option<ChildV>
    decreases s.len(),
{
    if s.len() == 0 {
        None
    } else if s[0].0 == name {
        Some(s[0].1)
    } else {
        dir_get(s.drop_first(), name)
    }
}

/// Insert `c` under `name`, keeping entries sorted; an existing entry
/// under `name` is replaced.
pub open spec fn dir_insert(s: Seq<(Seq<u8>, ChildV)>, name: Seq<u8>, c: ChildV) -> Seq<
    (Seq<u8>, ChildV),
>
    decreases s.len(),
{
    if s.len() == 0 {
        seq![(name, c)]
    } else if lex_lt(name, s[0].0) {
        seq![(name, c)] + s
    } else if s[0].0 == name {
        seq![(name, c)] + s.drop_first()
    } else {
        seq![s[0]] + dir_insert(s.drop_first(), name, c)
    }
}

/// Remove the first entry stored under `name`, if any.
pub open spec fn dir_remove(s: Seq<(Seq<u8>, ChildV)>, name: Seq<u8>) -> Seq<(Seq<u8>, ChildV)>
    decreases s.len(),
{
    if s.len() == 0 {
        s
    } else if s[0].0 == name {
        s.drop_first()
    } else {
        seq![s[0]] + dir_remove(s.drop_first(), name)
    }
}

/// Walk `path` down from child `c`; `None` when the path leaves the tree
/// or crosses a stored value.
pub open spec fn child_lookup(c: ChildV, path: Seq<Seq<u8>>) -> Option<ChildV>
    decreases path.len(),
{
    if path.len() == 0 {
        Some(c)
    } else {
        match c {
            ChildV::Blob(_) => None,
            ChildV::Dir(s) => match dir_get(s, path[0]) {
                None => None,
                Some(ch) => child_lookup(ch, path.drop_first()),
            },
        }
    }
}

/// The directory addressed by `path`, or the empty directory when the
/// path is absent or crosses a stored value: absence is not an error for
/// the editing operations, it is where fresh subtrees grow.
pub open spec fn spec_find(s: Seq<(Seq<u8>, ChildV)>, path: Seq<Seq<u8>>) -> Seq<
    (Seq<u8>, ChildV),
>
    decreases path.len(),
{
    if path.len() == 0 {
        s
    } else {
        match dir_get(s, path[0]) {
            Some(ChildV::Dir(s2)) => spec_find(s2, path.drop_first()),
            _ => Seq::empty(),
        }
    }
}

/// One path edit, recalculated up the spine: locate the directory at the
/// parent path, insert or remove the final segment there, and prune a
/// directory that became empty by recursing with a removal one level up.
/// With an empty path the change itself is the new root; a removal at the
/// root leaves the root as it was.
pub open spec fn spec_apply(
    root: Seq<(Seq<u8>, ChildV)>,
    path: Seq<Seq<u8>>,
    change: Option<ChildV>,
) -> ChildV
    decreases path.len(),
{
    if path.len() == 0 {
        match change {
            Some(c) => c,
            None => ChildV::Dir(root),
        }
    } else {
        let prefix = path.drop_last();
        let sub = spec_find(root, prefix);
        let sub2 = match change {
            None => dir_remove(sub, path.last()),
            Some(c) => dir_insert(sub, path.last(), c),
        };
        if sub2.len() == 0 {
            spec_apply(root, prefix, None)
        } else {
            spec_apply(root, prefix, Some(ChildV::Dir(sub2)))
        }
    }
}

/// `entries_view` maps the entry list index by index.
pub proof fn lemma_entries_view(s: Seq<StageEntry>)
    ensures
        entries_view(s).len() == s.len(),
        forall|i: int|
            0 <= i < s.len() ==> entries_view(s)[i] == (
            seg_bytes(s[i].name@),
            child_view(s[i].child),
            ),
    decreases s,
{
    if s.len() > 0 {
        lemma_entries_view(s.drop_last());
    }
}

/// After an insert, the inserted child is what lookup finds under its name,
/// and the directory is not empty.
pub proof fn lemma_dir_insert_get_same(s: Seq<(Seq<u8>, ChildV)>, name: Seq<u8>, c: ChildV)
    ensures
        dir_get(dir_insert(s, name, c), name) == Some(c),
        dir_insert(s, name, c).len() > 0,
    decreases s.len(),
{
    if s.len() > 0 && !lex_lt(name, s[0].0) && s[0].0 != name {
        lemma_dir_insert_get_same(s.drop_first(), name, c);
        assert((seq![s[0]] + dir_insert(s.drop_first(), name, c)).drop_first() =~= dir_insert(
            s.drop_first(),
            name,
            c,
        ));
    }
}

/// An insert changes what is stored under no other name.
pub proof fn lemma_dir_insert_get_other(
    s: Seq<(Seq<u8>, ChildV)>,
    name: Seq<u8>,
    c: ChildV,
    other: Seq<u8>,
)
    requires
        other != name,
    ensures
        dir_get(dir_insert(s, name, c), other) == dir_get(s, other),
    decreases s.len(),
{
    if s.len() == 0 {
        assert(seq![(name, c)][0] == (name, c));
        assert(seq![(name, c)].drop_first() =~= Seq::<(Seq<u8>, ChildV)>::empty());
        assert(dir_get(dir_insert(s, name, c), other) == dir_get(
            seq![(name, c)].drop_first(),
            other,
        ));
    } else if lex_lt(name, s[0].0) {
        assert((seq![(name, c)] + s)[0] == (name, c));
        assert((seq![(name, c)] + s).drop_first() =~= s);
        assert(dir_get(dir_insert(s, name, c), other) == dir_get(
            (seq![(name, c)] + s).drop_first(),
            other,
        ));
    } else if s[0].0 == name {
        assert((seq![(name, c)] + s.drop_first())[0] == (name, c));
        assert((seq![(name, c)] + s.drop_first()).drop_first() =~= s.drop_first());
    } else {
        lemma_dir_insert_get_other(s.drop_first(), name, c, other);
        assert((seq![s[0]] + dir_insert(s.drop_first(), name, c))[0] == s[0]);
        assert((seq![s[0]] + dir_insert(s.drop_first(), name, c)).drop_first() =~= dir_insert(
            s.drop_first(),
            name,
            c,
        ));
    }
}

/// In a directory without repeated names, nothing is stored under a
/// removed name any more.
pub proof fn lemma_dir_remove_get_none(s: Seq<(Seq<u8>, ChildV)>, name: Seq<u8>)
    requires
        forall|i: int, j: int| 0 <= i < j < s.len() ==> s[i].0 != s[j].0,
    ensures
        dir_get(dir_remove(s, name), name) == None::<ChildV>,
    decreases s.len(),
{
    if s.len() > 0 {
        if s[0].0 == name {
            lemma_dir_get_absent(s.drop_first(), name);
        } else {
            lemma_dir_remove_get_none(s.drop_first(), name);
            assert((seq![s[0]] + dir_remove(s.drop_first(), name)).drop_first() =~= dir_remove(
                s.drop_first(),
                name,
            ));
        }
    }
}

/// Lookup misses a name that no entry carries.
pub proof fn lemma_dir_get_absent(s: Seq<(Seq<u8>, ChildV)>, name: Seq<u8>)
    requires
        forall|i: int| 0 <= i < s.len() ==> s[i].0 != name,
    ensures
        dir_get(s, name) == None::<ChildV>,
    decreases s.len(),
{
    if s.len() > 0 {
        lemma_dir_get_absent(s.drop_first(), name);
    }
}

/// Lookup finds the (unique) entry that carries the sought name.
pub proof fn lemma_dir_get_found(s: Seq<(Seq<u8>, ChildV)>, name: Seq<u8>, i: int)
    requires
        0 <= i < s.len(),
        s[i].0 == name,
        forall|j: int| 0 <= j < i ==> s[j].0 != name,
    ensures
        dir_get(s, name) == Some(s[i].1),
    decreases i,
{
    if i > 0 {
        lemma_dir_get_found(s.drop_first(), name, i - 1);
    }
}

/// A found child is one of the entries.
pub proof fn lemma_dir_get_is_entry(s: Seq<(Seq<u8>, ChildV)>, name: Seq<u8>)
    requires
        dir_get(s, name).is_some(),
    ensures
        exists|i: int|
            0 <= i < s.len() && s[i].0 == name && s[i].1 == dir_get(s, name).unwrap(),
    decreases s.len(),
{
    if s.len() > 0 && s[0].0 != name {
        lemma_dir_get_is_entry(s.drop_first(), name);
        let i = choose|i: int|
            0 <= i < s.drop_first().len() && s.drop_first()[i].0 == name && s.drop_first()[i].1
                == dir_get(s.drop_first(), name).unwrap();
        assert(s[i + 1].0 == name && s[i + 1].1 == dir_get(s, name).unwrap());
    }
}

/// Walking a concatenated path is walking its halves in turn.
pub proof fn lemma_lookup_decompose(c: ChildV, p: Seq<Seq<u8>>, q: Seq<Seq<u8>>)
    ensures
        child_lookup(c, p + q) == match child_lookup(c, p) {
            None => None::<ChildV>,
            Some(x) => child_lookup(x, q),
        },
    decreases p.len(),
{
    if p.len() == 0 {
        assert(p + q =~= q);
    } else {
        assert((p + q)[0] == p[0]);
        match c {
            ChildV::Blob(_) => {}
            ChildV::Dir(s) => {
                match dir_get(s, p[0]) {
                    None => {}
                    Some(ch) => {
                        lemma_lookup_decompose(ch, p.drop_first(), q);
                        assert((p + q).drop_first() =~= p.drop_first() + q);
                    }
                }
            }
        }
    }
}

/// The directory `spec_find` returns sees the same continuations that the
/// full tree sees under the prefix, for any non-empty continuation.
pub proof fn lemma_find_lookup(s: Seq<(Seq<u8>, ChildV)>, p: Seq<Seq<u8>>, q: Seq<Seq<u8>>)
    requires
        q.len() > 0,
    ensures
        child_lookup(ChildV::Dir(spec_find(s, p)), q) == child_lookup(ChildV::Dir(s), p + q),
    decreases p.len(),
{
    if p.len() == 0 {
        assert(p + q =~= q);
    } else {
        assert((p + q)[0] == p[0]);
        assert((p + q).drop_first() =~= p.drop_first() + q);
        match dir_get(s, p[0]) {
            Some(ChildV::Dir(s2)) => {
                lemma_find_lookup(s2, p.drop_first(), q);
            }
            Some(ChildV::Blob(_)) => {
                assert(spec_find(s, p) =~= Seq::<(Seq<u8>, ChildV)>::empty());
            }
            None => {
                assert(spec_find(s, p) =~= Seq::<(Seq<u8>, ChildV)>::empty());
            }
        }
    }
}

/// A subdirectory of a well-formed tree is well formed.
pub proof fn lemma_find_wf(s: Seq<(Seq<u8>, ChildV)>, p: Seq<Seq<u8>>)
    requires
        wf_dir(s),
    ensures
        wf_dir(spec_find(s, p)),
    decreases p.len(),
{
    if p.len() > 0 {
        match dir_get(s, p[0]) {
            Some(ChildV::Dir(s2)) => {
                lemma_dir_get_is_entry(s, p[0]);
                lemma_find_wf(s2, p.drop_first());
            }
            _ => {}
        }
    }
}

/// An insert of a well-formed child keeps a directory well formed.
pub proof fn lemma_dir_insert_wf(s: Seq<(Seq<u8>, ChildV)>, name: Seq<u8>, c: ChildV)
    requires
        wf_dir(s),
        wf_child(c),
    ensures
        wf_dir(dir_insert(s, name, c)),
    decreases s.len(),
{
    if s.len() == 0 {
    } else if lex_lt(name, s[0].0) {
        let r = seq![(name, c)] + s;
        assert forall|i: int, j: int| 0 <= i < j < r.len() implies lex_lt(r[i].0, r[j].0) by {
            if i == 0 && j > 1 {
                crate::order::lemma_lex_transitive(name, s[0].0, s[j - 1].0);
            }
        }
    } else if s[0].0 == name {
        let r = seq![(name, c)] + s.drop_first();
        assert forall|i: int, j: int| 0 <= i < j < r.len() implies lex_lt(r[i].0, r[j].0) by {
            if i == 0 {
                assert(r[j].0 == s[j].0);
            }
        }
    } else {
        lemma_dir_insert_wf(s.drop_first(), name, c);
        let t = dir_insert(s.drop_first(), name, c);
        let r = seq![s[0]] + t;
        lemma_dir_insert_members(s.drop_first(), name, c);
        assert forall|i: int, j: int| 0 <= i < j < r.len() implies lex_lt(r[i].0, r[j].0) by {
            if i == 0 {
                // every name in t is either `name` or a name of s.drop_first(),
                // both above s[0].0
                assert(t[j - 1].0 == name || exists|k: int|
                    0 <= k < s.drop_first().len() && s.drop_first()[k].0 == t[j - 1].0);
                crate::order::lemma_lex_trichotomy(name, s[0].0);
            }
        }
    }
}

/// Every name in an inserted directory is the inserted name or one of the
/// old names.
pub proof fn lemma_dir_insert_members(s: Seq<(Seq<u8>, ChildV)>, name: Seq<u8>, c: ChildV)
    ensures
        forall|j: int|
            0 <= j < dir_insert(s, name, c).len() ==> (#[trigger] dir_insert(s, name, c)[j].0
                == name || exists|k: int| 0 <= k < s.len() && s[k].0 == dir_insert(s, name, c)[j].0),
    decreases s.len(),
{
    if s.len() == 0 {
    } else if lex_lt(name, s[0].0) {
    } else if s[0].0 == name {
        let r = seq![(name, c)] + s.drop_first();
        assert forall|j: int| 1 <= j < r.len() implies (exists|k: int|
            0 <= k < s.len() && s[k].0 == #[trigger] r[j].0) by {
            assert(s[j].0 == r[j].0);
        }
    } else {
        lemma_dir_insert_members(s.drop_first(), name, c);
        let t = dir_insert(s.drop_first(), name, c);
        assert forall|j: int| 0 <= j < (seq![s[0]] + t).len() implies ((seq![s[0]] + t)[j].0 == name
            || exists|k: int| 0 <= k < s.len() && s[k].0 == (seq![s[0]] + t)[j].0) by {
            if j == 0 {
                assert(s[0].0 == (seq![s[0]] + t)[0].0);
            } else {
                assert(t[j - 1].0 == name || exists|k: int|
                    0 <= k < s.drop_first().len() && s.drop_first()[k].0 == t[j - 1].0);
                if t[j - 1].0 != name {
                    let k = choose|k: int|
                        0 <= k < s.drop_first().len() && s.drop_first()[k].0 == t[j - 1].0;
                    assert(s[k + 1].0 == (seq![s[0]] + t)[j].0);
                }
            }
        }
    }
}

/// A removal keeps a directory well formed.
pub proof fn lemma_dir_remove_wf(s: Seq<(Seq<u8>, ChildV)>, name: Seq<u8>)
    requires
        wf_dir(s),
    ensures
        wf_dir(dir_remove(s, name)),
    decreases s.len(),
{
    if s.len() > 0 {
        if s[0].0 == name {
        } else {
            assert(wf_dir(s.drop_first()));
            lemma_dir_remove_wf(s.drop_first(), name);
            let t = dir_remove(s.drop_first(), name);
            lemma_dir_remove_members(s.drop_first(), name);
            let r = seq![s[0]] + t;
            assert forall|i: int, j: int| 0 <= i < j < r.len() implies lex_lt(r[i].0, r[j].0) by {
                if i == 0 {
                    let k = choose|k: int|
                        0 <= k < s.drop_first().len() && s.drop_first()[k].0 == t[j - 1].0;
                    assert(s[k + 1].0 == t[j - 1].0);
                }
            }
        }
    }
}

/// Every name in a directory after a removal was a name of the directory.
pub proof fn lemma_dir_remove_members(s: Seq<(Seq<u8>, ChildV)>, name: Seq<u8>)
    ensures
        forall|j: int|
            0 <= j < dir_remove(s, name).len() ==> exists|k: int|
                0 <= k < s.len() && s[k] == #[trigger] dir_remove(s, name)[j],
    decreases s.len(),
{
    if s.len() > 0 {
        if s[0].0 == name {
            assert forall|j: int| 0 <= j < dir_remove(s, name).len() implies exists|k: int|
                0 <= k < s.len() && s[k] == #[trigger] dir_remove(s, name)[j] by {
                assert(s[j + 1] == dir_remove(s, name)[j]);
            }
        } else {
            lemma_dir_remove_members(s.drop_first(), name);
            let t = dir_remove(s.drop_first(), name);
            let r = seq![s[0]] + t;
            assert forall|j: int| 0 <= j < r.len() implies exists|k: int|
                0 <= k < s.len() && #[trigger] s[k] == #[trigger] r[j] by {
                if j > 0 {
                    let k = choose|k: int|
                        0 <= k < s.drop_first().len() && s.drop_first()[k] == t[j - 1];
                    assert(s[k + 1] == r[j]);
                } else {
                    assert(s[0] == r[0]);
                }
            }
            assert forall|j: int|
                0 <= j < dir_remove(s, name).len() implies exists|k: int|
                0 <= k < s.len() && s[k] == #[trigger] dir_remove(s, name)[j] by {
                assert(dir_remove(s, name)[j] == r[j]);
            }
        }
    }
}

/// Keys of a well-formed directory are pairwise distinct.
pub proof fn lemma_wf_distinct(s: Seq<(Seq<u8>, ChildV)>)
    requires
        wf_dir(s),
    ensures
        forall|i: int, j: int| 0 <= i < j < s.len() ==> s[i].0 != s[j].0,
{
    assert forall|i: int, j: int| 0 <= i < j < s.len() implies s[i].0 != s[j].0 by {
        crate::order::lemma_lex_trichotomy(s[i].0, s[j].0);
    }
}

/// An edit whose change is a removal or a directory produces a directory.
pub proof fn lemma_apply_is_dir(
    root: Seq<(Seq<u8>, ChildV)>,
    path: Seq<Seq<u8>>,
    change: Option<ChildV>,
)
    requires
        path.len() > 0 || change is None || change.unwrap() is Dir,
    ensures
        spec_apply(root, path, change) is Dir,
    decreases path.len(),
{
    if path.len() > 0 {
        let prefix = path.drop_last();
        let sub = spec_find(root, prefix);
        match change {
            None => {
                if dir_remove(sub, path.last()).len() == 0 {
                    lemma_apply_is_dir(root, prefix, None);
                } else {
                    lemma_apply_is_dir(
                        root,
                        prefix,
                        Some(ChildV::Dir(dir_remove(sub, path.last()))),
                    );
                }
            }
            Some(c) => {
                lemma_dir_insert_get_same(sub, path.last(), c);
                lemma_apply_is_dir(root, prefix, Some(ChildV::Dir(dir_insert(sub, path.last(), c))));
            }
        }
    }
}

/// An edit on a well-formed tree with a well-formed change keeps the tree
/// well formed.
pub proof fn lemma_apply_wf(root: Seq<(Seq<u8>, ChildV)>, path: Seq<Seq<u8>>, change: Option<ChildV>)
    requires
        wf_dir(root),
        change is Some ==> wf_child(change.unwrap()),
    ensures
        wf_child(spec_apply(root, path, change)),
    decreases path.len(),
{
    if path.len() == 0 {
    } else {
        let prefix = path.drop_last();
        let sub = spec_find(root, prefix);
        lemma_find_wf(root, prefix);
        match change {
            None => {
                lemma_dir_remove_wf(sub, path.last());
                if dir_remove(sub, path.last()).len() == 0 {
                    lemma_apply_wf(root, prefix, None);
                } else {
                    lemma_apply_wf(root, prefix, Some(ChildV::Dir(dir_remove(sub, path.last()))));
                }
            }
            Some(c) => {
                lemma_dir_insert_wf(sub, path.last(), c);
                lemma_dir_insert_get_same(sub, path.last(), c);
                lemma_apply_wf(root, prefix, Some(ChildV::Dir(dir_insert(sub, path.last(), c))));
            }
        }
    }
}

/// After an edit that stores `c` under a non-empty `path`, walking `path`
/// finds exactly `c`.  Instantiated with a stored value this is the
/// set-then-get law; instantiated with a directory it is what `copy`
/// relies on.
pub proof fn lemma_apply_insert_lookup(
    root: Seq<(Seq<u8>, ChildV)>,
    path: Seq<Seq<u8>>,
    c: ChildV,
)
    requires
        path.len() > 0,
    ensures
        child_lookup(spec_apply(root, path, Some(c)), path) == Some(c),
    decreases path.len(),
{
    let prefix = path.drop_last();
    let last = path.last();
    let sub = spec_find(root, prefix);
    let sub2 = dir_insert(sub, last, c);
    lemma_dir_insert_get_same(sub, last, c);
    assert(seq![last][0] == last);
    assert(seq![last].drop_first() =~= Seq::<Seq<u8>>::empty());
    assert(child_lookup(c, seq![last].drop_first()) == Some(c));
    assert(child_lookup(ChildV::Dir(sub2), seq![last]) == Some(c));
    if prefix.len() == 0 {
        assert(path =~= seq![last]);
        assert(spec_apply(root, path, Some(c)) == ChildV::Dir(sub2));
    } else {
        let result = spec_apply(root, prefix, Some(ChildV::Dir(sub2)));
        lemma_apply_insert_lookup(root, prefix, ChildV::Dir(sub2));
        lemma_lookup_decompose(result, prefix, seq![last]);
        assert(prefix + seq![last] =~= path);
    }
}

/// After a removal at a non-empty `path`, walking `path` finds nothing —
/// except in the one case where pruning empty directories reaches the
/// root, which the edit leaves exactly as it was.
pub proof fn lemma_apply_remove_lookup(root: Seq<(Seq<u8>, ChildV)>, path: Seq<Seq<u8>>)
    requires
        path.len() > 0,
        wf_dir(root),
    ensures
        child_lookup(spec_apply(root, path, None), path) == None::<ChildV> || spec_apply(
            root,
            path,
            None,
        ) == ChildV::Dir(root),
    decreases path.len(),
{
    let prefix = path.drop_last();
    let last = path.last();
    let sub = spec_find(root, prefix);
    let sub2 = dir_remove(sub, last);
    lemma_find_wf(root, prefix);
    lemma_wf_distinct(sub);
    lemma_dir_remove_get_none(sub, last);
    assert(seq![last].drop_first() =~= Seq::<Seq<u8>>::empty());
    if sub2.len() == 0 {
        if prefix.len() == 0 {
        } else {
            lemma_apply_remove_lookup(root, prefix);
            let result = spec_apply(root, prefix, None);
            if child_lookup(result, prefix) == None::<ChildV> {
                lemma_lookup_decompose(result, prefix, seq![last]);
                assert(prefix + seq![last] =~= path);
            }
        }
    } else {
        if prefix.len() == 0 {
            assert(path =~= seq![last]);
            assert(spec_apply(root, path, None) == ChildV::Dir(sub2));
        } else {
            let result = spec_apply(root, prefix, Some(ChildV::Dir(sub2)));
            lemma_apply_insert_lookup(root, prefix, ChildV::Dir(sub2));
            lemma_lookup_decompose(result, prefix, seq![last]);
            assert(prefix + seq![last] =~= path);
        }
    }
}

/// After `copy(from, to)`, every strictly longer path below `to` reads
/// exactly what the same continuation below `from` read before the copy.
pub proof fn lemma_copy_lookup(
    root: Seq<(Seq<u8>, ChildV)>,
    from: Seq<Seq<u8>>,
    to: Seq<Seq<u8>>,
    suffix: Seq<Seq<u8>>,
)
    requires
        to.len() > 0,
        suffix.len() > 0,
    ensures
        child_lookup(spec_apply(root, to, Some(ChildV::Dir(spec_find(root, from)))), to + suffix)
            == child_lookup(ChildV::Dir(root), from + suffix),
{
    let src = spec_find(root, from);
    let result = spec_apply(root, to, Some(ChildV::Dir(src)));
    lemma_apply_insert_lookup(root, to, ChildV::Dir(src));
    lemma_lookup_decompose(result, to, suffix);
    lemma_find_lookup(root, from, suffix);
}

/// Finding through a concatenated path is finding through its halves in turn.
pub proof fn lemma_find_decompose(s: Seq<(Seq<u8>, ChildV)>, p: Seq<Seq<u8>>, q: Seq<Seq<u8>>)
    ensures
        spec_find(s, p + q) == spec_find(spec_find(s, p), q),
    decreases p.len(),
{
    if p.len() == 0 {
        assert(p + q =~= q);
    } else {
        assert((p + q)[0] == p[0]);
        assert((p + q).drop_first() =~= p.drop_first() + q);
        match dir_get(s, p[0]) {
            Some(ChildV::Dir(s2)) => {
                lemma_find_decompose(s2, p.drop_first(), q);
            }
            _ => {
                let e = Seq::<(Seq<u8>, ChildV)>::empty();
                if q.len() > 0 {
                    assert(spec_find(e, q) =~= e);
                }
            }
        }
    }
}

/// Where the sorted position of `name` is known, an insert is a pointwise
/// update or a pointwise insertion at that position.
pub proof fn lemma_dir_insert_at(s: Seq<(Seq<u8>, ChildV)>, name: Seq<u8>, c: ChildV, k: int)
    requires
        0 <= k <= s.len(),
        forall|i: int| 0 <= i < k ==> lex_lt(s[i].0, name),
        k < s.len() ==> (s[k].0 == name || lex_lt(name, s[k].0)),
    ensures
        k < s.len() && s[k].0 == name ==> dir_insert(s, name, c) == s.update(k, (name, c)),
        (k == s.len() || lex_lt(name, s[k].0)) ==> dir_insert(s, name, c) == s.insert(
            k,
            (name, c),
        ),
    decreases k,
{
    if k == 0 {
        if s.len() == 0 {
            assert(dir_insert(s, name, c) =~= s.insert(0, (name, c)));
        } else {
            crate::order::lemma_lex_trichotomy(name, s[0].0);
            if lex_lt(name, s[0].0) {
                assert(seq![(name, c)] + s =~= s.insert(0, (name, c)));
            } else if s[0].0 == name {
                assert(seq![(name, c)] + s.drop_first() =~= s.update(0, (name, c)));
            }
        }
    } else {
        assert(lex_lt(s[0].0, name));
        crate::order::lemma_lex_trichotomy(name, s[0].0);
        lemma_dir_insert_at(s.drop_first(), name, c, k - 1);
        if k < s.len() && s[k].0 == name {
            assert(s.drop_first()[k - 1].0 == name);
            assert(seq![s[0]] + s.drop_first().update(k - 1, (name, c)) =~= s.update(k, (name, c)));
        } else {
            assert(seq![s[0]] + s.drop_first().insert(k - 1, (name, c)) =~= s.insert(k, (name, c)));
        }
    }
}

/// Where the position of the (first) entry named `name` is known, a removal
/// is a pointwise removal at that position.
pub proof fn lemma_dir_remove_at(s: Seq<(Seq<u8>, ChildV)>, name: Seq<u8>, k: int)
    requires
        0 <= k < s.len(),
        s[k].0 == name,
        forall|i: int| 0 <= i < k ==> s[i].0 != name,
    ensures
        dir_remove(s, name) == s.remove(k),
    decreases k,
{
    if k == 0 {
        assert(s.drop_first() =~= s.remove(0));
    } else {
        lemma_dir_remove_at(s.drop_first(), name, k - 1);
        assert(s.drop_first()[k - 1].0 == name);
        assert(seq![s[0]] + s.drop_first().remove(k - 1) =~= s.remove(k));
    }
}

/// Removing a name that no entry carries changes nothing.
pub proof fn lemma_dir_remove_absent(s: Seq<(Seq<u8>, ChildV)>, name: Seq<u8>)
    requires
        forall|i: int| 0 <= i < s.len() ==> s[i].0 != name,
    ensures
        dir_remove(s, name) == s,
    decreases s.len(),
{
    if s.len() > 0 {
        lemma_dir_remove_absent(s.drop_first(), name);
        assert(seq![s[0]] + s.drop_first() =~= s);
    }
}

/// The view of an optional staging child.
pub open spec fn opt_child_view(c: Option<StageChild>) -> Option<ChildV> {
    match c {
        None => None,
        Some(x) => Some(child_view(x)),
    }
}

impl StageChild {
    /// A deep copy with the same shape.
    pub fn duplicate(&self) -> (r: StageChild)
        ensures
            child_view(r) == child_view(*self),
        decreases *self,
    {
        match self {
            StageChild::Blob(b) => StageChild::Blob(crate::bytes::clone_bytes(b)),
            StageChild::Subtree(t) => StageChild::Subtree(t.duplicate()),
        }
    }
}

impl StageTree {
    /// The empty tree.
    pub fn empty() -> (r: StageTree)
        ensures
            r.view() == Seq::<(Seq<u8>, ChildV)>::empty(),
    {
        StageTree { entries: Vec::new() }
    }

    /// A deep copy with the same shape.
    pub fn duplicate(&self) -> (r: StageTree)
        ensures
            r.view() == self.view(),
        decreases *self,
    {
        let mut entries: Vec<StageEntry> = Vec::new();
        let n = self.entries.len();
        let mut i: usize = 0;
        while i < n
            invariant
                i <= n,
                n == self.entries@.len(),
                entries_view(entries@) == entries_view(self.entries@.take(i as int)),
            decreases n - i,
        {
            let e = &self.entries[i];
            let copy = StageEntry { name: e.name.clone(), child: e.child.duplicate() };
            let ghost pre = entries@;
            entries.push(copy);
            proof {
                assert(entries@.drop_last() =~= pre);
                assert(self.entries@.take(i as int + 1).drop_last() =~= self.entries@.take(
                    i as int,
                ));
                assert(self.entries@.take(i as int + 1).last() == self.entries@[i as int]);
            }
            i = i + 1;
        }
        proof {
            assert(self.entries@.take(n as int) =~= self.entries@);
        }
        StageTree { entries }
    }

    /// The stored child named `name`, if any.
    pub fn child_at<'a>(&'a self, name: &str) -> (r: Option<&'a StageChild>)
        ensures
            match r {
                Some(c) => dir_get(self.view(), seg_bytes(name@)) == Some(child_view(*c)),
                None => dir_get(self.view(), seg_bytes(name@)) == None::<ChildV>,
            },
    {
        proof {
            lemma_entries_view(self.entries@);
        }
        let ghost target = seg_bytes(name@);
        let n = self.entries.len();
        let mut i: usize = 0;
        while i < n
            invariant
                i <= n,
                n == self.entries@.len(),
                forall|j: int| 0 <= j < i ==> self.view()[j].0 != target,
                target == seg_bytes(name@),
                entries_view(self.entries@).len() == n,
                forall|j: int|
                    0 <= j < n ==> entries_view(self.entries@)[j] == (
                    seg_bytes(self.entries@[j].name@),
                    child_view(self.entries@[j].child),
                    ),
            decreases n - i,
        {
            let cmp = crate::order::bytes_cmp(self.entries[i].name.as_str().as_bytes(), name.as_bytes());
            if cmp == 0 {
                proof {
                    lemma_dir_get_found(self.view(), target, i as int);
                }
                return Some(&self.entries[i].child);
            }
            i = i + 1;
        }
        proof {
            lemma_dir_get_absent(self.view(), target);
        }
        None
    }
}

impl StageTree {
    /// Store `child` under `name`, keeping entries sorted; an existing
    /// entry under the same name is replaced.
    pub fn insert_entry(&mut self, name: &String, child: StageChild)
        requires
            wf_dir(old(self).view()),
        ensures
            final(self).view() == dir_insert(
                old(self).view(),
                seg_bytes(name@),
                child_view(child),
            ),
    {
        proof {
            lemma_entries_view(self.entries@);
        }
        let ghost target = seg_bytes(name@);
        let ghost v0 = self.view();
        let ghost e0 = self.entries@;
        let n = self.entries.len();
        let mut i: usize = 0;
        let mut found: bool = false;
        loop
            invariant_except_break
                !found,
            invariant
                i <= n,
                *self == *old(self),
                n == e0.len(),
                e0 == self.entries@,
                v0 == entries_view(e0),
                wf_dir(v0),
                target == seg_bytes(name@),
                forall|j: int| 0 <= j < i ==> lex_lt(v0[j].0, target),
                v0.len() == n,
                forall|j: int|
                    0 <= j < n ==> v0[j] == (seg_bytes(e0[j].name@), child_view(e0[j].child)),
            ensures
                i <= n,
                found ==> i < n && v0[i as int].0 == target,
                !found ==> i == n || lex_lt(target, v0[i as int].0),
            decreases n - i,
        {
            if i == n {
                break ;
            }
            let cmp = crate::order::bytes_cmp(
                self.entries[i].name.as_str().as_bytes(),
                name.as_str().as_bytes(),
            );
            if cmp == 0 {
                found = true;
                break ;
            }
            if cmp == 1 {
                break ;
            }
            i = i + 1;
        }
        proof {
            lemma_dir_insert_at(v0, target, child_view(child), i as int);
        }
        let entry = StageEntry { name: name.clone(), child };
        let ghost ev = (target, child_view(entry.child));
        if found {
            self.entries.remove(i);
            self.entries.insert(i, entry);
            proof {
                assert(self.entries@ =~= e0.update(i as int, entry));
                lemma_entries_view(self.entries@);
                assert(self.view() =~= v0.update(i as int, ev));
            }
        } else {
            self.entries.insert(i, entry);
            proof {
                assert(self.entries@ =~= e0.insert(i as int, entry));
                lemma_entries_view(self.entries@);
                assert(self.view() =~= v0.insert(i as int, ev));
            }
        }
    }

    /// Drop the entry stored under `name`, if any.
    pub fn remove_entry(&mut self, name: &String)
        ensures
            final(self).view() == dir_remove(old(self).view(), seg_bytes(name@)),
    {
        proof {
            lemma_entries_view(self.entries@);
        }
        let ghost target = seg_bytes(name@);
        let ghost v0 = self.view();
        let ghost e0 = self.entries@;
        let n = self.entries.len();
        let mut i: usize = 0;
        while i < n
            invariant
                i <= n,
                *self == *old(self),
                n == e0.len(),
                e0 == self.entries@,
                v0 == entries_view(e0),
                target == seg_bytes(name@),
                forall|j: int| 0 <= j < i ==> v0[j].0 != target,
                v0.len() == n,
                forall|j: int|
                    0 <= j < n ==> v0[j] == (seg_bytes(e0[j].name@), child_view(e0[j].child)),
            decreases n - i,
        {
            let cmp = crate::order::bytes_cmp(
                self.entries[i].name.as_str().as_bytes(),
                name.as_str().as_bytes(),
            );
            if cmp == 0 {
                proof {
                    lemma_dir_remove_at(v0, target, i as int);
                }
                self.entries.remove(i);
                proof {
                    assert(self.entries@ =~= e0.remove(i as int));
                    lemma_entries_view(self.entries@);
                    assert(self.view() =~= v0.remove(i as int));
                }
                return ;
            }
            i = i + 1;
        }
        proof {
            lemma_dir_remove_absent(v0, target);
        }
    }

    /// A copy of the directory addressed by the first `upto` segments of
    /// `key`, or the empty tree where that path is absent or crosses a
    /// stored value.
    pub fn subtree_copy(&self, key: &Vec<String>, upto: usize) -> (r: StageTree)
        requires
            upto <= key@.len(),
        ensures
            r.view() == spec_find(self.view(), path_view(key@).take(upto as int)),
    {
        let ghost path = path_view(key@);
        let mut cur: &StageTree = self;
        let mut i: usize = 0;
        while i < upto
            invariant
                i <= upto,
                upto <= key@.len(),
                path == path_view(key@),
                path.len() == key@.len(),
                cur.view() == spec_find(self.view(), path.take(i as int)),
            decreases upto - i,
        {
            let step = cur.child_at(key[i].as_str());
            proof {
                assert(path.take(i as int).push(path[i as int]) =~= path.take(i as int + 1));
                lemma_find_snoc(self.view(), path.take(i as int), path[i as int]);
                assert(path.take(upto as int).take(i as int) =~= path.take(i as int));
                assert(path.take(upto as int)[i as int] == path[i as int]);
            }
            match step {
                Some(c) => {
                    match c {
                        StageChild::Subtree(t) => {
                            cur = t;
                        }
                        StageChild::Blob(_) => {
                            proof {
                                lemma_find_break(self.view(), path.take(upto as int), i as int);
                            }
                            return StageTree::empty();
                        }
                    }
                }
                None => {
                    proof {
                        lemma_find_break(self.view(), path.take(upto as int), i as int);
                    }
                    return StageTree::empty();
                }
            }
            i = i + 1;
        }
        cur.duplicate()
    }
}

/// Extending the sought path by one segment continues the find from the
/// directory found so far.
pub proof fn lemma_find_snoc(s: Seq<(Seq<u8>, ChildV)>, p: Seq<Seq<u8>>, x: Seq<u8>)
    ensures
        spec_find(s, p.push(x)) == match dir_get(spec_find(s, p), x) {
            Some(ChildV::Dir(s2)) => s2,
            _ => Seq::<(Seq<u8>, ChildV)>::empty(),
        },
{
    assert(p.push(x) =~= p + seq![x]);
    lemma_find_decompose(s, p, seq![x]);
    assert(seq![x][0] == x);
    assert(seq![x].drop_first() =~= Seq::<Seq<u8>>::empty());
    let sub = spec_find(s, p);
    match dir_get(sub, x) {
        Some(ChildV::Dir(s2)) => {
            assert(spec_find(sub, seq![x]) == spec_find(s2, seq![x].drop_first()));
            assert(spec_find(s2, Seq::<Seq<u8>>::empty()) == s2);
        }
        _ => {
            assert(spec_find(sub, seq![x]) == Seq::<(Seq<u8>, ChildV)>::empty());
        }
    }
}

/// Once a walk has broken off (the entry at step `i` is absent or not a
/// directory), the find of any longer path is the empty directory.
pub proof fn lemma_find_break(s: Seq<(Seq<u8>, ChildV)>, p: Seq<Seq<u8>>, i: int)
    requires
        0 <= i < p.len(),
        !(dir_get(spec_find(s, p.take(i)), p[i]) matches Some(ChildV::Dir(_))),
    ensures
        spec_find(s, p) == Seq::<(Seq<u8>, ChildV)>::empty(),
{
    assert(p =~= p.take(i) + p.subrange(i, p.len() as int));
    lemma_find_decompose(s, p.take(i), p.subrange(i, p.len() as int));
    let q = p.subrange(i, p.len() as int);
    assert(q[0] == p[i]);
    let sub = spec_find(s, p.take(i));
    assert(spec_find(sub, q) == Seq::<(Seq<u8>, ChildV)>::empty());
}

/// Walk a non-empty `key` from `root`, returning a reference to the child
/// it reaches.
pub fn stage_lookup<'a>(root: &'a StageTree, key: &Vec<String>) -> (r: Option<&'a StageChild>)
    requires
        key@.len() > 0,
    ensures
        match r {
            Some(c) => child_lookup(ChildV::Dir(root.view()), path_view(key@)) == Some(
                child_view(*c),
            ),
            None => child_lookup(ChildV::Dir(root.view()), path_view(key@)) == None::<ChildV>,
        },
{
    let ghost path = path_view(key@);
    let n = key.len();
    let mut cur: &StageTree = root;
    let mut i: usize = 0;
    loop
        invariant
            i < n,
            n == key@.len(),
            path == path_view(key@),
            path.len() == n,
            child_lookup(ChildV::Dir(root.view()), path.take(i as int)) == Some(
                ChildV::Dir(cur.view()),
            ),
        decreases n - i,
    {
        let seg: &String = &key[i];
        proof {
            assert(*seg == key@[i as int]);
        }
        let step = cur.child_at(seg.as_str());
        proof {
            lemma_lookup_decompose(
                ChildV::Dir(root.view()),
                path.take(i as int),
                path.subrange(i as int, n as int),
            );
            assert(path.take(i as int) + path.subrange(i as int, n as int) =~= path);
            assert(path.subrange(i as int, n as int)[0] == path[i as int]);
            assert(path[i as int] == seg_bytes(key@[i as int]@));
        }
        match step {
            Some(c) => {
                if i == n - 1 {
                    proof {
                        assert(path.subrange(i as int, n as int).drop_first()
                            =~= Seq::<Seq<u8>>::empty());
                        assert(child_lookup(
                            child_view(*c),
                            path.subrange(i as int, n as int).drop_first(),
                        ) == Some(child_view(*c)));
                        assert(child_lookup(
                            ChildV::Dir(cur.view()),
                            path.subrange(i as int, n as int),
                        ) == Some(child_view(*c)));
                        assert(child_lookup(ChildV::Dir(root.view()), path) == Some(
                            child_view(*c),
                        ));
                    }
                    return Some(c);
                }
                match c {
                    StageChild::Subtree(t) => {
                        proof {
                            lemma_lookup_decompose(
                                ChildV::Dir(root.view()),
                                path.take(i as int),
                                seq![path[i as int]],
                            );
                            assert(path.take(i as int) + seq![path[i as int]] =~= path.take(
                                i as int + 1,
                            ));
                            assert(seq![path[i as int]][0] == path[i as int]);
                            assert(seq![path[i as int]].drop_first() =~= Seq::<Seq<u8>>::empty());
                            assert(child_view(*c) == ChildV::Dir(t.view()));
                            assert(child_lookup(
                                ChildV::Dir(t.view()),
                                seq![path[i as int]].drop_first(),
                            ) == Some(ChildV::Dir(t.view())));
                            assert(child_lookup(ChildV::Dir(cur.view()), seq![path[i as int]])
                                == Some(ChildV::Dir(t.view())));
                        }
                        cur = t;
                    }
                    StageChild::Blob(_) => {
                        proof {
                            assert(path.subrange(i as int, n as int).drop_first()
                                =~= path.subrange(i as int + 1, n as int));
                        }
                        return None;
                    }
                }
            }
            None => {
                return None;
            }
        }
        i = i + 1;
    }
}

/// Apply one edit to `root`: store or remove a child at the path made of
/// the first `upto` segments of `key`, mirroring the recursive
/// recalculation that prunes empty directories on the way up.
pub fn apply_change(
    root: &StageTree,
    key: &Vec<String>,
    upto: usize,
    change: Option<StageChild>,
) -> (r: StageChild)
    requires
        upto <= key@.len(),
        wf_dir(root.view()),
    ensures
        child_view(r) == spec_apply(
            root.view(),
            path_view(key@).take(upto as int),
            opt_child_view(change),
        ),
    decreases upto,
{
    let ghost path = path_view(key@).take(upto as int);
    if upto == 0 {
        proof {
            assert(path =~= Seq::<Seq<u8>>::empty());
        }
        match change {
            Some(c) => c,
            None => StageChild::Subtree(root.duplicate()),
        }
    } else {
        let last = upto - 1;
        let mut sub = root.subtree_copy(key, last);
        proof {
            assert(path.drop_last() =~= path_view(key@).take(last as int));
            assert(path.last() == seg_bytes(key@[last as int]@));
            lemma_find_wf(root.view(), path.drop_last());
        }
        match change {
            None => {
                sub.remove_entry(&key[last]);
            }
            Some(c) => {
                sub.insert_entry(&key[last], c);
            }
        }
        if sub.entries.len() == 0 {
            proof {
                lemma_entries_view(sub.entries@);
            }
            apply_change(root, key, last, None)
        } else {
            proof {
                lemma_entries_view(sub.entries@);
            }
            apply_change(root, key, last, Some(StageChild::Subtree(sub)))
        }
    }
}

/// A removal changes what is stored under no other name.
pub proof fn lemma_dir_remove_get_other(
    s: Seq<(Seq<u8>, ChildV)>,
    name: Seq<u8>,
    other: Seq<u8>,
)
    requires
        other != name,
    ensures
        dir_get(dir_remove(s, name), other) == dir_get(s, other),
    decreases s.len(),
{
    if s.len() == 0 {
    } else if s[0].0 == name {
    } else {
        lemma_dir_remove_get_other(s.drop_first(), name, other);
        assert((seq![s[0]] + dir_remove(s.drop_first(), name))[0] == s[0]);
        assert((seq![s[0]] + dir_remove(s.drop_first(), name)).drop_first() =~= dir_remove(
            s.drop_first(),
            name,
        ));
    }
}

/// `a` leads into `b`: every segment of `a` starts `b`.
pub open spec fn is_path_prefix(a: Seq<Seq<u8>>, b: Seq<Seq<u8>>) -> bool {
    a.len() <= b.len() && a == b.take(a.len() as int)
}

/// An edit at `p` changes nothing a diverging path `q` reads: the paths
/// that change are exactly those through the edited path.
pub proof fn lemma_apply_frame(
    root: Seq<(Seq<u8>, ChildV)>,
    p: Seq<Seq<u8>>,
    change: Option<ChildV>,
    q: Seq<Seq<u8>>,
)
    requires
        wf_dir(root),
        p.len() > 0,
        !is_path_prefix(p, q),
        !is_path_prefix(q, p),
    ensures
        child_lookup(spec_apply(root, p, change), q) == child_lookup(ChildV::Dir(root), q),
    decreases p.len(),
{
    let prefix = p.drop_last();
    let last = p.last();
    let sub = spec_find(root, prefix);
    let sub2 = match change {
        None => dir_remove(sub, last),
        Some(c) => dir_insert(sub, last, c),
    };
    lemma_find_wf(root, prefix);
    if is_path_prefix(prefix, q) {
        // q continues below the edited directory's parent, along another
        // branch than the edited one.
        let qr = q.subrange(prefix.len() as int, q.len() as int);
        assert(prefix + qr =~= q);
        assert(qr.len() > 0) by {
            if qr.len() == 0 {
                assert(q =~= prefix);
                assert(q.take(q.len() as int) =~= q);
                assert(is_path_prefix(q, p));
            }
        }
        assert(qr[0] != last) by {
            if qr[0] == last {
                if qr.len() == 1 {
                    assert(q =~= p);
                    assert(q.take(q.len() as int) =~= q);
                    assert(is_path_prefix(q, p));
                } else {
                    assert(p =~= q.take(p.len() as int));
                    assert(is_path_prefix(p, q));
                }
            }
        }
        // reading q in the original tree goes through the found parent
        lemma_find_lookup(root, prefix, qr);
        match change {
            Some(c) => {
                lemma_dir_insert_get_same(sub, last, c);
                let result = spec_apply(root, prefix, Some(ChildV::Dir(sub2)));
                if prefix.len() == 0 {
                    assert(result == ChildV::Dir(sub2));
                    assert(child_lookup(result, q) == child_lookup(ChildV::Dir(sub2), qr));
                } else {
                    lemma_apply_insert_lookup(root, prefix, ChildV::Dir(sub2));
                    lemma_lookup_decompose(result, prefix, qr);
                }
                lemma_dir_insert_get_other(sub, last, c, qr[0]);
                assert(child_lookup(ChildV::Dir(sub2), qr) == child_lookup(
                    ChildV::Dir(sub),
                    qr,
                ));
            },
            None => {
                if sub2.len() == 0 {
                    // the edited directory emptied; pruning recurses, and
                    // the branch q reads was already absent
                    lemma_dir_remove_get_other(sub, last, qr[0]);
                    assert(dir_get(sub, qr[0]) == dir_get(sub2, qr[0]));
                    assert(dir_get(sub2, qr[0]) is None) by {
                        if dir_get(sub2, qr[0]) is Some {
                            lemma_dir_get_is_entry(sub2, qr[0]);
                        }
                    }
                    assert(child_lookup(ChildV::Dir(sub), qr) == None::<ChildV>);
                    let result = spec_apply(root, prefix, None);
                    if prefix.len() == 0 {
                        assert(result == ChildV::Dir(root));
                    } else {
                        lemma_apply_remove_lookup(root, prefix);
                        if child_lookup(result, prefix) == None::<ChildV> {
                            lemma_lookup_decompose(result, prefix, qr);
                        }
                    }
                } else {
                    let result = spec_apply(root, prefix, Some(ChildV::Dir(sub2)));
                    if prefix.len() == 0 {
                        assert(result == ChildV::Dir(sub2));
                        assert(child_lookup(result, q) == child_lookup(ChildV::Dir(sub2), qr));
                    } else {
                        lemma_apply_insert_lookup(root, prefix, ChildV::Dir(sub2));
                        lemma_lookup_decompose(result, prefix, qr);
                    }
                    lemma_dir_remove_get_other(sub, last, qr[0]);
                    assert(child_lookup(ChildV::Dir(sub2), qr) == child_lookup(
                        ChildV::Dir(sub),
                        qr,
                    ));
                }
            },
        }
    } else if is_path_prefix(q, prefix) {
        // excluded: q leading into the parent would lead into p
        assert(q == prefix.take(q.len() as int));
        assert(prefix.take(q.len() as int) =~= p.take(q.len() as int));
        assert(is_path_prefix(q, p));
    } else {
        // q diverges from the parent path already
        assert(prefix.len() > 0) by {
            if prefix.len() == 0 {
                assert(q.take(0) =~= prefix);
                assert(is_path_prefix(prefix, q));
            }
        }
        if sub2.len() == 0 {
            lemma_apply_frame(root, prefix, None, q);
        } else {
            lemma_apply_frame(root, prefix, Some(ChildV::Dir(sub2)), q);
        }
    }
}

} // verus!
