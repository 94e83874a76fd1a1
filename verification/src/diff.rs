//! The diff engine: two complementary walks over a pair of directory trees.
//!
//! The forward walk visits every file of the "before" tree and emits `Delete`
//! where the "after" tree has no file at the same relative path, `Modify`
//! where it has one with different bytes, and nothing where the bytes match.
//! The reverse walk visits every file of the "after" tree and emits `Add`
//! where nothing at all exists at that path in the "before" tree.
//!
//! Both walks skip a directory entirely when its name starts with `.` or
//! exactly matches a name in the ignore list; files are never skipped on
//! their own name.

use vstd::prelude::*;

use crate::bytes::{bytes_eq, copy_bytes, first_index_from, lemma_first_index_exact,
    lemma_first_index_from};
use crate::record::{ChangeType, FileDiff, RecordModel};
use crate::tree::{Node, Tree, find_entry, lemma_find_entry_wf, lookup_entry, node_names_ok,
    node_wf, tree_names_ok, tree_wf, valid_name};

verus! {

/// Whether a directory name marks a hidden directory: it starts with `.`
/// (the byte 0x2E).
pub open spec fn hidden_name(name: Seq<u8>) -> bool {
    name.len() > 0 && name[0] == 46u8
}

/// Whether `name` is in the ignore list.
pub open spec fn ignored_name(name: Seq<u8>, ignore: Seq<Seq<u8>>) -> bool {
    exists|i: int| 0 <= i < ignore.len() && ignore[i] == name
}

/// A directory with this name is walked; one that is hidden or ignored is
/// skipped with its whole subtree.
pub open spec fn walked_dir_name(name: Seq<u8>, ignore: Seq<Seq<u8>>) -> bool {
    !hidden_name(name) && !ignored_name(name, ignore)
}

/// The relative path of the entry `name` inside the directory at relative
/// path `prefix` (empty prefix for the root).
pub open spec fn child_path(prefix: Seq<u8>, name: Seq<u8>) -> Seq<u8> {
    if prefix.len() == 0 {
        name
    } else {
        prefix + seq![47u8] + name
    }
}

/// The file contents at entry `name` of the optional tree: `Some` only if
/// the tree is present and holds a file (not a directory) under that name.
pub open spec fn file_contents_at(t: Option<Tree>, name: Seq<u8>) -> Option<Seq<u8>> {
    match t {
        None => None,
        Some(t) => match find_entry(t, name) {
            Some(Node::File(c)) => Some(c@),
            _ => None,
        },
    }
}

/// Whether the optional tree has any entry (file or directory) named `name`.
pub open spec fn exists_at(t: Option<Tree>, name: Seq<u8>) -> bool {
    match t {
        None => false,
        Some(t) => find_entry(t, name) is Some,
    }
}

/// The subtree at entry `name` of the optional tree, if that entry is a
/// directory.
pub open spec fn subtree_at(t: Option<Tree>, name: Seq<u8>) -> Option<Tree> {
    match t {
        None => None,
        Some(t) => match find_entry(t, name) {
            Some(Node::Dir(sub)) => Some(sub),
            _ => None,
        },
    }
}

/// The record the forward walk emits for the file `name` (contents `c`) of
/// the "before" directory whose counterpart directory in the "after" tree is
/// `after`: `Delete` when `after` has no file there, `Modify` when it has one
/// with different bytes, nothing when the bytes are equal.
pub open spec fn spec_file_diff(
    prefix: Seq<u8>,
    name: Seq<u8>,
    c: Seq<u8>,
    after: Option<Tree>,
) -> Seq<RecordModel> {
    match file_contents_at(after, name) {
        None => seq![
            RecordModel { path: child_path(prefix, name), kind: ChangeType::Delete, contents: c },
        ],
        Some(c2) => if c2 == c {
            Seq::empty()
        } else {
            seq![
                RecordModel {
                    path: child_path(prefix, name),
                    kind: ChangeType::Modify,
                    contents: c2,
                },
            ]
        },
    }
}

/// The records of the forward walk over `before` from entry `i` on, where
/// `after` is the counterpart directory (if any) in the "after" tree and
/// `prefix` is the relative path of `before` under its root.
pub open spec fn spec_forward_from(
    before: Tree,
    i: int,
    after: Option<Tree>,
    prefix: Seq<u8>,
    ignore: Seq<Seq<u8>>,
) -> Seq<RecordModel>
    decreases before, before.entries@.len() - i,
{
    if i < 0 || i >= before.entries@.len() {
        Seq::empty()
    } else {
        let e = before.entries@[i];
        let here = match e.node {
            Node::File(c) => spec_file_diff(prefix, e.name@, c@, after),
            Node::Dir(sub) => if walked_dir_name(e.name@, ignore) {
                spec_forward_from(
                    sub,
                    0,
                    subtree_at(after, e.name@),
                    child_path(prefix, e.name@),
                    ignore,
                )
            } else {
                Seq::empty()
            },
        };
        here + spec_forward_from(before, i + 1, after, prefix, ignore)
    }
}

/// The records of the reverse walk over `after` from entry `i` on, where
/// `before` is the counterpart directory (if any) in the "before" tree: one
/// `Add` per file that has no counterpart of any kind.
pub open spec fn spec_reverse_from(
    after: Tree,
    i: int,
    before: Option<Tree>,
    prefix: Seq<u8>,
    ignore: Seq<Seq<u8>>,
) -> Seq<RecordModel>
    decreases after, after.entries@.len() - i,
{
    if i < 0 || i >= after.entries@.len() {
        Seq::empty()
    } else {
        let e = after.entries@[i];
        let here = match e.node {
            Node::File(c) => if !exists_at(before, e.name@) {
                seq![
                    RecordModel {
                        path: child_path(prefix, e.name@),
                        kind: ChangeType::Add,
                        contents: c@,
                    },
                ]
            } else {
                Seq::empty()
            },
            Node::Dir(sub) => if walked_dir_name(e.name@, ignore) {
                spec_reverse_from(
                    sub,
                    0,
                    subtree_at(before, e.name@),
                    child_path(prefix, e.name@),
                    ignore,
                )
            } else {
                Seq::empty()
            },
        };
        here + spec_reverse_from(after, i + 1, before, prefix, ignore)
    }
}

/// The whole diff: the forward walk's `Delete` and `Modify` records, then the
/// reverse walk's `Add` records.
pub open spec fn spec_gen_diff(before: Tree, after: Tree, ignore: Seq<Seq<u8>>) -> Seq<
    RecordModel,
> {
    spec_forward_from(before, 0, Some(after), Seq::empty(), ignore)
        + spec_reverse_from(after, 0, Some(before), Seq::empty(), ignore)
}

/// The models of the ignore list.
pub open spec fn names_of(ignore: Seq<Vec<u8>>) -> Seq<Seq<u8>> {
    ignore.map_values(|v: Vec<u8>| v@)
}

/// Build the relative path of entry `name` under `prefix`.
fn child_path_vec(prefix: &Vec<u8>, name: &Vec<u8>) -> (r: Vec<u8>)
    ensures
        r@ == child_path(prefix@, name@),
{
    if prefix.len() == 0 {
        let r = copy_bytes(name);
        proof {
            assert(r@ =~= child_path(prefix@, name@));
        }
        r
    } else {
        let mut r = copy_bytes(prefix);
        r.push(47);
        let mut n = copy_bytes(name);
        r.append(&mut n);
        proof {
            assert(r@ =~= child_path(prefix@, name@));
        }
        r
    }
}

/// Whether `name` starts with the hidden marker `.`.
fn is_hidden_name(name: &Vec<u8>) -> (r: bool)
    ensures
        r == hidden_name(name@),
{
    name.len() > 0 && name[0] == 46
}

/// Whether `name` is in the ignore list.
fn is_ignored_name(name: &Vec<u8>, ignore: &Vec<Vec<u8>>) -> (r: bool)
    ensures
        r == ignored_name(name@, names_of(ignore@)),
{
    let mut i: usize = 0;
    while i < ignore.len()
        invariant
            0 <= i <= ignore@.len(),
            forall|k: int| 0 <= k < i ==> names_of(ignore@)[k] != name@,
        decreases ignore@.len() - i,
    {
        if bytes_eq(&ignore[i], name) {
            assert(names_of(ignore@)[i as int] == name@);
            return true;
        }
        i += 1;
    }
    false
}

/// The forward walk: `Delete` and `Modify` records for the files of
/// `before`, compared against the counterpart directory `after`.
fn forward_diff(
    before: &Tree,
    after: Option<&Tree>,
    prefix: &Vec<u8>,
    ignore: &Vec<Vec<u8>>,
) -> (r: Vec<FileDiff>)
    ensures
        r@.map_values(|d: FileDiff| d@) == spec_forward_from(
            *before,
            0,
            match after {
                Some(t) => Some(*t),
                None => None,
            },
            prefix@,
            names_of(ignore@),
        ),
    decreases *before,
{
    let ghost aft: Option<Tree> = match after {
        Some(t) => Some(*t),
        None => None,
    };
    let mut out: Vec<FileDiff> = Vec::new();
    let mut i: usize = 0;
    while i < before.entries.len()
        invariant
            0 <= i <= before.entries@.len(),
            aft == (match after {
                Some(t) => Some(*t),
                None => None::<Tree>,
            }),
            out@.map_values(|d: FileDiff| d@) + spec_forward_from(
                *before,
                i as int,
                aft,
                prefix@,
                names_of(ignore@),
            ) == spec_forward_from(*before, 0, aft, prefix@, names_of(ignore@)),
        decreases before.entries@.len() - i,
    {
        let ghost gign = names_of(ignore@);
        let ghost out0 = out@.map_values(|d: FileDiff| d@);
        let e = &before.entries[i];
        let ghost here = match &e.node {
            Node::File(c) => spec_file_diff(prefix@, e.name@, c@, aft),
            Node::Dir(sub) => if walked_dir_name(e.name@, gign) {
                spec_forward_from(*sub, 0, subtree_at(aft, e.name@), child_path(prefix@, e.name@), gign)
            } else {
                Seq::empty()
            },
        };
        match &e.node {
            Node::File(c) => {
                let counterpart: Option<&Vec<u8>> = match after {
                    None => None,
                    Some(t) => {
                        let found = lookup_entry(t, &e.name);
                        match found {
                            Some(n) => {
                                proof {
                                    assert(find_entry(*t, e.name@) == Some(*n));
                                }
                                match n {
                                    Node::File(c2) => Some(c2),
                                    Node::Dir(_) => None,
                                }
                            },
                            None => None,
                        }
                    },
                };
                proof {
                    assert(file_contents_at(aft, e.name@) == match counterpart {
                        Some(c2) => Some(c2@),
                        None => None::<Seq<u8>>,
                    });
                }
                match counterpart {
                    None => {
                        let fd = FileDiff {
                            path: child_path_vec(prefix, &e.name),
                            change_type: ChangeType::Delete,
                            change_contents: copy_bytes(c),
                        };
                        proof {
                            assert(here == seq![fd@]);
                        }
                        push_record(&mut out, fd, Ghost(here));
                    },
                    Some(c2) => {
                        if !bytes_eq(c, c2) {
                            let fd = FileDiff {
                                path: child_path_vec(prefix, &e.name),
                                change_type: ChangeType::Modify,
                                change_contents: copy_bytes(c2),
                            };
                            proof {
                                assert(here == seq![fd@]);
                            }
                            push_record(&mut out, fd, Ghost(here));
                        } else {
                            proof {
                                assert(here =~= Seq::<RecordModel>::empty());
                                assert(out0 + here =~= out0);
                            }
                        }
                    },
                }
            },
            Node::Dir(sub) => {
                if !is_hidden_name(&e.name) && !is_ignored_name(&e.name, ignore) {
                    let counterpart: Option<&Tree> = match after {
                        None => None,
                        Some(t) => {
                            let found = lookup_entry(t, &e.name);
                            match found {
                                Some(n) => {
                                    proof {
                                        assert(find_entry(*t, e.name@) == Some(*n));
                                    }
                                    match n {
                                        Node::Dir(s2) => Some(s2),
                                        Node::File(_) => None,
                                    }
                                },
                                None => None,
                            }
                        },
                    };
                    proof {
                        assert(subtree_at(aft, e.name@) == match counterpart {
                            Some(s2) => Some(*s2),
                            None => None::<Tree>,
                        });
                    }
                    let pfx = child_path_vec(prefix, &e.name);
                    let mut sub_out = forward_diff(sub, counterpart, &pfx, ignore);
                    proof {
                        let a = out@.map_values(|d: FileDiff| d@);
                        let b = sub_out@.map_values(|d: FileDiff| d@);
                        assert((out@ + sub_out@).map_values(|d: FileDiff| d@) =~= a + b);
                    }
                    out.append(&mut sub_out);
                } else {
                    proof {
                        assert(here =~= Seq::<RecordModel>::empty());
                        assert(out0 + here =~= out0);
                    }
                }
            },
        }
        proof {
            let tail = spec_forward_from(*before, i as int + 1, aft, prefix@, gign);
            assert(spec_forward_from(*before, i as int, aft, prefix@, gign) == here + tail);
            assert(out@.map_values(|d: FileDiff| d@) == out0 + here);
            lemma_concat_assoc_records(out0, here, tail);
        }
        i += 1;
    }
    proof {
        assert(out@.map_values(|d: FileDiff| d@) + Seq::<RecordModel>::empty() =~= out@.map_values(
            |d: FileDiff| d@,
        ));
    }
    out
}

/// The reverse walk: one `Add` record per file of `after` that has no
/// counterpart entry of any kind in the "before" directory `before`.
fn reverse_diff(
    after: &Tree,
    before: Option<&Tree>,
    prefix: &Vec<u8>,
    ignore: &Vec<Vec<u8>>,
) -> (r: Vec<FileDiff>)
    ensures
        r@.map_values(|d: FileDiff| d@) == spec_reverse_from(
            *after,
            0,
            match before {
                Some(t) => Some(*t),
                None => None,
            },
            prefix@,
            names_of(ignore@),
        ),
    decreases *after,
{
    let ghost bef: Option<Tree> = match before {
        Some(t) => Some(*t),
        None => None,
    };
    let mut out: Vec<FileDiff> = Vec::new();
    let mut i: usize = 0;
    while i < after.entries.len()
        invariant
            0 <= i <= after.entries@.len(),
            bef == (match before {
                Some(t) => Some(*t),
                None => None::<Tree>,
            }),
            out@.map_values(|d: FileDiff| d@) + spec_reverse_from(
                *after,
                i as int,
                bef,
                prefix@,
                names_of(ignore@),
            ) == spec_reverse_from(*after, 0, bef, prefix@, names_of(ignore@)),
        decreases after.entries@.len() - i,
    {
        let ghost gign = names_of(ignore@);
        let ghost out0 = out@.map_values(|d: FileDiff| d@);
        let e = &after.entries[i];
        let ghost here = match &e.node {
            Node::File(c) => if !exists_at(bef, e.name@) {
                seq![
                    RecordModel {
                        path: child_path(prefix@, e.name@),
                        kind: ChangeType::Add,
                        contents: c@,
                    },
                ]
            } else {
                Seq::empty()
            },
            Node::Dir(sub) => if walked_dir_name(e.name@, gign) {
                spec_reverse_from(
                    *sub,
                    0,
                    subtree_at(bef, e.name@),
                    child_path(prefix@, e.name@),
                    gign,
                )
            } else {
                Seq::empty()
            },
        };
        match &e.node {
            Node::File(c) => {
                let present: bool = match before {
                    None => false,
                    Some(t) => lookup_entry(t, &e.name).is_some(),
                };
                proof {
                    assert(present == exists_at(bef, e.name@));
                }
                if !present {
                    let fd = FileDiff {
                        path: child_path_vec(prefix, &e.name),
                        change_type: ChangeType::Add,
                        change_contents: copy_bytes(c),
                    };
                    proof {
                        assert(here == seq![fd@]);
                    }
                    push_record(&mut out, fd, Ghost(here));
                } else {
                    proof {
                        assert(here =~= Seq::<RecordModel>::empty());
                        assert(out0 + here =~= out0);
                    }
                }
            },
            Node::Dir(sub) => {
                if !is_hidden_name(&e.name) && !is_ignored_name(&e.name, ignore) {
                    let counterpart: Option<&Tree> = match before {
                        None => None,
                        Some(t) => {
                            let found = lookup_entry(t, &e.name);
                            match found {
                                Some(n) => {
                                    proof {
                                        assert(find_entry(*t, e.name@) == Some(*n));
                                    }
                                    match n {
                                        Node::Dir(s2) => Some(s2),
                                        Node::File(_) => None,
                                    }
                                },
                                None => None,
                            }
                        },
                    };
                    proof {
                        assert(subtree_at(bef, e.name@) == match counterpart {
                            Some(s2) => Some(*s2),
                            None => None::<Tree>,
                        });
                    }
                    let pfx = child_path_vec(prefix, &e.name);
                    let mut sub_out = reverse_diff(sub, counterpart, &pfx, ignore);
                    proof {
                        let a = out@.map_values(|d: FileDiff| d@);
                        let b = sub_out@.map_values(|d: FileDiff| d@);
                        assert((out@ + sub_out@).map_values(|d: FileDiff| d@) =~= a + b);
                    }
                    out.append(&mut sub_out);
                } else {
                    proof {
                        assert(here =~= Seq::<RecordModel>::empty());
                        assert(out0 + here =~= out0);
                    }
                }
            },
        }
        proof {
            let tail = spec_reverse_from(*after, i as int + 1, bef, prefix@, gign);
            assert(spec_reverse_from(*after, i as int, bef, prefix@, gign) == here + tail);
            assert(out@.map_values(|d: FileDiff| d@) == out0 + here);
            lemma_concat_assoc_records(out0, here, tail);
        }
        i += 1;
    }
    proof {
        assert(out@.map_values(|d: FileDiff| d@) + Seq::<RecordModel>::empty() =~= out@.map_values(
            |d: FileDiff| d@,
        ));
    }
    out
}

/// Compute the whole diff between the `before` and `after` trees: `Delete`
/// and `Modify` records from the forward walk, then `Add` records from the
/// reverse walk. Directories named in `ignore_dirs`, and directories whose
/// name starts with `.`, are skipped with their whole subtrees.
pub fn gen_diff(before: &Tree, after: &Tree, ignore_dirs: &Vec<Vec<u8>>) -> (r: Vec<FileDiff>)
    ensures
        r@.map_values(|d: FileDiff| d@) == spec_gen_diff(*before, *after, names_of(ignore_dirs@)),
{
    let root_prefix: Vec<u8> = Vec::new();
    let mut out = forward_diff(before, Some(after), &root_prefix, ignore_dirs);
    let mut adds = reverse_diff(after, Some(before), &root_prefix, ignore_dirs);
    proof {
        let a = out@.map_values(|d: FileDiff| d@);
        let b = adds@.map_values(|d: FileDiff| d@);
        assert((out@ + adds@).map_values(|d: FileDiff| d@) =~= a + b);
        assert(root_prefix@ =~= Seq::<u8>::empty());
    }
    out.append(&mut adds);
    out
}

/// Push one record whose singleton model sequence is `here`.
fn push_record(out: &mut Vec<FileDiff>, fd: FileDiff, Ghost(here): Ghost<Seq<RecordModel>>)
    requires
        here == seq![fd@],
    ensures
        final(out)@ == old(out)@.push(fd),
        final(out)@.map_values(|d: FileDiff| d@) == old(out)@.map_values(|d: FileDiff| d@) + here,
{
    proof {
        assert(old(out)@.push(fd).map_values(|d: FileDiff| d@) =~= old(out)@.map_values(
            |d: FileDiff| d@,
        ) + seq![fd@]);
    }
    out.push(fd);
}

proof fn lemma_concat_assoc_records(a: Seq<RecordModel>, b: Seq<RecordModel>, c: Seq<RecordModel>)
    ensures
        (a + b) + c =~= a + (b + c),
{
}

/// The components of a relative path, split at each `/` byte.
pub open spec fn split_path(p: Seq<u8>) -> Seq<Seq<u8>>
    decreases p.len()
    via split_path_decreases
{
    match first_index_from(p, 0, 47u8) {
        None => seq![p],
        Some(t) => seq![p.subrange(0, t)] + split_path(p.skip(t + 1)),
    }
}

#[via_fn]
proof fn split_path_decreases(p: Seq<u8>) {
    lemma_first_index_from(p, 0, 47u8);
}

/// The relative path with the given components: the components joined
/// with `/`.
pub open spec fn join_comps(cs: Seq<Seq<u8>>) -> Seq<u8>
    decreases cs.len(),
{
    if cs.len() == 0 {
        Seq::empty()
    } else if cs.len() == 1 {
        cs[0]
    } else {
        cs[0] + seq![47u8] + join_comps(cs.skip(1))
    }
}

/// A joined path of valid components is never empty.
proof fn lemma_join_nonempty(cs: Seq<Seq<u8>>)
    requires
        cs.len() >= 1,
        valid_name(cs[0]),
    ensures
        join_comps(cs).len() > 0,
{
}

/// Extending a relative path by one entry name appends one component.
proof fn lemma_child_path_join(cs: Seq<Seq<u8>>, n: Seq<u8>)
    requires
        forall|j: int| 0 <= j < cs.len() ==> valid_name(#[trigger] cs[j]),
    ensures
        child_path(join_comps(cs), n) == join_comps(cs.push(n)),
    decreases cs.len(),
{
    reveal_with_fuel(join_comps, 3);
    if cs.len() == 0 {
        assert(cs.push(n).len() == 1 && cs.push(n)[0] == n);
    } else if cs.len() == 1 {
        lemma_join_nonempty(cs);
        assert(cs.push(n).skip(1) =~= seq![n]);
        assert(cs.push(n)[0] == cs[0]);
    } else {
        lemma_join_nonempty(cs);
        assert(forall|j: int| 0 <= j < cs.skip(1).len() ==> valid_name(#[trigger] cs.skip(1)[j]));
        lemma_child_path_join(cs.skip(1), n);
        lemma_join_nonempty(cs.skip(1));
        assert(cs.push(n).skip(1) =~= cs.skip(1).push(n));
        assert(cs.push(n)[0] == cs[0]);
        assert((cs[0] + seq![47u8] + join_comps(cs.skip(1))) + seq![47u8] + n =~= cs[0] + seq![47u8]
            + (join_comps(cs.skip(1)) + seq![47u8] + n));
    }
}

/// Splitting a join of valid components yields the components back.
pub proof fn lemma_split_join(cs: Seq<Seq<u8>>)
    requires
        cs.len() >= 1,
        forall|j: int| 0 <= j < cs.len() ==> valid_name(#[trigger] cs[j]),
    ensures
        split_path(join_comps(cs)) == cs,
    decreases cs.len(),
{
    reveal_with_fuel(join_comps, 3);
    reveal_with_fuel(split_path, 3);
    let p = join_comps(cs);
    lemma_first_index_from(p, 0, 47u8);
    if cs.len() == 1 {
        if first_index_from(p, 0, 47u8) is Some {
            let t = first_index_from(p, 0, 47u8).unwrap();
            assert(p.contains(47u8));
        }
        assert(seq![p] =~= cs);
    } else {
        let c0 = cs[0];
        let rest = join_comps(cs.skip(1));
        assert(p == c0 + seq![47u8] + rest);
        assert(forall|k: int| 0 <= k < c0.len() ==> p[k] == c0[k]);
        assert forall|k: int| 0 <= k < c0.len() implies p[k] != 47u8 by {
            if c0[k] == 47u8 {
                assert(c0.contains(47u8));
            }
        }
        assert(p[c0.len() as int] == 47u8);
        lemma_first_index_exact(p, 0, c0.len() as int, 47u8);
        assert(p.subrange(0, c0.len() as int) =~= c0);
        assert(p.skip(c0.len() as int + 1) =~= rest);
        assert(forall|j: int| 0 <= j < cs.skip(1).len() ==> valid_name(#[trigger] cs.skip(1)[j]));
        lemma_split_join(cs.skip(1));
        assert(seq![c0] + cs.skip(1) =~= cs);
    }
}

/// Every component of the path but the last (the file's own name) is the
/// name of a directory that the walks descend into: not hidden and not in
/// the ignore list.
pub open spec fn parent_dirs_walked(p: Seq<u8>, ignore: Seq<Seq<u8>>) -> bool {
    forall|j: int|
        0 <= j < split_path(p).len() - 1 ==> walked_dir_name(#[trigger] split_path(p)[j], ignore)
}

proof fn lemma_forward_paths(
    t: Tree,
    i: int,
    after: Option<Tree>,
    pcomps: Seq<Seq<u8>>,
    ignore: Seq<Seq<u8>>,
)
    requires
        tree_names_ok(t),
        forall|j: int| 0 <= j < pcomps.len() ==> valid_name(#[trigger] pcomps[j]),
        forall|j: int| 0 <= j < pcomps.len() ==> walked_dir_name(#[trigger] pcomps[j], ignore),
    ensures
        ({
            let w = spec_forward_from(t, i, after, join_comps(pcomps), ignore);
            forall|k: int| 0 <= k < w.len() ==> parent_dirs_walked((#[trigger] w[k]).path, ignore)
        }),
    decreases t, t.entries@.len() - i,
{
    let w = spec_forward_from(t, i, after, join_comps(pcomps), ignore);
    if 0 <= i < t.entries@.len() {
        let e = t.entries@[i];
        assert(valid_name(e.name@) && node_names_ok(e.node));
        let here = match e.node {
            Node::File(c) => spec_file_diff(join_comps(pcomps), e.name@, c@, after),
            Node::Dir(sub) => if walked_dir_name(e.name@, ignore) {
                spec_forward_from(
                    sub,
                    0,
                    subtree_at(after, e.name@),
                    child_path(join_comps(pcomps), e.name@),
                    ignore,
                )
            } else {
                Seq::empty()
            },
        };
        let tail = spec_forward_from(t, i + 1, after, join_comps(pcomps), ignore);
        assert(w == here + tail);
        match e.node {
            Node::File(c) => {
                lemma_child_path_join(pcomps, e.name@);
                assert(forall|j: int|
                    0 <= j < pcomps.push(e.name@).len() ==> valid_name(
                        #[trigger] pcomps.push(e.name@)[j],
                    ));
                lemma_split_join(pcomps.push(e.name@));
                assert(forall|k: int|
                    0 <= k < here.len() ==> (#[trigger] here[k]).path == child_path(
                        join_comps(pcomps),
                        e.name@,
                    ));
                assert forall|k: int| 0 <= k < here.len() implies parent_dirs_walked(
                    (#[trigger] here[k]).path,
                    ignore,
                ) by {
                    let comps = split_path(here[k].path);
                    assert(comps == pcomps.push(e.name@));
                    assert(forall|j: int| 0 <= j < comps.len() - 1 ==> comps[j] == pcomps[j]);
                }
            },
            Node::Dir(sub) => {
                if walked_dir_name(e.name@, ignore) {
                    lemma_child_path_join(pcomps, e.name@);
                    assert(forall|j: int|
                        0 <= j < pcomps.push(e.name@).len() ==> valid_name(
                            #[trigger] pcomps.push(e.name@)[j],
                        ));
                    assert(forall|j: int|
                        0 <= j < pcomps.push(e.name@).len() ==> walked_dir_name(
                            #[trigger] pcomps.push(e.name@)[j],
                            ignore,
                        ));
                    lemma_forward_paths(
                        sub,
                        0,
                        subtree_at(after, e.name@),
                        pcomps.push(e.name@),
                        ignore,
                    );
                }
            },
        }
        lemma_forward_paths(t, i + 1, after, pcomps, ignore);
        assert forall|k: int| 0 <= k < w.len() implies parent_dirs_walked(
            (#[trigger] w[k]).path,
            ignore,
        ) by {
            if k < here.len() {
                assert(w[k] == here[k]);
            } else {
                assert(w[k] == tail[k - here.len()]);
            }
        }
    }
}

proof fn lemma_reverse_paths(
    t: Tree,
    i: int,
    before: Option<Tree>,
    pcomps: Seq<Seq<u8>>,
    ignore: Seq<Seq<u8>>,
)
    requires
        tree_names_ok(t),
        forall|j: int| 0 <= j < pcomps.len() ==> valid_name(#[trigger] pcomps[j]),
        forall|j: int| 0 <= j < pcomps.len() ==> walked_dir_name(#[trigger] pcomps[j], ignore),
    ensures
        ({
            let w = spec_reverse_from(t, i, before, join_comps(pcomps), ignore);
            forall|k: int| 0 <= k < w.len() ==> parent_dirs_walked((#[trigger] w[k]).path, ignore)
        }),
    decreases t, t.entries@.len() - i,
{
    let w = spec_reverse_from(t, i, before, join_comps(pcomps), ignore);
    if 0 <= i < t.entries@.len() {
        let e = t.entries@[i];
        assert(valid_name(e.name@) && node_names_ok(e.node));
        let here = match e.node {
            Node::File(c) => if !exists_at(before, e.name@) {
                seq![
                    RecordModel {
                        path: child_path(join_comps(pcomps), e.name@),
                        kind: ChangeType::Add,
                        contents: c@,
                    },
                ]
            } else {
                Seq::empty()
            },
            Node::Dir(sub) => if walked_dir_name(e.name@, ignore) {
                spec_reverse_from(
                    sub,
                    0,
                    subtree_at(before, e.name@),
                    child_path(join_comps(pcomps), e.name@),
                    ignore,
                )
            } else {
                Seq::empty()
            },
        };
        let tail = spec_reverse_from(t, i + 1, before, join_comps(pcomps), ignore);
        assert(w == here + tail);
        match e.node {
            Node::File(c) => {
                lemma_child_path_join(pcomps, e.name@);
                assert(forall|j: int|
                    0 <= j < pcomps.push(e.name@).len() ==> valid_name(
                        #[trigger] pcomps.push(e.name@)[j],
                    ));
                lemma_split_join(pcomps.push(e.name@));
                assert forall|k: int| 0 <= k < here.len() implies parent_dirs_walked(
                    (#[trigger] here[k]).path,
                    ignore,
                ) by {
                    let comps = split_path(here[k].path);
                    assert(comps == pcomps.push(e.name@));
                    assert(forall|j: int| 0 <= j < comps.len() - 1 ==> comps[j] == pcomps[j]);
                }
            },
            Node::Dir(sub) => {
                if walked_dir_name(e.name@, ignore) {
                    lemma_child_path_join(pcomps, e.name@);
                    assert(forall|j: int|
                        0 <= j < pcomps.push(e.name@).len() ==> valid_name(
                            #[trigger] pcomps.push(e.name@)[j],
                        ));
                    assert(forall|j: int|
                        0 <= j < pcomps.push(e.name@).len() ==> walked_dir_name(
                            #[trigger] pcomps.push(e.name@)[j],
                            ignore,
                        ));
                    lemma_reverse_paths(
                        sub,
                        0,
                        subtree_at(before, e.name@),
                        pcomps.push(e.name@),
                        ignore,
                    );
                }
            },
        }
        lemma_reverse_paths(t, i + 1, before, pcomps, ignore);
        assert forall|k: int| 0 <= k < w.len() implies parent_dirs_walked(
            (#[trigger] w[k]).path,
            ignore,
        ) by {
            if k < here.len() {
                assert(w[k] == here[k]);
            } else {
                assert(w[k] == tail[k - here.len()]);
            }
        }
    }
}

/// Skip law: a hidden directory (its name starts with `.`), or a directory
/// whose name is in the ignore list, produces no records — every record of
/// the diff has only walked (non-hidden, non-ignored) directories on its
/// path, so no record points at a file beneath a skipped directory.
pub proof fn lemma_skipped_dirs_produce_no_records(
    before: Tree,
    after: Tree,
    ignore: Seq<Seq<u8>>,
)
    requires
        tree_names_ok(before),
        tree_names_ok(after),
    ensures
        ({
            let rs = spec_gen_diff(before, after, ignore);
            forall|k: int| 0 <= k < rs.len() ==> parent_dirs_walked((#[trigger] rs[k]).path, ignore)
        }),
{
    let rs = spec_gen_diff(before, after, ignore);
    let pcomps = Seq::<Seq<u8>>::empty();
    assert(join_comps(pcomps) == Seq::<u8>::empty());
    lemma_forward_paths(before, 0, Some(after), pcomps, ignore);
    lemma_reverse_paths(after, 0, Some(before), pcomps, ignore);
    let f = spec_forward_from(before, 0, Some(after), Seq::empty(), ignore);
    let r = spec_reverse_from(after, 0, Some(before), Seq::empty(), ignore);
    assert forall|k: int| 0 <= k < rs.len() implies parent_dirs_walked(
        (#[trigger] rs[k]).path,
        ignore,
    ) by {
        if k < f.len() {
            assert(rs[k] == f[k]);
        } else {
            assert(rs[k] == r[k - f.len()]);
        }
    }
}

proof fn lemma_forward_self(t: Tree, i: int, prefix: Seq<u8>, ignore: Seq<Seq<u8>>)
    requires
        tree_wf(t),
    ensures
        spec_forward_from(t, i, Some(t), prefix, ignore) == Seq::<RecordModel>::empty(),
    decreases t, t.entries@.len() - i,
{
    if 0 <= i < t.entries@.len() {
        let e = t.entries@[i];
        lemma_find_entry_wf(t, i);
        assert(node_wf(e.node));
        match e.node {
            Node::File(c) => {
                assert(file_contents_at(Some(t), e.name@) == Some(c@));
            },
            Node::Dir(sub) => {
                if walked_dir_name(e.name@, ignore) {
                    assert(subtree_at(Some(t), e.name@) == Some(sub));
                    lemma_forward_self(sub, 0, child_path(prefix, e.name@), ignore);
                }
            },
        }
        lemma_forward_self(t, i + 1, prefix, ignore);
        assert(spec_forward_from(t, i, Some(t), prefix, ignore) =~= Seq::<RecordModel>::empty());
    }
}

proof fn lemma_reverse_self(t: Tree, i: int, prefix: Seq<u8>, ignore: Seq<Seq<u8>>)
    requires
        tree_wf(t),
    ensures
        spec_reverse_from(t, i, Some(t), prefix, ignore) == Seq::<RecordModel>::empty(),
    decreases t, t.entries@.len() - i,
{
    if 0 <= i < t.entries@.len() {
        let e = t.entries@[i];
        lemma_find_entry_wf(t, i);
        assert(node_wf(e.node));
        match e.node {
            Node::File(c) => {
                assert(exists_at(Some(t), e.name@));
            },
            Node::Dir(sub) => {
                if walked_dir_name(e.name@, ignore) {
                    assert(subtree_at(Some(t), e.name@) == Some(sub));
                    lemma_reverse_self(sub, 0, child_path(prefix, e.name@), ignore);
                }
            },
        }
        lemma_reverse_self(t, i + 1, prefix, ignore);
        assert(spec_reverse_from(t, i, Some(t), prefix, ignore) =~= Seq::<RecordModel>::empty());
    }
}

/// No-op law: diffing a well-formed tree against itself yields no records,
/// whatever the ignore list.
pub proof fn lemma_noop_on_identical(t: Tree, ignore: Seq<Seq<u8>>)
    requires
        tree_wf(t),
    ensures
        spec_gen_diff(t, t, ignore) == Seq::<RecordModel>::empty(),
{
    lemma_forward_self(t, 0, Seq::empty(), ignore);
    lemma_reverse_self(t, 0, Seq::empty(), ignore);
    assert(spec_gen_diff(t, t, ignore) =~= Seq::<RecordModel>::empty());
}

} // verus!
