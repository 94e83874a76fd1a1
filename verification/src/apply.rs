//! The apply engine: replay a sequence of change records against a directory
//! tree, in order, stopping at the first record that cannot be applied.
//!
//! Per record: `Add` creates missing parent directories and writes the file
//! (overwriting a file already there); `Modify` overwrites (or creates) the
//! file but creates no directories; `Delete` removes the file. A record fails
//! — as the corresponding filesystem operation would — when a file stands
//! where a directory is needed, when a directory stands where the file should
//! be written, when a parent directory is missing for `Modify` or `Delete`,
//! or when `Delete` finds no file. A failed record leaves the tree unchanged,
//! but records already applied stay applied.

use vstd::prelude::*;

use crate::bytes::{copy_bytes, find_byte_from, first_index_from, lemma_first_index_from,
    lemma_first_index_suffix, subrange_vec};
use crate::diff::{child_path, exists_at, file_contents_at, join_comps, lemma_split_join,
    spec_file_diff, spec_forward_from, spec_gen_diff, spec_reverse_from, split_path};
use crate::record::{ChangeType, FileDiff, RecordModel, models_of};
use crate::tree::{Node, NodeModel, Tree, TreeEntry, TreeModel, find_entry, lemma_model_find,
    lemma_model_index_from, model_index_from, node_model, tree_model, tree_names_ok, tree_wf,
    valid_name};

verus! {

/// Why an apply run stopped: a change record could not be replayed against
/// the target tree.
#[derive(Clone, Copy, PartialEq, Eq, Structural, Debug)]
pub enum ApplyError {
    FilesystemOperationFailed,
}

/// The modelled directory with no entries.
pub open spec fn empty_model() -> TreeModel {
    TreeModel { entries: Seq::empty() }
}

/// Write `contents` at the path `comps[i..]` under `m`: descend existing
/// directories, create missing ones only when `create` is set, and put the
/// file at the final component. `None` when a file blocks the directory
/// chain, when a directory sits at the file's own path, or when a missing
/// directory may not be created.
pub open spec fn model_write(
    m: TreeModel,
    comps: Seq<Seq<u8>>,
    i: int,
    contents: Seq<u8>,
    create: bool,
) -> Option<TreeModel>
    decreases comps.len() - i,
{
    if i < 0 || i >= comps.len() {
        None
    } else {
        let name = comps[i];
        match model_index_from(m.entries, 0, name) {
            None => {
                if i == comps.len() - 1 {
                    Some(TreeModel { entries: m.entries.push((name, NodeModel::File(contents))) })
                } else if create {
                    match model_write(empty_model(), comps, i + 1, contents, create) {
                        None => None,
                        Some(sub) => Some(
                            TreeModel { entries: m.entries.push((name, NodeModel::Dir(sub))) },
                        ),
                    }
                } else {
                    None
                }
            },
            Some(j) => {
                let node = m.entries[j].1;
                if i == comps.len() - 1 {
                    match node {
                        NodeModel::Dir(_) => None,
                        NodeModel::File(_) => Some(
                            TreeModel {
                                entries: m.entries.update(j, (name, NodeModel::File(contents))),
                            },
                        ),
                    }
                } else {
                    match node {
                        NodeModel::File(_) => None,
                        NodeModel::Dir(sub) => match model_write(
                            sub,
                            comps,
                            i + 1,
                            contents,
                            create,
                        ) {
                            None => None,
                            Some(sub2) => Some(
                                TreeModel {
                                    entries: m.entries.update(j, (name, NodeModel::Dir(sub2))),
                                },
                            ),
                        },
                    }
                }
            },
        }
    }
}

/// Remove the file at the path `comps[i..]` under `m`. `None` when the path
/// does not lead through existing directories to an existing file.
pub open spec fn model_remove(m: TreeModel, comps: Seq<Seq<u8>>, i: int) -> Option<TreeModel>
    decreases comps.len() - i,
{
    if i < 0 || i >= comps.len() {
        None
    } else {
        let name = comps[i];
        match model_index_from(m.entries, 0, name) {
            None => None,
            Some(j) => {
                let node = m.entries[j].1;
                if i == comps.len() - 1 {
                    match node {
                        NodeModel::Dir(_) => None,
                        NodeModel::File(_) => Some(TreeModel { entries: m.entries.remove(j) }),
                    }
                } else {
                    match node {
                        NodeModel::File(_) => None,
                        NodeModel::Dir(sub) => match model_remove(sub, comps, i + 1) {
                            None => None,
                            Some(sub2) => Some(
                                TreeModel {
                                    entries: m.entries.update(j, (name, NodeModel::Dir(sub2))),
                                },
                            ),
                        },
                    }
                }
            },
        }
    }
}

/// What one record does to the modelled tree, `None` on failure.
pub open spec fn spec_apply_record(m: TreeModel, r: RecordModel) -> Option<TreeModel> {
    match r.kind {
        ChangeType::Add => model_write(m, split_path(r.path), 0, r.contents, true),
        ChangeType::Modify => model_write(m, split_path(r.path), 0, r.contents, false),
        ChangeType::Delete => model_remove(m, split_path(r.path), 0),
    }
}

/// What a whole record sequence does: the records apply in order; the first
/// failure stops the run, leaving the tree as the successful prefix left it
/// (`Err` carries that tree).
pub open spec fn spec_apply_all(m: TreeModel, rs: Seq<RecordModel>) -> Result<
    TreeModel,
    TreeModel,
>
    decreases rs.len(),
{
    if rs.len() == 0 {
        Ok(m)
    } else {
        match spec_apply_record(m, rs[0]) {
            None => Err(m),
            Some(m2) => spec_apply_all(m2, rs.skip(1)),
        }
    }
}

/// A split path always has at least one component.
pub proof fn lemma_split_path_len(p: Seq<u8>)
    ensures
        split_path(p).len() >= 1,
{
    match first_index_from(p, 0, 47u8) {
        None => {},
        Some(t) => {},
    }
}

/// Split a path into its `/`-separated components.
pub fn split_path_vec(p: &Vec<u8>) -> (r: Vec<Vec<u8>>)
    ensures
        r@.map_values(|v: Vec<u8>| v@) == split_path(p@),
        r@.len() >= 1,
{
    let n = p.len();
    let mut out: Vec<Vec<u8>> = Vec::new();
    let mut pos: usize = 0;
    proof {
        assert(p@.skip(0) =~= p@);
        assert(out@.map_values(|v: Vec<u8>| v@) + split_path(p@.skip(0)) =~= split_path(p@));
    }
    loop
        invariant
            0 <= pos <= p@.len(),
            n == p@.len(),
            out@.map_values(|v: Vec<u8>| v@) + split_path(p@.skip(pos as int)) == split_path(p@),
        decreases p@.len() - pos,
    {
        let ghost rest = p@.skip(pos as int);
        let ghost out0 = out@.map_values(|v: Vec<u8>| v@);
        proof {
            assert(rest.skip(0) =~= rest);
            lemma_first_index_from(p@, pos as int, 47u8);
            lemma_first_index_from(rest, 0, 47u8);
            lemma_first_index_suffix(p@, pos as int, rest, 0, 47u8);
        }
        match find_byte_from(p, pos, 47u8) {
            None => {
                let piece = subrange_vec(p, pos, p.len());
                proof {
                    assert(piece@ =~= rest);
                    assert(split_path(rest) == seq![rest]);
                    assert(out@.push(piece).map_values(|v: Vec<u8>| v@) =~= out0 + seq![rest]);
                }
                out.push(piece);
                proof {
                    lemma_split_path_len(p@);
                }
                return out;
            },
            Some(t) => {
                let piece = subrange_vec(p, pos, t);
                let ghost trel = t - pos;
                proof {
                    assert(first_index_from(rest, 0, 47u8) == Some(trel));
                    assert(piece@ =~= rest.subrange(0, trel));
                    assert(split_path(rest) == seq![rest.subrange(0, trel)] + split_path(
                        rest.skip(trel + 1),
                    ));
                    assert(rest.skip(trel + 1) =~= p@.skip(t + 1));
                    assert(out@.push(piece).map_values(|v: Vec<u8>| v@) =~= out0 + seq![piece@]);
                    assert((out0 + seq![piece@]) + split_path(p@.skip(t as int + 1)) =~= out0 + (
                    seq![piece@] + split_path(p@.skip(t as int + 1))));
                }
                out.push(piece);
                pos = t + 1;
            },
        }
    }
}

/// Find the index of the entry named `name`, scanning entries in order.
fn find_entry_index(t: &Tree, name: &Vec<u8>) -> (r: Option<usize>)
    ensures
        match r {
            Some(j) => model_index_from(t@.entries, 0, name@) == Some(j as int) && j
                < t.entries@.len(),
            None => model_index_from(t@.entries, 0, name@) is None,
        },
{
    let mut i: usize = 0;
    while i < t.entries.len()
        invariant
            0 <= i <= t.entries@.len(),
            t@.entries.len() == t.entries@.len(),
            model_index_from(t@.entries, 0, name@) == model_index_from(
                t@.entries,
                i as int,
                name@,
            ),
        decreases t.entries@.len() - i,
    {
        if crate::bytes::bytes_eq(&t.entries[i].name, name) {
            assert(t@.entries[i as int].0 == name@);
            return Some(i);
        }
        assert(t@.entries[i as int].0 != name@);
        i += 1;
    }
    None
}

/// Write `contents` at `comps[i..]` under `t`, as `model_write` specifies.
fn tree_write(t: &mut Tree, comps: &Vec<Vec<u8>>, i: usize, contents: &Vec<u8>, create: bool) -> (ok:
    bool)
    requires
        i < comps@.len(),
    ensures
        match model_write(
            old(t)@,
            comps@.map_values(|v: Vec<u8>| v@),
            i as int,
            contents@,
            create,
        ) {
            Some(m) => ok && final(t)@ == m,
            None => !ok && final(t)@ == old(t)@,
        },
    decreases comps@.len() - i,
{
    let ghost cs = comps@.map_values(|v: Vec<u8>| v@);
    let ghost m0 = t@;
    let name = &comps[i];
    let last = i == comps.len() - 1;
    match find_entry_index(t, name) {
        None => {
            if last {
                let e = TreeEntry {
                    name: copy_bytes(name),
                    node: Node::File(copy_bytes(contents)),
                };
                let ghost enew = e;
                t.entries.push(e);
                proof {
                    assert(t@.entries =~= m0.entries.push((cs[i as int], NodeModel::File(
                        contents@,
                    ))));
                }
                true
            } else if create {
                let mut sub = Tree { entries: Vec::new() };
                proof {
                    assert(sub@.entries =~= empty_model().entries);
                }
                let ok = tree_write(&mut sub, comps, i + 1, contents, create);
                if ok {
                    let e = TreeEntry { name: copy_bytes(name), node: Node::Dir(sub) };
                    t.entries.push(e);
                    proof {
                        assert(t@.entries =~= m0.entries.push(
                            (
                                cs[i as int],
                                NodeModel::Dir(
                                    model_write(
                                        empty_model(),
                                        cs,
                                        i as int + 1,
                                        contents@,
                                        create,
                                    ).unwrap(),
                                ),
                            ),
                        ));
                    }
                    true
                } else {
                    false
                }
            } else {
                false
            }
        },
        Some(j) => {
            proof {
                lemma_model_index_from(m0.entries, 0, name@);
            }
            let mut e = t.entries.remove(j);
            let ok: bool;
            if last {
                match &e.node {
                    Node::Dir(_) => {
                        ok = false;
                    },
                    Node::File(_) => {
                        e.node = Node::File(copy_bytes(contents));
                        ok = true;
                    },
                }
            } else {
                let node = e.node;
                match node {
                    Node::File(f) => {
                        e.node = Node::File(f);
                        ok = false;
                    },
                    Node::Dir(mut sub) => {
                        let sok = tree_write(&mut sub, comps, i + 1, contents, create);
                        e.node = Node::Dir(sub);
                        ok = sok;
                    },
                }
            }
            t.entries.insert(j, e);
            proof {
                assert(t.entries@ =~= old(t).entries@.update(j as int, e));
                if ok {
                    let target = model_write(m0, cs, i as int, contents@, create).unwrap();
                    assert(t@.entries =~= target.entries);
                } else {
                    assert(t@.entries =~= m0.entries);
                }
            }
            ok
        },
    }
}

/// Remove the file at `comps[i..]` under `t`, as `model_remove` specifies.
fn tree_remove(t: &mut Tree, comps: &Vec<Vec<u8>>, i: usize) -> (ok: bool)
    requires
        i < comps@.len(),
    ensures
        match model_remove(old(t)@, comps@.map_values(|v: Vec<u8>| v@), i as int) {
            Some(m) => ok && final(t)@ == m,
            None => !ok && final(t)@ == old(t)@,
        },
    decreases comps@.len() - i,
{
    let ghost cs = comps@.map_values(|v: Vec<u8>| v@);
    let ghost m0 = t@;
    let name = &comps[i];
    let last = i == comps.len() - 1;
    match find_entry_index(t, name) {
        None => false,
        Some(j) => {
            proof {
                lemma_model_index_from(m0.entries, 0, name@);
            }
            if last {
                let is_file = match &t.entries[j].node {
                    Node::File(_) => true,
                    Node::Dir(_) => false,
                };
                if is_file {
                    t.entries.remove(j);
                    proof {
                        assert(t@.entries =~= m0.entries.remove(j as int));
                    }
                    true
                } else {
                    false
                }
            } else {
                let mut e = t.entries.remove(j);
                let ok: bool;
                let node = e.node;
                match node {
                    Node::File(f) => {
                        e.node = Node::File(f);
                        ok = false;
                    },
                    Node::Dir(mut sub) => {
                        let sok = tree_remove(&mut sub, comps, i + 1);
                        e.node = Node::Dir(sub);
                        ok = sok;
                    },
                }
                t.entries.insert(j, e);
                proof {
                    assert(t.entries@ =~= old(t).entries@.update(j as int, e));
                    if ok {
                        let target = model_remove(m0, cs, i as int).unwrap();
                        assert(t@.entries =~= target.entries);
                    } else {
                        assert(t@.entries =~= m0.entries);
                    }
                }
                ok
            }
        },
    }
}

/// The file contents at entry `name` of the modelled directory, if a file
/// (not a directory) stands there.
pub open spec fn mfile(m: TreeModel, name: Seq<u8>) -> Option<Seq<u8>> {
    match model_index_from(m.entries, 0, name) {
        None => None,
        Some(j) => match m.entries[j].1 {
            NodeModel::File(c) => Some(c),
            NodeModel::Dir(_) => None,
        },
    }
}

/// Entry names of the modelled directory are distinct.
pub open spec fn m_distinct(m: TreeModel) -> bool {
    forall|i: int, j: int| 0 <= i < j < m.entries.len() ==> m.entries[i].0 != m.entries[j].0
}

/// Every entry of the modelled directory is a file.
pub open spec fn m_flat(m: TreeModel) -> bool {
    forall|i: int| 0 <= i < m.entries.len() ==> (#[trigger] m.entries[i].1) is File
}

/// Every entry of the tree is a file (no subdirectories).
pub open spec fn flat_tree(t: Tree) -> bool {
    forall|i: int| 0 <= i < t.entries@.len() ==> (#[trigger] t.entries@[i].node) is File
}

/// Applying concatenated record sequences applies them in turn.
proof fn lemma_apply_all_concat(m: TreeModel, rs1: Seq<RecordModel>, rs2: Seq<RecordModel>)
    ensures
        spec_apply_all(m, rs1 + rs2) == match spec_apply_all(m, rs1) {
            Ok(m1) => spec_apply_all(m1, rs2),
            Err(m1) => Err::<TreeModel, TreeModel>(m1),
        },
    decreases rs1.len(),
{
    if rs1.len() == 0 {
        assert(rs1 + rs2 =~= rs2);
    } else {
        assert((rs1 + rs2)[0] == rs1[0]);
        assert((rs1 + rs2).skip(1) =~= rs1.skip(1) + rs2);
        match spec_apply_record(m, rs1[0]) {
            None => {},
            Some(m2) => {
                lemma_apply_all_concat(m2, rs1.skip(1), rs2);
            },
        }
    }
}

/// In a distinct-named model, an entry is found under its own name.
proof fn lemma_m_index_of_entry(m: TreeModel, j: int)
    requires
        m_distinct(m),
        0 <= j < m.entries.len(),
    ensures
        model_index_from(m.entries, 0, m.entries[j].0) == Some(j),
{
    lemma_model_index_from(m.entries, 0, m.entries[j].0);
    match model_index_from(m.entries, 0, m.entries[j].0) {
        None => {
            assert(m.entries[j].0 == m.entries[j].0);
        },
        Some(j2) => {
            if j2 < j {
                assert(m.entries[j2].0 != m.entries[j].0);
            }
        },
    }
}

/// Updating entry `j` in place changes only that name's lookup.
proof fn lemma_mfile_update(m: TreeModel, j: int, node: NodeModel)
    requires
        m_distinct(m),
        0 <= j < m.entries.len(),
    ensures
        ({
            let m2 = TreeModel { entries: m.entries.update(j, (m.entries[j].0, node)) };
            &&& m_distinct(m2)
            &&& (m_flat(m) && node is File ==> m_flat(m2))
            &&& mfile(m2, m.entries[j].0) == (match node {
                NodeModel::File(c) => Some(c),
                NodeModel::Dir(_) => None::<Seq<u8>>,
            })
            &&& forall|x: Seq<u8>| x != m.entries[j].0 ==> mfile(m2, x) == mfile(m, x)
        }),
{
    let name = m.entries[j].0;
    let m2 = TreeModel { entries: m.entries.update(j, (name, node)) };
    assert(forall|k: int| 0 <= k < m.entries.len() ==> m2.entries[k].0 == m.entries[k].0);
    lemma_m_index_of_entry(m, j);
    lemma_m_index_of_entry(m2, j);
    assert forall|x: Seq<u8>| x != name implies mfile(m2, x) == mfile(m, x) by {
        lemma_model_index_from(m.entries, 0, x);
        lemma_model_index_from(m2.entries, 0, x);
        match model_index_from(m.entries, 0, x) {
            None => {
                if model_index_from(m2.entries, 0, x) is Some {
                    let k = model_index_from(m2.entries, 0, x).unwrap();
                    assert(m.entries[k].0 == x);
                }
            },
            Some(k) => {
                assert(m2.entries[k].0 == x);
                if model_index_from(m2.entries, 0, x) is None {
                    assert(m2.entries[k].0 != x);
                }
                let k2 = model_index_from(m2.entries, 0, x).unwrap();
                if k2 < k {
                    assert(m.entries[k2].0 == x);
                }
                if k < k2 {
                    assert(m2.entries[k].0 != x);
                }
                assert(k2 == k);
                assert(k != j);
                assert(m2.entries[k] == m.entries[k]);
            },
        }
    }
}

/// Removing entry `j` drops only that name's lookup.
proof fn lemma_mfile_remove(m: TreeModel, j: int)
    requires
        m_distinct(m),
        0 <= j < m.entries.len(),
    ensures
        ({
            let m2 = TreeModel { entries: m.entries.remove(j) };
            &&& m_distinct(m2)
            &&& (m_flat(m) ==> m_flat(m2))
            &&& mfile(m2, m.entries[j].0) is None
            &&& forall|x: Seq<u8>| x != m.entries[j].0 ==> mfile(m2, x) == mfile(m, x)
        }),
{
    let name = m.entries[j].0;
    let m2 = TreeModel { entries: m.entries.remove(j) };
    assert(forall|k: int|
        0 <= k < m2.entries.len() ==> m2.entries[k] == (if k < j {
            m.entries[k]
        } else {
            m.entries[k + 1]
        }));
    lemma_model_index_from(m2.entries, 0, name);
    if model_index_from(m2.entries, 0, name) is Some {
        let k = model_index_from(m2.entries, 0, name).unwrap();
        if k < j {
            assert(m.entries[k].0 == name);
        } else {
            assert(m.entries[k + 1].0 == name);
        }
    }
    assert forall|x: Seq<u8>| x != name implies mfile(m2, x) == mfile(m, x) by {
        lemma_model_index_from(m.entries, 0, x);
        lemma_model_index_from(m2.entries, 0, x);
        match model_index_from(m.entries, 0, x) {
            None => {
                if model_index_from(m2.entries, 0, x) is Some {
                    let k = model_index_from(m2.entries, 0, x).unwrap();
                    if k < j {
                        assert(m.entries[k].0 == x);
                    } else {
                        assert(m.entries[k + 1].0 == x);
                    }
                }
            },
            Some(k) => {
                let k2: int = if k < j {
                    k
                } else {
                    k - 1
                };
                assert(m2.entries[k2].0 == x && m2.entries[k2] == m.entries[k]);
                match model_index_from(m2.entries, 0, x) {
                    None => {
                        assert(m2.entries[k2].0 != x);
                    },
                    Some(kk) => {
                        let korig: int = if kk < j {
                            kk
                        } else {
                            kk + 1
                        };
                        assert(m.entries[korig].0 == x);
                        if korig < k {
                            assert(m.entries[korig].0 != x);
                        }
                        if kk < k2 {
                            assert(m.entries[korig].0 == x && korig < k);
                        }
                        if k2 < kk {
                            assert(m2.entries[k2].0 != x);
                        }
                        assert(kk == k2);
                        assert(m2.entries[kk] == m.entries[k]);
                    },
                }
            },
        }
    }
}

/// Appending a fresh name adds only that name's lookup.
proof fn lemma_mfile_push(m: TreeModel, name: Seq<u8>, node: NodeModel)
    requires
        m_distinct(m),
        forall|k: int| 0 <= k < m.entries.len() ==> m.entries[k].0 != name,
    ensures
        ({
            let m2 = TreeModel { entries: m.entries.push((name, node)) };
            &&& m_distinct(m2)
            &&& (m_flat(m) && node is File ==> m_flat(m2))
            &&& mfile(m2, name) == (match node {
                NodeModel::File(c) => Some(c),
                NodeModel::Dir(_) => None::<Seq<u8>>,
            })
            &&& forall|x: Seq<u8>| x != name ==> mfile(m2, x) == mfile(m, x)
        }),
{
    let m2 = TreeModel { entries: m.entries.push((name, node)) };
    let j = m.entries.len() as int;
    assert(m2.entries[j] == (name, node));
    assert(forall|k: int| 0 <= k < j ==> m2.entries[k] == m.entries[k]);
    lemma_m_index_of_entry(m2, j);
    assert forall|x: Seq<u8>| x != name implies mfile(m2, x) == mfile(m, x) by {
        lemma_model_index_from(m.entries, 0, x);
        lemma_model_index_from(m2.entries, 0, x);
        match model_index_from(m.entries, 0, x) {
            None => {
                if model_index_from(m2.entries, 0, x) is Some {
                    let k = model_index_from(m2.entries, 0, x).unwrap();
                    assert(m2.entries[k].0 == x);
                    assert(k != j);
                }
            },
            Some(k) => {
                assert(m2.entries[k].0 == x);
                let k2 = model_index_from(m2.entries, 0, x).unwrap();
                if k2 < k {
                    assert(m.entries[k2].0 == x);
                }
                assert(k2 == k && m2.entries[k] == m.entries[k]);
            },
        }
    }
}

/// What a file lookup yields midway through the forward phase: files of
/// `a` from entry `i` on still carry `a`'s contents; names already walked
/// carry `b`'s file (or are gone); names outside `a` are untouched.
spec fn fwd_expect(a: Tree, b: Tree, i: int, x: Seq<u8>) -> Option<Seq<u8>> {
    match model_index_from(tree_model(a).entries, 0, x) {
        None => None,
        Some(j) => if j >= i {
            mfile(tree_model(a), x)
        } else {
            mfile(tree_model(b), x)
        },
    }
}

/// What a file lookup yields midway through the reverse phase: `b`'s files
/// that exist in `a` or have been added already carry `b`'s contents; the
/// rest of `b`'s files are still missing; names outside `b` are gone.
spec fn rev_expect(a: Tree, b: Tree, k: int, x: Seq<u8>) -> Option<Seq<u8>> {
    match model_index_from(tree_model(b).entries, 0, x) {
        None => None,
        Some(j) => if model_index_from(tree_model(a).entries, 0, x) is Some || j < k {
            mfile(tree_model(b), x)
        } else {
            None
        },
    }
}

/// A well-formed flat tree models as a distinct-named, all-file directory.
proof fn lemma_flat_model(t: Tree)
    requires
        tree_wf(t),
        flat_tree(t),
    ensures
        m_distinct(tree_model(t)),
        m_flat(tree_model(t)),
        forall|k: int|
            0 <= k < t.entries@.len() ==> (#[trigger] tree_model(t).entries[k]).0
                == t.entries@[k].name@,
{
    assert(forall|k: int|
        0 <= k < t.entries@.len() ==> (#[trigger] tree_model(t).entries[k]) == (
        t.entries@[k].name@,
        node_model(t.entries@[k].node),
        ));
}

proof fn lemma_flat_forward_apply(a: Tree, b: Tree, m: TreeModel, i: int)
    requires
        tree_wf(a),
        flat_tree(a),
        tree_names_ok(a),
        tree_wf(b),
        flat_tree(b),
        m_distinct(m),
        m_flat(m),
        0 <= i <= a.entries@.len(),
        forall|x: Seq<u8>| mfile(m, x) == fwd_expect(a, b, i, x),
    ensures
        ({
            let r = spec_apply_all(m, spec_forward_from(a, i, Some(b), Seq::empty(), Seq::empty()));
            &&& r is Ok
            &&& m_distinct(r->Ok_0) && m_flat(r->Ok_0)
            &&& forall|x: Seq<u8>|
                mfile(r->Ok_0, x) == fwd_expect(a, b, a.entries@.len() as int, x)
        }),
    decreases a.entries@.len() - i,
{
    reveal_with_fuel(spec_apply_all, 3);
    reveal_with_fuel(join_comps, 2);
    let w = spec_forward_from(a, i, Some(b), Seq::empty(), Seq::empty());
    lemma_flat_model(a);
    lemma_flat_model(b);
    if i == a.entries@.len() {
        assert(w =~= Seq::<RecordModel>::empty());
    } else {
        let e = a.entries@[i];
        let name = e.name@;
        let c = match e.node {
            Node::File(cv) => cv@,
            Node::Dir(_) => Seq::empty(),
        };
        assert(e.node is File);
        assert(tree_model(a).entries[i] == (name, NodeModel::File(c)));
        lemma_m_index_of_entry(tree_model(a), i);
        assert(mfile(tree_model(a), name) == Some(c));
        let here = spec_file_diff(Seq::empty(), name, c, Some(b));
        let tail = spec_forward_from(a, i + 1, Some(b), Seq::empty(), Seq::empty());
        assert(w == here + tail);
        assert(child_path(Seq::empty(), name) == name);
        lemma_model_find(b, 0, name);
        lemma_apply_all_concat(m, here, tail);
        assert(valid_name(name));
        assert(seq![name][0] == name);
        lemma_split_join(seq![name]);
        assert(split_path(name) == seq![name]);
        match file_contents_at(Some(b), name) {
            Some(c2) => {
                assert(mfile(tree_model(b), name) == Some(c2));
                if c2 == c {
                    assert(here =~= Seq::<RecordModel>::empty());
                    assert(spec_apply_all(m, here) == Ok::<TreeModel, TreeModel>(m));
                    assert forall|x: Seq<u8>| mfile(m, x) == fwd_expect(a, b, i + 1, x) by {
                        if model_index_from(tree_model(a).entries, 0, x) == Some(i) {
                            lemma_model_index_from(tree_model(a).entries, 0, x);
                            assert(x == name);
                        }
                    }
                    lemma_flat_forward_apply(a, b, m, i + 1);
                } else {
                    let rec = RecordModel { path: name, kind: ChangeType::Modify, contents: c2 };
                    assert(here =~= seq![rec]);
                    assert(mfile(m, name) == Some(c));
                    let j = model_index_from(m.entries, 0, name).unwrap();
                    lemma_model_index_from(m.entries, 0, name);
                    assert(m.entries[j].1 == NodeModel::File(c) || m.entries[j].1 is File);
                    assert(seq![name].len() == 1);
                    let m1 = TreeModel {
                        entries: m.entries.update(j, (name, NodeModel::File(c2))),
                    };
                    assert(model_write(m, seq![name], 0, c2, false) == Some(m1));
                    assert(spec_apply_record(m, rec) == Some(m1));
                    lemma_mfile_update(m, j, NodeModel::File(c2));
                    assert(spec_apply_all(m, here) == Ok::<TreeModel, TreeModel>(m1)) by {
                        assert(seq![rec][0] == rec);
                        assert(seq![rec].skip(1) =~= Seq::<RecordModel>::empty());
                    }
                    assert forall|x: Seq<u8>| mfile(m1, x) == fwd_expect(a, b, i + 1, x) by {
                        if x == name {
                        } else {
                            if model_index_from(tree_model(a).entries, 0, x) == Some(i) {
                                lemma_model_index_from(tree_model(a).entries, 0, x);
                                assert(x == name);
                            }
                        }
                    }
                    lemma_flat_forward_apply(a, b, m1, i + 1);
                }
            },
            None => {
                assert(mfile(tree_model(b), name) is None) by {
                    match find_entry(b, name) {
                        Some(n) => {
                            let jb = model_index_from(tree_model(b).entries, 0, name).unwrap();
                            assert(tree_model(b).entries[jb].1 is File);
                            assert(n is File);
                        },
                        None => {},
                    }
                }
                let rec = RecordModel { path: name, kind: ChangeType::Delete, contents: c };
                assert(here =~= seq![rec]);
                assert(mfile(m, name) == Some(c));
                let j = model_index_from(m.entries, 0, name).unwrap();
                lemma_model_index_from(m.entries, 0, name);
                let m1 = TreeModel { entries: m.entries.remove(j) };
                assert(model_remove(m, seq![name], 0) == Some(m1));
                assert(spec_apply_record(m, rec) == Some(m1));
                lemma_mfile_remove(m, j);
                assert(spec_apply_all(m, here) == Ok::<TreeModel, TreeModel>(m1)) by {
                    assert(seq![rec][0] == rec);
                    assert(seq![rec].skip(1) =~= Seq::<RecordModel>::empty());
                }
                assert forall|x: Seq<u8>| mfile(m1, x) == fwd_expect(a, b, i + 1, x) by {
                    if x == name {
                    } else {
                        if model_index_from(tree_model(a).entries, 0, x) == Some(i) {
                            lemma_model_index_from(tree_model(a).entries, 0, x);
                            assert(x == name);
                        }
                    }
                }
                lemma_flat_forward_apply(a, b, m1, i + 1);
            },
        }
    }
}

proof fn lemma_flat_reverse_apply(a: Tree, b: Tree, m: TreeModel, k: int)
    requires
        tree_wf(a),
        flat_tree(a),
        tree_wf(b),
        flat_tree(b),
        tree_names_ok(b),
        m_distinct(m),
        m_flat(m),
        0 <= k <= b.entries@.len(),
        forall|x: Seq<u8>| mfile(m, x) == rev_expect(a, b, k, x),
    ensures
        ({
            let r = spec_apply_all(m, spec_reverse_from(b, k, Some(a), Seq::empty(), Seq::empty()));
            &&& r is Ok
            &&& forall|x: Seq<u8>|
                mfile(r->Ok_0, x) == rev_expect(a, b, b.entries@.len() as int, x)
        }),
    decreases b.entries@.len() - k,
{
    reveal_with_fuel(spec_apply_all, 3);
    reveal_with_fuel(join_comps, 2);
    let w = spec_reverse_from(b, k, Some(a), Seq::empty(), Seq::empty());
    lemma_flat_model(a);
    lemma_flat_model(b);
    if k == b.entries@.len() {
        assert(w =~= Seq::<RecordModel>::empty());
    } else {
        let e = b.entries@[k];
        let name = e.name@;
        let c = match e.node {
            Node::File(cv) => cv@,
            Node::Dir(_) => Seq::empty(),
        };
        assert(e.node is File);
        assert(tree_model(b).entries[k] == (name, NodeModel::File(c)));
        lemma_m_index_of_entry(tree_model(b), k);
        assert(model_index_from(tree_model(b).entries, 0, name) == Some(k));
        assert(mfile(tree_model(b), name) == Some(c));
        let tail = spec_reverse_from(b, k + 1, Some(a), Seq::empty(), Seq::empty());
        assert(child_path(Seq::empty(), name) == name);
        lemma_model_find(a, 0, name);
        if exists_at(Some(a), name) {
            let here = Seq::<RecordModel>::empty();
            assert(w == here + tail);
            assert(w =~= tail);
            assert forall|x: Seq<u8>| mfile(m, x) == rev_expect(a, b, k + 1, x) by {
                if model_index_from(tree_model(b).entries, 0, x) == Some(k) {
                    lemma_model_index_from(tree_model(b).entries, 0, x);
                    assert(x == name);
                }
            }
            lemma_flat_reverse_apply(a, b, m, k + 1);
        } else {
            let rec = RecordModel { path: name, kind: ChangeType::Add, contents: c };
            let here = seq![rec];
            assert(w == here + tail);
            lemma_apply_all_concat(m, here, tail);
            assert(valid_name(name));
            assert(seq![name][0] == name);
            lemma_split_join(seq![name]);
            assert(split_path(name) == seq![name]);
            assert(model_index_from(tree_model(a).entries, 0, name) is None);
            assert(mfile(m, name) is None);
            assert(model_index_from(m.entries, 0, name) is None) by {
                if model_index_from(m.entries, 0, name) is Some {
                    let j = model_index_from(m.entries, 0, name).unwrap();
                    lemma_model_index_from(m.entries, 0, name);
                    assert(m.entries[j].1 is File);
                }
            }
            let m1 = TreeModel { entries: m.entries.push((name, NodeModel::File(c))) };
            assert(model_write(m, seq![name], 0, c, true) == Some(m1));
            assert(spec_apply_record(m, rec) == Some(m1));
            lemma_model_index_from(m.entries, 0, name);
            lemma_mfile_push(m, name, NodeModel::File(c));
            assert(spec_apply_all(m, here) == Ok::<TreeModel, TreeModel>(m1)) by {
                assert(seq![rec][0] == rec);
                assert(seq![rec].skip(1) =~= Seq::<RecordModel>::empty());
            }
            assert forall|x: Seq<u8>| mfile(m1, x) == rev_expect(a, b, k + 1, x) by {
                if x == name {
                } else {
                    if model_index_from(tree_model(b).entries, 0, x) == Some(k) {
                        lemma_model_index_from(tree_model(b).entries, 0, x);
                        assert(x == name);
                    }
                }
            }
            lemma_flat_reverse_apply(a, b, m1, k + 1);
        }
    }
}

/// Diff/apply inverse law, for trees of plain files (no subdirectories):
/// replaying `gen_diff(a, b, [])` against `a` succeeds, and the resulting
/// tree holds exactly `b`'s files — same names, same contents.
pub proof fn lemma_flat_diff_apply_inverse(a: Tree, b: Tree)
    requires
        tree_wf(a),
        tree_wf(b),
        tree_names_ok(a),
        tree_names_ok(b),
        flat_tree(a),
        flat_tree(b),
    ensures
        ({
            let r = spec_apply_all(tree_model(a), spec_gen_diff(a, b, Seq::empty()));
            &&& r is Ok
            &&& forall|name: Seq<u8>| mfile(r->Ok_0, name) == mfile(tree_model(b), name)
        }),
{
    lemma_flat_model(a);
    lemma_flat_model(b);
    let m0 = tree_model(a);
    let fwd = spec_forward_from(a, 0, Some(b), Seq::empty(), Seq::empty());
    let rev = spec_reverse_from(b, 0, Some(a), Seq::empty(), Seq::empty());
    assert(spec_gen_diff(a, b, Seq::empty()) == fwd + rev);
    lemma_apply_all_concat(m0, fwd, rev);
    assert forall|x: Seq<u8>| mfile(m0, x) == fwd_expect(a, b, 0, x) by {
        lemma_model_index_from(m0.entries, 0, x);
    }
    lemma_flat_forward_apply(a, b, m0, 0);
    let m1 = spec_apply_all(m0, fwd)->Ok_0;
    let len_a = a.entries@.len() as int;
    assert forall|x: Seq<u8>| mfile(m1, x) == rev_expect(a, b, 0, x) by {
        lemma_model_index_from(tree_model(a).entries, 0, x);
        lemma_model_index_from(tree_model(b).entries, 0, x);
        if model_index_from(tree_model(a).entries, 0, x) is Some {
            let j = model_index_from(tree_model(a).entries, 0, x).unwrap();
            assert(j < len_a);
        }
    }
    lemma_flat_reverse_apply(a, b, m1, 0);
    let m2 = spec_apply_all(m1, rev)->Ok_0;
    assert forall|x: Seq<u8>| mfile(m2, x) == mfile(tree_model(b), x) by {
        lemma_model_index_from(tree_model(b).entries, 0, x);
    }
}

/// Replay the records against the tree, in order. On the first record that
/// cannot be applied, stop: the tree keeps every change already applied and
/// the run reports `FilesystemOperationFailed`, exactly as `spec_apply_all`
/// lays out.
pub fn apply_update(project: &mut Tree, diff: &Vec<FileDiff>) -> (r: Result<(), ApplyError>)
    ensures
        match spec_apply_all(old(project)@, models_of(diff@)) {
            Ok(m) => r is Ok && final(project)@ == m,
            Err(m) => r is Err && final(project)@ == m,
        },
{
    let ghost rs = models_of(diff@);
    let mut k: usize = 0;
    proof {
        assert(rs.skip(0) =~= rs);
    }
    while k < diff.len()
        invariant
            0 <= k <= diff@.len(),
            rs == models_of(diff@),
            rs.len() == diff@.len(),
            spec_apply_all(old(project)@, rs) == spec_apply_all(project@, rs.skip(k as int)),
        decreases diff@.len() - k,
    {
        let ghost m0 = project@;
        let fd = &diff[k];
        let comps = split_path_vec(&fd.path);
        proof {
            assert(rs[k as int] == fd@);
            assert(comps@.map_values(|v: Vec<u8>| v@) == split_path(fd@.path));
        }
        let ok = match fd.change_type {
            ChangeType::Add => tree_write(project, &comps, 0, &fd.change_contents, true),
            ChangeType::Modify => tree_write(project, &comps, 0, &fd.change_contents, false),
            ChangeType::Delete => tree_remove(project, &comps, 0),
        };
        proof {
            assert(rs.skip(k as int)[0] == rs[k as int]);
            assert(rs.skip(k as int).skip(1) =~= rs.skip(k as int + 1));
        }
        if !ok {
            proof {
                assert(spec_apply_record(m0, rs[k as int]) is None);
                assert(spec_apply_all(m0, rs.skip(k as int)) == Err::<TreeModel, TreeModel>(m0));
            }
            return Err(ApplyError::FilesystemOperationFailed);
        }
        proof {
            assert(spec_apply_record(m0, rs[k as int]) == Some(project@));
        }
        k += 1;
    }
    proof {
        assert(rs.skip(rs.len() as int) =~= Seq::<RecordModel>::empty());
    }
    Ok(())
}

} // verus!
