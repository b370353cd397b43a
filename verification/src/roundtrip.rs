//! Unpacking what was archived, and archiving it again: the steps that an
//! archive of a tree is unpacked by put every file of the tree back where it
//! was, provided that the codec hands back what it was given; and the
//! entries of the archive of a tree are the same whichever way the tree is
//! walked.

use vstd::prelude::*;
use crate::codec::{directory_name, Member, Written, CONTENT_LIMIT};
use crate::error::EpubError;
use crate::paths::{confined, joined, names_directory, parent_dir, relative_to};
use crate::reader::{extraction_plan, StepModel};
use crate::text::has_prefix;
use crate::writer::{
    entry_for, holds_name, lemma_plan_is_valid, mimetype_entry, planned_entries, recorded,
    recorded_all, valid_plan, EntryKind, EntryModel, NodeModel, MIMETYPE,
};

verus! {

/// The reader hands back one member as the writer recorded it: under its
/// name and with its content, and not refused if the name is confined.
pub open spec fn handed_back_one(member: Option<Member>, written: Written) -> bool {
    match member {
        Some(m) => {
            &&& m.name == written.name
            &&& m.data == Some(written.data)
            &&& confined(m.name) ==> m.enclosed
        },
        None => false,
    }
}

/// The reader hands back what the writer recorded: as many members, each as
/// it was recorded.
pub open spec fn handed_back(members: Seq<Option<Member>>, written: Seq<Written>) -> bool {
    &&& members.len() == written.len()
    &&& forall|i: int|
        0 <= i < written.len() ==> handed_back_one(#[trigger] members[i], written[i])
}

/// An entry that can come back as what it was: the name it is recorded
/// under is confined, and ends in a slash exactly if it is a directory.
pub open spec fn restorable(e: EntryModel) -> bool {
    &&& confined(recorded(e).name)
    &&& names_directory(recorded(e).name) == (e.kind == EntryKind::Directory)
}

/// The step that puts an entry back below `dest`.
pub open spec fn restored(dest: Seq<char>, e: EntryModel) -> StepModel {
    match e.kind {
        EntryKind::File => StepModel::WriteFile {
            path: joined(dest, e.name),
            parent: parent_dir(joined(dest, e.name)),
            data: e.content,
        },
        EntryKind::Directory => StepModel::CreateDir { path: joined(dest, directory_name(e.name)) },
    }
}

/// The steps that put a list of entries back below `dest`.
pub open spec fn restored_all(dest: Seq<char>, entries: Seq<EntryModel>) -> Seq<StepModel> {
    entries.map_values(|e: EntryModel| restored(dest, e))
}

/// The step that puts a walked path back where it was: a file at its path
/// with its content, anything else as a directory.
pub open spec fn put_back(node: NodeModel) -> StepModel {
    if node.is_file {
        StepModel::WriteFile {
            path: node.path,
            parent: parent_dir(node.path),
            data: node.content,
        }
    } else {
        StepModel::CreateDir { path: directory_name(node.path) }
    }
}

/// Where the reader hands back what was recorded for restorable entries,
/// the plan that unpacks the archive is one step for each entry, in order:
/// each file with its content, each directory as a directory.
pub proof fn lemma_unpacking_gives_back_the_entries(
    dest: Seq<char>,
    entries: Seq<EntryModel>,
    members: Seq<Option<Member>>,
)
    requires
        handed_back(members, recorded_all(entries)),
        forall|i: int| 0 <= i < entries.len() ==> restorable(#[trigger] entries[i]),
    ensures
        extraction_plan(dest, members) == Ok::<Seq<StepModel>, EpubError>(
            restored_all(dest, entries),
        ),
    decreases entries.len(),
{
    if entries.len() == 0 {
        assert(restored_all(dest, entries) =~= Seq::<StepModel>::empty());
    } else {
        let front = entries.drop_last();
        let e = entries.last();
        let written = recorded_all(entries);
        assert(recorded_all(front) =~= written.drop_last());
        assert forall|i: int| 0 <= i < front.len() implies restorable(#[trigger] front[i]) by {
            assert(front[i] == entries[i]);
        }
        assert(handed_back(members.drop_last(), recorded_all(front))) by {
            assert forall|i: int| 0 <= i < front.len() implies handed_back_one(
                #[trigger] members.drop_last()[i],
                recorded_all(front)[i],
            ) by {
                assert(members.drop_last()[i] == members[i]);
                assert(recorded_all(front)[i] == written[i]);
            }
        }
        lemma_unpacking_gives_back_the_entries(dest, front, members.drop_last());
        assert(handed_back_one(members.last(), written[entries.len() - 1]));
        assert(written[entries.len() - 1] == recorded(e));
        assert(restorable(e));
        assert(restored_all(dest, entries) =~= restored_all(dest, front).push(restored(dest, e)));
    }
}

/// A path below the root is the root joined with its name in the archive.
pub proof fn lemma_name_rejoins(root: Seq<char>, path: Seq<char>)
    requires
        path != root,
    ensures
        relative_to(root, path) matches Some(name) ==> joined(root, name) == path,
{
    if has_prefix(path, root + seq!['/']) {
        let name = path.skip(root.len() as int + 1);
        assert(joined(root, name) =~= path) by {
            assert(path.subrange(0, root.len() as int + 1) == root + seq!['/']);
            assert forall|i: int| 0 <= i < path.len() implies joined(root, name)[i] == path[i] by {
                if i <= root.len() {
                    assert(path.subrange(0, root.len() as int + 1)[i] == path[i]);
                }
            }
        }
    }
}

/// The entry of a walked path other than the root is put back at that path.
pub proof fn lemma_entry_goes_back_to_its_path(root: Seq<char>, node: NodeModel)
    requires
        node.path != root,
    ensures
        entry_for(root, node) matches Ok(Some(e)) ==> restored(root, e) == put_back(node),
{
    lemma_name_rejoins(root, node.path);
    match entry_for(root, node) {
        Ok(Some(e)) => {
            if !node.is_file {
                let name = e.name;
                assert(name.len() > 0);
                assert(node.path.last() == name.last());
                assert(joined(root, directory_name(name)) =~= directory_name(node.path)) by {
                    if directory_name(name) != name {
                        assert(joined(root, name + seq!['/']) =~= joined(root, name) + seq!['/']);
                    }
                }
            }
        },
        _ => {},
    }
}

/// A walked path that lies below the root: it is neither the root nor the
/// root with a closing slash.
pub open spec fn below_root(root: Seq<char>, path: Seq<char>) -> bool {
    path != root && path != root + seq!['/']
}

/// A plan that succeeds has succeeded on every shorter walk.
proof fn lemma_shorter_plan_succeeds(root: Seq<char>, mimetype: Seq<u8>, nodes: Seq<NodeModel>)
    requires
        nodes.len() > 0,
        planned_entries(root, mimetype, nodes) is Ok,
    ensures
        planned_entries(root, mimetype, nodes.drop_last()) matches Ok(before) && {
            &&& 1 <= before.len()
            &&& before.len() <= planned_entries(root, mimetype, nodes).unwrap().len()
            &&& before == planned_entries(root, mimetype, nodes).unwrap().take(before.len() as int)
            &&& entry_for(root, nodes.last()) matches Ok(added) && (match added {
                Some(e) => planned_entries(root, mimetype, nodes).unwrap() == before.push(e),
                None => planned_entries(root, mimetype, nodes).unwrap() == before,
            })
        },
{
    let front = nodes.drop_last();
    if front.len() > 0 {
        assert(planned_entries(root, mimetype, front).unwrap().len() >= 1) by {
            lemma_plan_is_valid(root, mimetype, front);
        }
    }
    let before = planned_entries(root, mimetype, front).unwrap();
    let entries = planned_entries(root, mimetype, nodes).unwrap();
    assert(before =~= entries.take(before.len() as int));
}

/// In a plan that succeeds, every walked path below the root has its entry
/// in the plan, behind `mimetype`; the result is the place of the entry.
pub proof fn lemma_walked_path_is_planned(
    root: Seq<char>,
    mimetype: Seq<u8>,
    nodes: Seq<NodeModel>,
    j: int,
) -> (k: int)
    requires
        0 <= j < nodes.len(),
        below_root(root, nodes[j].path),
        planned_entries(root, mimetype, nodes) is Ok,
    ensures
        1 <= k < planned_entries(root, mimetype, nodes).unwrap().len(),
        entry_for(root, nodes[j]) == Ok::<Option<EntryModel>, EpubError>(
            Some(planned_entries(root, mimetype, nodes).unwrap()[k]),
        ),
    decreases nodes.len(),
{
    let front = nodes.drop_last();
    lemma_shorter_plan_succeeds(root, mimetype, nodes);
    let before = planned_entries(root, mimetype, front).unwrap();
    let entries = planned_entries(root, mimetype, nodes).unwrap();
    if j < front.len() {
        assert(front[j] == nodes[j]);
        let k = lemma_walked_path_is_planned(root, mimetype, front, j);
        assert(entries[k] == before[k]);
        k
    } else {
        assert(nodes[j] == nodes.last());
        match relative_to(root, nodes[j].path) {
            Some(name) => {
                if name.len() == 0 {
                    assert(nodes[j].path =~= root + seq!['/']) by {
                        assert(nodes[j].path.subrange(0, root.len() as int + 1) =~= nodes[j].path);
                    }
                }
            },
            None => {},
        }
        entries.len() - 1
    }
}

/// In a plan that succeeds, every entry behind `mimetype` is that of a
/// walked path; the result is the place of the path in the walk.
pub proof fn lemma_planned_entry_is_walked(
    root: Seq<char>,
    mimetype: Seq<u8>,
    nodes: Seq<NodeModel>,
    k: int,
) -> (j: int)
    requires
        planned_entries(root, mimetype, nodes) is Ok,
        1 <= k < planned_entries(root, mimetype, nodes).unwrap().len(),
    ensures
        0 <= j < nodes.len(),
        entry_for(root, nodes[j]) == Ok::<Option<EntryModel>, EpubError>(
            Some(planned_entries(root, mimetype, nodes).unwrap()[k]),
        ),
    decreases nodes.len(),
{
    if nodes.len() == 0 {
        0
    } else {
        let front = nodes.drop_last();
        lemma_shorter_plan_succeeds(root, mimetype, nodes);
        let before = planned_entries(root, mimetype, front).unwrap();
        let entries = planned_entries(root, mimetype, nodes).unwrap();
        if k < before.len() {
            let j = lemma_planned_entry_is_walked(root, mimetype, front, k);
            assert(front[j] == nodes[j]);
            assert(entries[k] == before[k]);
            j
        } else {
            nodes.len() - 1
        }
    }
}

/// Archiving a tree and unpacking the archive into the root of the tree puts
/// the tree back: the plan that unpacks it is the step for `mimetype`, then
/// one step for each entry of the archive, each of which puts a walked path
/// back: a file at its path with its content, a directory as a directory.
///
/// This holds where the reader hands back what the writer recorded, every
/// entry is restorable and every walked path lies below the root; it is
/// stated of the plans, which is as far as this crate reaches.
pub proof fn lemma_unpacking_restores_the_tree(
    root: Seq<char>,
    mimetype: Seq<u8>,
    nodes: Seq<NodeModel>,
    members: Seq<Option<Member>>,
)
    requires
        forall|j: int| 0 <= j < nodes.len() ==> below_root(root, (#[trigger] nodes[j]).path),
        planned_entries(root, mimetype, nodes) matches Ok(entries) && {
            &&& handed_back(members, recorded_all(entries))
            &&& forall|i: int| 0 <= i < entries.len() ==> restorable(#[trigger] entries[i])
        },
    ensures
        extraction_plan(root, members) matches Ok(steps) && {
            &&& steps.len() >= 1
            &&& steps[0] == restored(root, mimetype_entry(mimetype))
            &&& forall|j: int|
                0 <= j < nodes.len() ==> steps.contains(put_back(#[trigger] nodes[j]))
            &&& forall|k: int| 1 <= k < steps.len() ==> is_put_back(nodes, #[trigger] steps[k])
        },
{
    let entries = planned_entries(root, mimetype, nodes).unwrap();
    lemma_unpacking_gives_back_the_entries(root, entries, members);
    lemma_plan_is_valid(root, mimetype, nodes);
    let steps = restored_all(root, entries);
    assert(steps[0] == restored(root, entries[0]));
    assert forall|j: int| 0 <= j < nodes.len() implies steps.contains(
        put_back(#[trigger] nodes[j]),
    ) by {
        let k = lemma_walked_path_is_planned(root, mimetype, nodes, j);
        lemma_entry_goes_back_to_its_path(root, nodes[j]);
        assert(steps[k] == restored(root, entries[k]));
    }
    assert forall|k: int| 1 <= k < steps.len() implies is_put_back(nodes, #[trigger] steps[k]) by {
        let j = lemma_planned_entry_is_walked(root, mimetype, nodes, k);
        lemma_entry_goes_back_to_its_path(root, nodes[j]);
        assert(steps[k] == restored(root, entries[k]));
        assert(steps[k] == put_back(nodes[j]));
    }
}

/// The step puts one of the walked paths back.
pub open spec fn is_put_back(nodes: Seq<NodeModel>, step: StepModel) -> bool {
    exists|j: int| 0 <= j < nodes.len() && step == put_back(#[trigger] nodes[j])
}

/// In a plan that succeeds, the entry of a walked path that has one is in
/// the plan, behind `mimetype`; the result is the place of the entry.
pub proof fn lemma_entry_of_path_is_planned(
    root: Seq<char>,
    mimetype: Seq<u8>,
    nodes: Seq<NodeModel>,
    j: int,
) -> (k: int)
    requires
        0 <= j < nodes.len(),
        entry_for(root, nodes[j]) matches Ok(Some(_)),
        planned_entries(root, mimetype, nodes) is Ok,
    ensures
        1 <= k < planned_entries(root, mimetype, nodes).unwrap().len(),
        entry_for(root, nodes[j]) == Ok::<Option<EntryModel>, EpubError>(
            Some(planned_entries(root, mimetype, nodes).unwrap()[k]),
        ),
    decreases nodes.len(),
{
    let front = nodes.drop_last();
    lemma_shorter_plan_succeeds(root, mimetype, nodes);
    let before = planned_entries(root, mimetype, front).unwrap();
    let entries = planned_entries(root, mimetype, nodes).unwrap();
    if j < front.len() {
        assert(front[j] == nodes[j]);
        let k = lemma_entry_of_path_is_planned(root, mimetype, front, j);
        assert(entries[k] == before[k]);
        k
    } else {
        assert(nodes[j] == nodes.last());
        entries.len() - 1
    }
}

/// The name under which the archive records a walked path, where the path
/// has an entry.
pub open spec fn recorded_name_of(root: Seq<char>, node: NodeModel) -> Option<Seq<char>> {
    match entry_for(root, node) {
        Ok(Some(e)) => Some(recorded(e).name),
        _ => None,
    }
}

/// A walk that can be archived: every path lies under the root and holds
/// no more content than the archive takes, none is recorded under the name
/// `mimetype`, and no two are recorded under one name.
pub open spec fn archivable(root: Seq<char>, nodes: Seq<NodeModel>) -> bool {
    &&& forall|j: int| 0 <= j < nodes.len() ==> entry_for(root, #[trigger] nodes[j]) is Ok
    &&& forall|j: int|
        0 <= j < nodes.len() ==> recorded_name_of(root, #[trigger] nodes[j]) != Some(MIMETYPE@)
    &&& forall|i: int, j: int|
        0 <= i < j < nodes.len() && recorded_name_of(root, nodes[i]) is Some ==> recorded_name_of(
            root,
            #[trigger] nodes[i],
        ) != recorded_name_of(root, #[trigger] nodes[j])
}

/// A plan succeeds exactly for the walks that can be archived, with a
/// `mimetype` file whose content is within the limit.
pub proof fn lemma_plan_succeeds_if_archivable(
    root: Seq<char>,
    mimetype: Seq<u8>,
    nodes: Seq<NodeModel>,
)
    ensures
        planned_entries(root, mimetype, nodes) is Ok <==> mimetype.len() <= CONTENT_LIMIT
            && archivable(root, nodes),
    decreases nodes.len(),
{
    if nodes.len() > 0 {
        let front = nodes.drop_last();
        let last = nodes.last();
        let n = front.len() as int;
        lemma_plan_succeeds_if_archivable(root, mimetype, front);
        lemma_plan_is_valid(root, mimetype, front);
        assert forall|j: int| 0 <= j < n implies front[j] == nodes[j] by {}
        if planned_entries(root, mimetype, nodes) is Ok {
            lemma_shorter_plan_succeeds(root, mimetype, nodes);
            let before = planned_entries(root, mimetype, front).unwrap();
            let held = recorded_all(before);
            assert(held[0].name == MIMETYPE@);
            assert forall|j: int| 0 <= j < nodes.len() implies entry_for(
                root,
                #[trigger] nodes[j],
            ) is Ok by {
                if j < n {
                    assert(front[j] == nodes[j]);
                }
            }
            assert forall|j: int| 0 <= j < nodes.len() implies recorded_name_of(
                root,
                #[trigger] nodes[j],
            ) != Some(MIMETYPE@) by {
                if j < n {
                    assert(front[j] == nodes[j]);
                } else if recorded_name_of(root, last) == Some(MIMETYPE@) {
                    assert(holds_name(held, MIMETYPE@));
                }
            }
            assert forall|i: int, j: int|
                0 <= i < j < nodes.len() && recorded_name_of(
                    root,
                    nodes[i],
                ) is Some implies recorded_name_of(root, #[trigger] nodes[i]) != recorded_name_of(
                root,
                #[trigger] nodes[j],
            ) by {
                assert(front[i] == nodes[i]);
                if j < n {
                    assert(front[j] == nodes[j]);
                } else if recorded_name_of(root, nodes[i]) == recorded_name_of(root, last) {
                    let k = lemma_entry_of_path_is_planned(root, mimetype, front, i);
                    assert(held[k].name == recorded(before[k]).name);
                    assert(holds_name(held, recorded_name_of(root, last).unwrap()));
                }
            }
        }
        if mimetype.len() <= CONTENT_LIMIT && archivable(root, nodes) {
            assert(archivable(root, front)) by {
                assert forall|j: int| 0 <= j < n implies entry_for(root, #[trigger] front[j]) is Ok by {
                    assert(front[j] == nodes[j]);
                }
                assert forall|j: int| 0 <= j < n implies recorded_name_of(
                    root,
                    #[trigger] front[j],
                ) != Some(MIMETYPE@) by {
                    assert(front[j] == nodes[j]);
                }
                assert forall|i: int, j: int|
                    0 <= i < j < n && recorded_name_of(
                        root,
                        front[i],
                    ) is Some implies recorded_name_of(root, #[trigger] front[i])
                    != recorded_name_of(root, #[trigger] front[j]) by {
                    assert(front[i] == nodes[i] && front[j] == nodes[j]);
                }
            }
            let before = planned_entries(root, mimetype, front).unwrap();
            let held = recorded_all(before);
            assert(nodes[n] == last);
            match entry_for(root, last) {
                Ok(Some(e)) => {
                    let name = recorded(e).name;
                    assert(recorded_name_of(root, nodes[n]) == Some(name));
                    if holds_name(held, name) {
                        let k = choose|k: int| 0 <= k < held.len() && #[trigger] held[k].name == name;
                        assert(held[k] == recorded(before[k]));
                        if k == 0 {
                            assert(false);
                        } else {
                            let j = lemma_planned_entry_is_walked(root, mimetype, front, k);
                            assert(front[j] == nodes[j]);
                            assert(recorded_name_of(root, nodes[j]) == Some(name));
                            assert(false);
                        }
                    }
                },
                _ => {},
            }
        }
    }
}

/// Two walks meet the same paths: every path of the one, with its kind and
/// its content, is a path of the other.
pub open spec fn same_paths(first: Seq<NodeModel>, second: Seq<NodeModel>) -> bool {
    &&& forall|j: int| 0 <= j < first.len() ==> second.contains(#[trigger] first[j])
    &&& forall|j: int| 0 <= j < second.len() ==> first.contains(#[trigger] second[j])
}

/// The entries of an archive do not depend on the order of the walk. Where
/// the plan of one walk succeeds, the plan of every other walk that meets
/// the same paths, each once, succeeds too, and holds the same entries:
/// as many of them, `mimetype` first, and every entry of the one plan in the
/// other, under its name, of its kind and with its content.
pub proof fn lemma_archive_does_not_depend_on_the_walk(
    root: Seq<char>,
    mimetype: Seq<u8>,
    first: Seq<NodeModel>,
    second: Seq<NodeModel>,
)
    requires
        planned_entries(root, mimetype, first) is Ok,
        same_paths(first, second),
        second.no_duplicates(),
    ensures
        planned_entries(root, mimetype, second) matches Ok(again) && {
            let entries = planned_entries(root, mimetype, first).unwrap();
            &&& again.len() == entries.len()
            &&& again.len() >= 1
            &&& again[0] == entries[0]
            &&& forall|k: int| 0 <= k < entries.len() ==> again.contains(#[trigger] entries[k])
            &&& forall|k: int| 0 <= k < again.len() ==> entries.contains(#[trigger] again[k])
        },
{
    lemma_plan_succeeds_if_archivable(root, mimetype, first);
    assert(archivable(root, second)) by {
        assert forall|j: int| 0 <= j < second.len() implies entry_for(
            root,
            #[trigger] second[j],
        ) is Ok && recorded_name_of(root, second[j]) != Some(MIMETYPE@) by {
            let p = choose|p: int| 0 <= p < first.len() && first[p] == second[j];
            assert(entry_for(root, first[p]) is Ok);
        }
        assert forall|i: int, j: int|
            0 <= i < j < second.len() && recorded_name_of(
                root,
                second[i],
            ) is Some implies recorded_name_of(root, #[trigger] second[i]) != recorded_name_of(
            root,
            #[trigger] second[j],
        ) by {
            let p = choose|p: int| 0 <= p < first.len() && first[p] == second[i];
            let q = choose|q: int| 0 <= q < first.len() && first[q] == second[j];
            assert(second[i] != second[j]);
            if p < q {
                assert(recorded_name_of(root, first[p]) != recorded_name_of(root, first[q]));
            } else if q < p {
                if recorded_name_of(root, first[q]) is Some {
                    assert(recorded_name_of(root, first[q]) != recorded_name_of(root, first[p]));
                }
            }
        }
    }
    lemma_plan_succeeds_if_archivable(root, mimetype, second);
    lemma_plan_is_valid(root, mimetype, first);
    lemma_plan_is_valid(root, mimetype, second);
    let entries = planned_entries(root, mimetype, first).unwrap();
    let again = planned_entries(root, mimetype, second).unwrap();
    assert forall|k: int| 0 <= k < entries.len() implies again.contains(#[trigger] entries[k]) by {
        if k == 0 {
            assert(again[0] == entries[0]);
        } else {
            let j = lemma_planned_entry_is_walked(root, mimetype, first, k);
            let j2 = choose|j2: int| 0 <= j2 < second.len() && second[j2] == first[j];
            let k2 = lemma_entry_of_path_is_planned(root, mimetype, second, j2);
            assert(again[k2] == entries[k]);
        }
    }
    assert forall|k: int| 0 <= k < again.len() implies entries.contains(#[trigger] again[k]) by {
        if k == 0 {
            assert(entries[0] == again[0]);
        } else {
            let j = lemma_planned_entry_is_walked(root, mimetype, second, k);
            let j1 = choose|j1: int| 0 <= j1 < first.len() && first[j1] == second[j];
            let k1 = lemma_entry_of_path_is_planned(root, mimetype, first, j1);
            assert(entries[k1] == again[k]);
        }
    }
    lemma_planned_entries_differ(entries);
    lemma_planned_entries_differ(again);
    entries.unique_seq_to_set();
    again.unique_seq_to_set();
    assert(entries.to_set() =~= again.to_set());
}

/// The entries of a valid plan differ from each other.
proof fn lemma_planned_entries_differ(entries: Seq<EntryModel>)
    requires
        valid_plan(entries),
    ensures
        entries.no_duplicates(),
{
    let held = recorded_all(entries);
    assert forall|i: int, j: int|
        0 <= i < entries.len() && 0 <= j < entries.len() && i != j implies entries[i]
        != entries[j] by {
        assert(held[i] == recorded(entries[i]) && held[j] == recorded(entries[j]));
        if i < j {
            assert(held[i].name != held[j].name);
        } else {
            assert(held[j].name != held[i].name);
        }
    }
}

} // verus!
